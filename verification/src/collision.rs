//! The collision check of debug mode: a second table that remembers, for each
//! slot, the label of the first scope that used it, and an entry that fails
//! where another scope's label turns up in the slot.

use vstd::prelude::*;
use vstd::array::*;
use vstd::bytes::{
    lemma_auto_spec_u128_to_from_le_bytes,
    spec_u128_from_le_bytes,
    spec_u128_to_le_bytes,
    u128_from_le_bytes,
    u128_to_le_bytes,
};
use vstd::slice::slice_to_vec;
use vstd::string::StringSliceAdditionalSpecFns;
use vstd::utf8::valid_utf8;
use crate::anchor::{write_label, written_label, LABEL_LENGTH};
use crate::hash::ARRAY_LEN;
use crate::profiler::{Profiler, __Timer};
use crate::text::{append_bytes, append_decimal, decimal, is_utf8, label_display, label_text};

verus! {

/// For each slot the label that was first written into it, packed into one
/// word with the first byte lowest, or zero where none was written yet.
pub struct DebugAnchors {
    packed: [u128; ARRAY_LEN],
}

impl View for DebugAnchors {
    type V = Seq<u128>;

    closed spec fn view(&self) -> Seq<u128> {
        self.packed@
    }
}

/// A known label and an incoming one disagree.
pub open spec fn collides(known: u128, incoming: u128) -> bool {
    known != 0 && known != incoming
}

/// Labels that differ pack to different words.
pub proof fn law_packing_tells_labels_apart(first: Seq<u8>, second: Seq<u8>)
    requires
        first.len() == LABEL_LENGTH,
        second.len() == LABEL_LENGTH,
        first != second,
    ensures
        spec_u128_from_le_bytes(first) != spec_u128_from_le_bytes(second),
{
    lemma_auto_spec_u128_to_from_le_bytes();
    assert(spec_u128_to_le_bytes(spec_u128_from_le_bytes(first)) == first);
    assert(spec_u128_to_le_bytes(spec_u128_from_le_bytes(second)) == second);
}

/// Once a slot is known by its label, every entry that is not a collision
/// leaves the label as it was.
pub proof fn law_known_label_is_kept(label: Seq<u8>, name: Seq<u8>)
    requires
        label.len() == LABEL_LENGTH,
        spec_u128_from_le_bytes(label) != 0,
        !collides(
            spec_u128_from_le_bytes(label),
            spec_u128_from_le_bytes(written_label(label, name)),
        ),
    ensures
        written_label(label, name) == label,
{
    lemma_auto_spec_u128_to_from_le_bytes();
    let written = written_label(label, name);
    assert(spec_u128_to_le_bytes(spec_u128_from_le_bytes(written)) == written);
    assert(spec_u128_to_le_bytes(spec_u128_from_le_bytes(label)) == label);
}

/// Two call sites with different labels were assigned the same slot.
pub struct HashCollision {
    /// The shared slot.
    pub index: usize,
    /// The label that the slot was known by, packed.
    pub known: u128,
    /// The name of the scope that was being entered.
    pub name: Vec<u8>,
}

/// The text for a name: the name itself where it is well-formed UTF-8, and
/// the words `invalid name` where it is not.
pub open spec fn name_text(name: Seq<u8>) -> Seq<u8> {
    if valid_utf8(name) {
        name
    } else {
        "invalid name".spec_bytes()
    }
}

/// The message that reports a collision: both labels and the shared slot.
pub open spec fn collision_text(index: int, known: u128, name: Seq<u8>) -> Seq<u8> {
    "Hash collisions found! ".spec_bytes() + label_text(spec_u128_to_le_bytes(known))
        + " and ".spec_bytes() + name_text(name) + " both hashed to ".spec_bytes() + decimal(
        index as nat,
    )
}

impl HashCollision {
    /// The message that reports this collision.
    pub fn message(&self) -> (text: Vec<u8>)
        ensures
            text@ == collision_text(self.index as int, self.known, self.name@),
    {
        let known = u128_to_le_bytes(self.known);
        let shown = label_display(known.as_slice());
        let mut text = slice_to_vec("Hash collisions found! ".as_bytes());
        append_bytes(&mut text, shown.as_slice());
        append_bytes(&mut text, " and ".as_bytes());
        if is_utf8(self.name.as_slice()) {
            append_bytes(&mut text, self.name.as_slice());
        } else {
            append_bytes(&mut text, "invalid name".as_bytes());
        }
        append_bytes(&mut text, " both hashed to ".as_bytes());
        append_decimal(&mut text, self.index as u64);
        text
    }
}

impl DebugAnchors {
    /// The table in which no slot is known by a label yet.
    pub fn new() -> (debug: Self)
        ensures
            debug@ == Seq::new(ARRAY_LEN as nat, |i: int| 0u128),
    {
        let debug = DebugAnchors { packed: [0u128; ARRAY_LEN] };
        proof {
            assert(debug@ =~= Seq::new(ARRAY_LEN as nat, |i: int| 0u128));
        }
        debug
    }

    /// The packed label that slot `index` is known by.
    pub fn known(&self, index: usize) -> (packed: u128)
        requires
            index < ARRAY_LEN,
        ensures
            packed == self@[index as int],
            self@.len() == ARRAY_LEN,
    {
        self.packed[index]
    }
}

impl __Timer {
    /// Enters the scope in slot `index` as `new` does, unless the slot is
    /// known by another label than the one that this entry would leave in
    /// it. Then nothing is changed and the collision is returned.
    pub fn new_debug(
        profiler: &mut Profiler,
        debug: &mut DebugAnchors,
        name: &str,
        bytes: u64,
        index: usize,
        start: u64,
    ) -> (entry: Result<__Timer, HashCollision>)
        requires
            index < ARRAY_LEN,
        ensures
            ({
                let label = written_label(
                    old(profiler)@.anchors[index as int].label,
                    name.spec_bytes(),
                );
                let incoming = spec_u128_from_le_bytes(label);
                let known = old(debug)@[index as int];
                match entry {
                    Ok(timer) => {
                        &&& !collides(known, incoming)
                        &&& timer@ == old(profiler)@.frame(index as int, bytes as int, start as int)
                        &&& final(profiler)@ == old(profiler)@.enter(
                            name.spec_bytes(),
                            index as int,
                        )
                        &&& final(debug)@ == old(debug)@.update(index as int, incoming)
                    },
                    Err(collision) => {
                        &&& collides(known, incoming)
                        &&& collision.index == index
                        &&& collision.known == known
                        &&& collision.name@ == name.spec_bytes()
                        &&& final(profiler)@ == old(profiler)@
                        &&& final(debug)@ == old(debug)@
                    },
                }
            }),
            final(profiler)@.wf(),
    {
        let mut label = profiler.block(index).label;
        write_label(&mut label, name.as_bytes());
        let incoming = u128_from_le_bytes(label.as_slice());
        let known = debug.packed[index];
        if known != 0 && known != incoming {
            Err(HashCollision { index, known, name: slice_to_vec(name.as_bytes()) })
        } else {
            let timer = __Timer::new(profiler, name, bytes, index, start);
            debug.packed[index] = incoming;
            proof {
                assert(debug@ =~= old(debug)@.update(index as int, incoming));
            }
            Ok(timer)
        }
    }
}

} // verus!
