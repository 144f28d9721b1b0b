//! The anchor: one fixed-size record of accumulators per call-site slot.

use vstd::prelude::*;
use vstd::array::*;

verus! {

/// Width of an anchor's label in bytes.
pub const LABEL_LENGTH: usize = 16;

/// One slot of the anchor table.
#[derive(Copy, Clone)]
pub struct TimedBlock {
    /// Cycles attributed to this site but not to its descendants.
    pub elapsed_exclusive: u64,
    /// Cycles attributed to this site, descendants included.
    pub elapsed_inclusive: u64,
    /// Number of completed entries.
    pub hit_count: u64,
    /// Bytes that the entries reported as processed.
    pub processed_byte_count: u64,
    /// The scope's display name, truncated, not terminated.
    pub label: [u8; LABEL_LENGTH],
}

/// What an anchor holds, as mathematical values.
pub struct Anchor {
    pub exclusive: int,
    pub inclusive: int,
    pub hits: int,
    pub bytes: int,
    pub label: Seq<u8>,
}

impl Anchor {
    /// The anchor that no entry has touched: every counter zero, every label
    /// byte zero.
    pub open spec fn fresh() -> Anchor {
        Anchor {
            exclusive: 0,
            inclusive: 0,
            hits: 0,
            bytes: 0,
            label: Seq::new(LABEL_LENGTH as nat, |i: int| 0u8),
        }
    }

    /// The counters are in the range of the machine words that store them and
    /// the label has its fixed width.
    pub open spec fn wf(self) -> bool {
        &&& 0 <= self.exclusive <= u64::MAX
        &&& 0 <= self.inclusive <= u64::MAX
        &&& 0 <= self.hits <= u64::MAX
        &&& 0 <= self.bytes <= u64::MAX
        &&& self.label.len() == LABEL_LENGTH
    }
}

impl View for TimedBlock {
    type V = Anchor;

    open spec fn view(&self) -> Anchor {
        Anchor {
            exclusive: self.elapsed_exclusive as int,
            inclusive: self.elapsed_inclusive as int,
            hits: self.hit_count as int,
            bytes: self.processed_byte_count as int,
            label: self.label@,
        }
    }
}

impl TimedBlock {
    /// A fresh anchor.
    pub fn new() -> (block: Self)
        ensures
            block@ == Anchor::fresh(),
            block.elapsed_exclusive == 0,
            block.elapsed_inclusive == 0,
            block.hit_count == 0,
            block.processed_byte_count == 0,
            forall|i: int| 0 <= i < LABEL_LENGTH ==> block.label[i] == 0,
    {
        let block = Self {
            elapsed_exclusive: 0,
            elapsed_inclusive: 0,
            hit_count: 0,
            processed_byte_count: 0,
            label: [0; LABEL_LENGTH],
        };
        proof {
            assert(block.label@ =~= Anchor::fresh().label);
        }
        block
    }
}

/// The label after `name` is written over `label`: the name cut to the
/// label's width, or filled up to it with zero bytes. Nothing of what the
/// label held before is left.
pub open spec fn written_label(label: Seq<u8>, name: Seq<u8>) -> Seq<u8> {
    Seq::new(
        label.len(),
        |i: int|
            if i < name.len() {
                name[i]
            } else {
                0u8
            },
    )
}

/// A name at least as long as the label is clipped: the label becomes the
/// name's first bytes, as many as the label is wide.
pub proof fn law_long_name_is_clipped(label: Seq<u8>, name: Seq<u8>)
    requires
        label.len() == LABEL_LENGTH,
        name.len() >= LABEL_LENGTH,
    ensures
        written_label(label, name) == name.take(LABEL_LENGTH as int),
{
    assert(written_label(label, name) =~= name.take(LABEL_LENGTH as int));
}

/// A shorter name is followed by zero bytes up to the label's width.
pub proof fn law_short_name_is_padded(label: Seq<u8>, name: Seq<u8>)
    requires
        label.len() == LABEL_LENGTH,
        name.len() <= LABEL_LENGTH,
    ensures
        written_label(label, name) == name + Seq::new(
            (LABEL_LENGTH - name.len()) as nat,
            |i: int| 0u8,
        ),
{
    assert(written_label(label, name) =~= name + Seq::new(
        (LABEL_LENGTH - name.len()) as nat,
        |i: int| 0u8,
    ));
}

/// What is written does not depend on what the label held.
pub proof fn law_written_label_forgets(first: Seq<u8>, second: Seq<u8>, name: Seq<u8>)
    requires
        first.len() == second.len(),
    ensures
        written_label(first, name) == written_label(second, name),
{
    assert(written_label(first, name) =~= written_label(second, name));
}

/// Writes `name` into `label`, cut to the label's width or filled up to it
/// with zero bytes.
pub fn write_label(label: &mut [u8; LABEL_LENGTH], name: &[u8])
    ensures
        final(label)@ == written_label(old(label)@, name@),
{
    let len: usize = if name.len() < LABEL_LENGTH {
        name.len()
    } else {
        LABEL_LENGTH
    };
    let mut i: usize = 0;
    while i < LABEL_LENGTH
        invariant
            i <= LABEL_LENGTH,
            len <= LABEL_LENGTH,
            len <= name.len(),
            len == LABEL_LENGTH || len == name.len(),
            forall|j: int|
                0 <= j < i ==> label[j] == if j < name.len() {
                    name[j]
                } else {
                    0u8
                },
        decreases LABEL_LENGTH - i,
    {
        if i < len {
            label[i] = name[i];
        } else {
            label[i] = 0;
        }
        i += 1;
    }
    proof {
        assert(label@ =~= written_label(old(label)@, name@));
    }
}

} // verus!
