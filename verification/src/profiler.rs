//! The anchor table with its current-parent index, and the scoped timer whose
//! entry and exit keep the exclusive and inclusive accounts.

use vstd::prelude::*;
use vstd::array::*;
use vstd::string::StringSliceAdditionalSpecFns;
use crate::anchor::{write_label, written_label, Anchor, TimedBlock};
use crate::hash::ARRAY_LEN;
use crate::ledger::{law_enter_keeps_counts, law_exit_conserves_exclusive, total_exclusive};

verus! {

/// Two to the power 64: cycle counters and exclusive accounts wrap at it.
pub open spec fn word_modulus() -> int {
    0x1_0000_0000_0000_0000
}

/// `x` reduced into the range of a 64-bit counter.
pub open spec fn wrap64(x: int) -> int {
    x % word_modulus()
}

/// The cycles between two readings of a counter that may have wrapped once.
pub open spec fn elapsed_between(start: int, end: int) -> int {
    wrap64(end - start)
}

/// What a live timer remembers from its entry.
pub struct Frame {
    /// Cycle counter at entry.
    pub start: int,
    /// The scope's own slot.
    pub index: int,
    /// The slot that was current at entry.
    pub parent: int,
    /// The slot's inclusive count at entry.
    pub saved_inclusive: int,
    /// Bytes to report at exit.
    pub bytes: int,
}

/// The anchor table and the current-parent index, as mathematical values.
pub struct Table {
    pub anchors: Seq<Anchor>,
    pub parent: int,
}

impl Table {
    /// The table at program start: every anchor fresh, the root as parent.
    pub open spec fn fresh() -> Table {
        Table { anchors: Seq::new(ARRAY_LEN as nat, |i: int| Anchor::fresh()), parent: 0 }
    }

    /// The table has its size, its parent index names a slot, and every
    /// anchor is well formed.
    pub open spec fn wf(self) -> bool {
        &&& self.anchors.len() == ARRAY_LEN
        &&& 0 <= self.parent < ARRAY_LEN
        &&& forall|i: int| 0 <= i < ARRAY_LEN ==> (#[trigger] self.anchors[i]).wf()
    }

    /// The frame that an entry into slot `index` captures.
    pub open spec fn frame(self, index: int, bytes: int, start: int) -> Frame {
        Frame {
            start,
            index,
            parent: self.parent,
            saved_inclusive: self.anchors[index].inclusive,
            bytes,
        }
    }

    /// The table after an entry into slot `index` under the name `name`: the
    /// slot's label is written and the slot becomes the current parent.
    pub open spec fn enter(self, name: Seq<u8>, index: int) -> Table {
        let before = self.anchors[index];
        Table {
            anchors: self.anchors.update(
                index,
                Anchor { label: written_label(before.label, name), ..before },
            ),
            parent: index,
        }
    }

    /// The table after the parent's account was charged with `cycles`.
    pub open spec fn charge_parent(self, parent: int, cycles: int) -> Table {
        let before = self.anchors[parent];
        Table {
            anchors: self.anchors.update(
                parent,
                Anchor { exclusive: wrap64(before.exclusive - cycles), ..before },
            ),
            parent,
        }
    }

    /// The table after slot `f.index` was credited with `cycles` for the
    /// entry that `f` stands for.
    pub open spec fn credit_scope(self, f: Frame, cycles: int) -> Table {
        let before = self.anchors[f.index];
        Table {
            anchors: self.anchors.update(
                f.index,
                Anchor {
                    exclusive: wrap64(before.exclusive + cycles),
                    inclusive: f.saved_inclusive + cycles,
                    hits: before.hits + 1,
                    bytes: before.bytes + f.bytes,
                    label: before.label,
                },
            ),
            parent: self.parent,
        }
    }

    /// The table after the exit of the entry that `f` stands for, with the
    /// counter at `end`: the parent index is restored, the elapsed cycles are
    /// taken from the parent's exclusive count and added to the scope's own,
    /// the inclusive count becomes the saved one plus the elapsed cycles, and
    /// the hit and byte counts grow.
    pub open spec fn exit(self, f: Frame, end: int) -> Table {
        let cycles = elapsed_between(f.start, end);
        self.charge_parent(f.parent, cycles).credit_scope(f, cycles)
    }

    /// The exit of `f` at `end` keeps every count within a 64-bit word.
    pub open spec fn exit_fits(self, f: Frame, end: int) -> bool {
        let cycles = elapsed_between(f.start, end);
        &&& f.saved_inclusive + cycles <= u64::MAX
        &&& self.anchors[f.index].hits + 1 <= u64::MAX
        &&& self.anchors[f.index].bytes + f.bytes <= u64::MAX
    }
}

/// The anchor table and the index of the deepest live scope.
pub struct Profiler {
    blocks: [TimedBlock; ARRAY_LEN],
    parent: usize,
}

impl View for Profiler {
    type V = Table;

    closed spec fn view(&self) -> Table {
        Table {
            anchors: Seq::new(ARRAY_LEN as nat, |i: int| self.blocks[i]@),
            parent: self.parent as int,
        }
    }
}

impl Profiler {
    #[verifier::type_invariant]
    spec fn inv(self) -> bool {
        self.parent < ARRAY_LEN
    }

    /// The table at program start.
    pub fn new() -> (profiler: Self)
        ensures
            profiler@ == Table::fresh(),
            profiler@.wf(),
    {
        let profiler = Profiler { blocks: [TimedBlock::new(); ARRAY_LEN], parent: 0 };
        proof {
            assert(profiler@.anchors =~= Table::fresh().anchors);
        }
        profiler
    }

    /// The slot of the deepest live scope, or the root's where none is live.
    pub fn parent_index(&self) -> (parent: usize)
        ensures
            parent == self@.parent,
            parent < ARRAY_LEN,
            self@.wf(),
    {
        proof {
            use_type_invariant(self);
        }
        self.parent
    }

    /// The anchor in slot `index`.
    pub fn block(&self, index: usize) -> (block: TimedBlock)
        requires
            index < ARRAY_LEN,
        ensures
            block@ == self@.anchors[index as int],
            self@.wf(),
    {
        proof {
            use_type_invariant(self);
        }
        self.blocks[index]
    }
}

/// Takes `cycles` from the exclusive count of slot `parent` and makes the
/// slot the current parent.
fn charge(profiler: &mut Profiler, parent: usize, cycles: u64)
    requires
        parent < ARRAY_LEN,
    ensures
        final(profiler)@ == old(profiler)@.charge_parent(parent as int, cycles as int),
{
    proof {
        use_type_invariant(&*profiler);
    }
    profiler.parent = parent;
    let mut outer = profiler.blocks[parent];
    outer.elapsed_exclusive = outer.elapsed_exclusive.wrapping_sub(cycles);
    profiler.blocks[parent] = outer;
    proof {
        let expected = old(profiler)@.charge_parent(parent as int, cycles as int);
        assert forall|i: int| 0 <= i < ARRAY_LEN implies profiler@.anchors[i]
            == expected.anchors[i] by {
            if i != parent {
                assert(profiler.blocks[i] == old(profiler).blocks[i]);
            }
        }
        assert(profiler@.anchors =~= expected.anchors);
    }
}

/// Credits the slot of `timer` with `cycles` for the entry that the timer
/// stands for.
fn credit(profiler: &mut Profiler, timer: &__Timer, cycles: u64)
    requires
        timer.index < ARRAY_LEN,
        timer.old_elapsed_inclusive + cycles <= u64::MAX,
        old(profiler)@.anchors[timer.index as int].hits + 1 <= u64::MAX,
        old(profiler)@.anchors[timer.index as int].bytes + timer.bytes <= u64::MAX,
    ensures
        final(profiler)@ == old(profiler)@.credit_scope(timer@, cycles as int),
        final(profiler)@.wf(),
{
    proof {
        use_type_invariant(&*profiler);
    }
    let mut own = profiler.blocks[timer.index];
    own.elapsed_exclusive = own.elapsed_exclusive.wrapping_add(cycles);
    own.elapsed_inclusive = timer.old_elapsed_inclusive + cycles;
    own.hit_count = own.hit_count + 1;
    own.processed_byte_count = own.processed_byte_count + timer.bytes;
    profiler.blocks[timer.index] = own;
    proof {
        let expected = old(profiler)@.credit_scope(timer@, cycles as int);
        assert forall|i: int| 0 <= i < ARRAY_LEN implies profiler@.anchors[i]
            == expected.anchors[i] by {
            if i != timer.index {
                assert(profiler.blocks[i] == old(profiler).blocks[i]);
            }
        }
        assert(profiler@.anchors =~= expected.anchors);
    }
}

/// A live timer: the record that one entry into a scope leaves on the stack
/// until the scope's exit commits it.
#[derive(Clone)]
pub struct __Timer {
    pub start: u64,
    pub index: usize,
    pub parent: usize,
    pub old_elapsed_inclusive: u64,
    pub bytes: u64,
}

impl View for __Timer {
    type V = Frame;

    open spec fn view(&self) -> Frame {
        Frame {
            start: self.start as int,
            index: self.index as int,
            parent: self.parent as int,
            saved_inclusive: self.old_elapsed_inclusive as int,
            bytes: self.bytes as int,
        }
    }
}

impl __Timer {
    /// Enters the scope in slot `index` with the cycle counter at `start`.
    pub fn new(profiler: &mut Profiler, name: &str, bytes: u64, index: usize, start: u64) -> (timer:
        Self)
        requires
            index < ARRAY_LEN,
        ensures
            timer@ == old(profiler)@.frame(index as int, bytes as int, start as int),
            final(profiler)@ == old(profiler)@.enter(name.spec_bytes(), index as int),
            final(profiler)@.wf(),
            total_exclusive(final(profiler)@.anchors) == total_exclusive(old(profiler)@.anchors),
    {
        proof {
            use_type_invariant(&*profiler);
            law_enter_keeps_counts(
                old(profiler)@,
                name.spec_bytes(),
                index as int,
                index as int,
            );
        }
        let mut block = profiler.blocks[index];
        let timer = __Timer {
            start,
            index,
            parent: profiler.parent,
            old_elapsed_inclusive: block.elapsed_inclusive,
            bytes,
        };
        write_label(&mut block.label, name.as_bytes());
        profiler.blocks[index] = block;
        profiler.parent = index;
        proof {
            assert(profiler@.anchors =~= old(profiler)@.enter(
                name.spec_bytes(),
                index as int,
            ).anchors);
        }
        timer
    }

    /// Leaves the scope with the cycle counter at `end` and commits the
    /// timer to the table. What the scope's slot gains in exclusive cycles
    /// the parent's slot loses, so the sum over the table stays what it was,
    /// modulo the word size.
    pub fn drop(self, profiler: &mut Profiler, end: u64)
        requires
            self.index < ARRAY_LEN,
            self.parent < ARRAY_LEN,
            old(profiler)@.exit_fits(self@, end as int),
        ensures
            final(profiler)@ == old(profiler)@.exit(self@, end as int),
            final(profiler)@.wf(),
            wrap64(total_exclusive(final(profiler)@.anchors)) == wrap64(
                total_exclusive(old(profiler)@.anchors),
            ),
    {
        let elapsed = end.wrapping_sub(self.start);
        charge(profiler, self.parent, elapsed);
        credit(profiler, &self, elapsed);
        proof {
            law_exit_conserves_exclusive(old(profiler)@, self@, end as int);
        }
    }

    /// The exit of this timer with the counter at `end` can be committed:
    /// its slots are slots of the table and every count stays within a word.
    pub open spec fn can_drop(self, table: Table, end: int) -> bool {
        &&& self.index < ARRAY_LEN
        &&& self.parent < ARRAY_LEN
        &&& table.exit_fits(self@, end)
    }

    /// Commits the timer as `drop` does where that can be done, and says
    /// whether it was. Where it cannot, the table stays as it is.
    pub fn try_drop(self, profiler: &mut Profiler, end: u64) -> (committed: bool)
        ensures
            committed == self.can_drop(old(profiler)@, end as int),
            committed ==> final(profiler)@ == old(profiler)@.exit(self@, end as int),
            !committed ==> final(profiler)@ == old(profiler)@,
            final(profiler)@.wf(),
            wrap64(total_exclusive(final(profiler)@.anchors)) == wrap64(
                total_exclusive(old(profiler)@.anchors),
            ),
    {
        proof {
            use_type_invariant(&*profiler);
        }
        if self.index >= ARRAY_LEN || self.parent >= ARRAY_LEN {
            return false;
        }
        let elapsed = end.wrapping_sub(self.start);
        let own = profiler.block(self.index);
        if elapsed > u64::MAX - self.old_elapsed_inclusive || own.hit_count == u64::MAX
            || self.bytes > u64::MAX - own.processed_byte_count {
            return false;
        }
        self.drop(profiler, end);
        true
    }
}

} // verus!
