//! Executions of the timer protocol as sequences of entries and exits, and
//! what holds of every such execution.

use vstd::prelude::*;
use crate::hash::ARRAY_LEN;
use crate::profiler::{Frame, Table};

verus! {

/// One step of an instrumented program.
pub enum Event {
    /// A scope in slot `index` is entered with the cycle counter at `at`.
    Enter { index: int, name: Seq<u8>, bytes: int, at: int },
    /// The deepest live scope is left with the cycle counter at `at`.
    Exit { at: int },
}

impl Event {
    /// The counter reading that the event carries.
    pub open spec fn at(self) -> int {
        match self {
            Event::Enter { at, .. } => at,
            Event::Exit { at } => at,
        }
    }

    /// The event is an entry into slot `i`.
    pub open spec fn enters(self, i: int) -> bool {
        match self {
            Event::Enter { index, .. } => index == i,
            Event::Exit { .. } => false,
        }
    }
}

/// A program in flight: the table, and the frames of the live timers from the
/// outermost to the deepest.
pub struct Run {
    pub table: Table,
    pub stack: Seq<Frame>,
}

/// The frames form a chain: the deepest frame's slot is `current`, each
/// frame's parent is the slot of the frame below it, and the outermost
/// frame's parent is the root.
pub open spec fn linked(stack: Seq<Frame>, current: int) -> bool
    decreases stack.len(),
{
    if stack.len() == 0 {
        current == 0
    } else {
        stack.last().index == current && linked(stack.drop_last(), stack.last().parent)
    }
}

/// Number of live frames of slot `i`.
pub open spec fn depth_of(stack: Seq<Frame>, i: int) -> nat
    decreases stack.len(),
{
    if stack.len() == 0 {
        0
    } else {
        depth_of(stack.drop_last(), i) + if stack.last().index == i {
            1nat
        } else {
            0nat
        }
    }
}

/// Number of entries into slot `i` among `events`.
pub open spec fn entries_of(events: Seq<Event>, i: int) -> nat
    decreases events.len(),
{
    if events.len() == 0 {
        0
    } else {
        entries_of(events.drop_last(), i) + if events.last().enters(i) {
            1nat
        } else {
            0nat
        }
    }
}

/// The counter readings of `events` never decrease.
pub open spec fn in_time_order(events: Seq<Event>) -> bool
    decreases events.len(),
{
    events.len() <= 1 || (in_time_order(events.drop_last()) && events[events.len() - 2].at()
        <= events.last().at())
}

impl Run {
    /// The program at its start.
    pub open spec fn initial() -> Run {
        Run { table: Table::fresh(), stack: Seq::empty() }
    }

    /// The table has its size, every frame names slots of the table, and
    /// the frames form a chain that ends in the current parent.
    pub open spec fn wf(self) -> bool {
        &&& self.table.anchors.len() == ARRAY_LEN
        &&& 0 <= self.table.parent < ARRAY_LEN
        &&& forall|j: int|
            0 <= j < self.stack.len() ==> 0 <= (#[trigger] self.stack[j]).index < ARRAY_LEN && 0
                <= self.stack[j].parent < ARRAY_LEN
        &&& linked(self.stack, self.table.parent)
    }

    /// The event can happen now: an entry names a slot of the table, an exit
    /// has a live timer to end, and the reading is one of a 64-bit counter.
    pub open spec fn admits(self, e: Event) -> bool {
        match e {
            Event::Enter { index, name, bytes, at } => {
                &&& 0 <= index < ARRAY_LEN
                &&& 0 <= bytes <= u64::MAX
                &&& 0 <= at <= u64::MAX
            },
            Event::Exit { at } => {
                &&& self.stack.len() > 0
                &&& 0 <= at <= u64::MAX
            },
        }
    }

    /// The program after the event.
    pub open spec fn step(self, e: Event) -> Run {
        match e {
            Event::Enter { index, name, bytes, at } => Run {
                table: self.table.enter(name, index),
                stack: self.stack.push(self.table.frame(index, bytes, at)),
            },
            Event::Exit { at } => Run {
                table: self.table.exit(self.stack.last(), at),
                stack: self.stack.drop_last(),
            },
        }
    }

    /// The program after all of `events`, in order.
    pub open spec fn after(self, events: Seq<Event>) -> Run
        decreases events.len(),
    {
        if events.len() == 0 {
            self
        } else {
            self.after(events.drop_last()).step(events.last())
        }
    }

    /// Each of `events` can happen in its turn.
    pub open spec fn admits_all(self, events: Seq<Event>) -> bool
        decreases events.len(),
    {
        events.len() == 0 || (self.admits_all(events.drop_last()) && self.after(
            events.drop_last(),
        ).admits(events.last()))
    }
}

/// An admitted event keeps the program well formed.
pub proof fn lemma_step_wf(run: Run, e: Event)
    requires
        run.wf(),
        run.admits(e),
    ensures
        run.step(e).wf(),
{
    let next = run.step(e);
    match e {
        Event::Enter { index, name, bytes, at } => {
            let f = run.table.frame(index, bytes, at);
            assert(next.stack.drop_last() =~= run.stack);
            assert(next.stack.last() == f);
            assert forall|j: int| 0 <= j < next.stack.len() implies 0 <= (
            #[trigger] next.stack[j]).index < ARRAY_LEN && 0 <= next.stack[j].parent
                < ARRAY_LEN by {
                if j < run.stack.len() {
                    assert(next.stack[j] == run.stack[j]);
                }
            }
        },
        Event::Exit { at } => {
            let f = run.stack.last();
            assert(0 <= f.parent < ARRAY_LEN);
            assert forall|j: int| 0 <= j < next.stack.len() implies 0 <= (
            #[trigger] next.stack[j]).index < ARRAY_LEN && 0 <= next.stack[j].parent
                < ARRAY_LEN by {
                assert(next.stack[j] == run.stack[j]);
            }
        },
    }
}

/// Admitted events keep the program well formed.
pub proof fn lemma_after_wf(run: Run, events: Seq<Event>)
    requires
        run.wf(),
        run.admits_all(events),
    ensures
        run.after(events).wf(),
    decreases events.len(),
{
    if events.len() > 0 {
        lemma_after_wf(run, events.drop_last());
        lemma_step_wf(run.after(events.drop_last()), events.last());
    }
}

/// One event's effect on the hit count of slot `i` and on the number of its
/// live frames.
proof fn lemma_step_hits(run: Run, e: Event, i: int)
    requires
        run.wf(),
        run.admits(e),
        0 <= i < ARRAY_LEN,
    ensures
        run.step(e).table.anchors[i].hits + depth_of(run.step(e).stack, i)
            == run.table.anchors[i].hits + depth_of(run.stack, i) + if e.enters(i) {
            1int
        } else {
            0int
        },
{
    let next = run.step(e);
    match e {
        Event::Enter { index, name, bytes, at } => {
            assert(next.stack.drop_last() =~= run.stack);
        },
        Event::Exit { at } => {},
    }
}

/// The hit count of a slot, together with the slot's live timers, grows by
/// the number of entries into the slot.
pub proof fn lemma_hits_after(run: Run, events: Seq<Event>, i: int)
    requires
        run.wf(),
        run.admits_all(events),
        0 <= i < ARRAY_LEN,
    ensures
        run.after(events).table.anchors[i].hits + depth_of(run.after(events).stack, i)
            == run.table.anchors[i].hits + depth_of(run.stack, i) + entries_of(events, i),
    decreases events.len(),
{
    if events.len() > 0 {
        lemma_hits_after(run, events.drop_last(), i);
        lemma_after_wf(run, events.drop_last());
        lemma_step_hits(run.after(events.drop_last()), events.last(), i);
    }
}

/// Events never lower a hit count.
pub proof fn law_hit_count_never_decreases(run: Run, events: Seq<Event>, i: int)
    requires
        run.wf(),
        run.admits_all(events),
        0 <= i < ARRAY_LEN,
    ensures
        run.after(events).table.anchors[i].hits >= run.table.anchors[i].hits,
    decreases events.len(),
{
    if events.len() > 0 {
        law_hit_count_never_decreases(run, events.drop_last(), i);
        lemma_after_wf(run, events.drop_last());
    }
}

/// At every moment of every execution, a slot's hit count is the number of
/// entries into the slot so far less the entries that are still live. Once
/// every timer of the slot has ended, the hit count is the number of times
/// the scope was entered.
pub proof fn law_hit_count_counts_entries(events: Seq<Event>, i: int)
    requires
        Run::initial().admits_all(events),
        0 <= i < ARRAY_LEN,
    ensures
        Run::initial().after(events).table.anchors[i].hits + depth_of(
            Run::initial().after(events).stack,
            i,
        ) == entries_of(events, i),
        depth_of(Run::initial().after(events).stack, i) == 0 ==> Run::initial().after(
            events,
        ).table.anchors[i].hits == entries_of(events, i),
{
    lemma_hits_after(Run::initial(), events, i);
}

/// There are no more entries into a slot than events.
pub proof fn lemma_entries_bound(events: Seq<Event>, i: int)
    ensures
        entries_of(events, i) <= events.len(),
    decreases events.len(),
{
    if events.len() > 0 {
        lemma_entries_bound(events.drop_last(), i);
    }
}

/// The bytes that the entries into slot `i` among `events` reported.
pub open spec fn bytes_entered(events: Seq<Event>, i: int) -> int
    decreases events.len(),
{
    if events.len() == 0 {
        0
    } else {
        bytes_entered(events.drop_last(), i) + match events.last() {
            Event::Enter { index, bytes, .. } => if index == i {
                bytes
            } else {
                0
            },
            Event::Exit { .. } => 0,
        }
    }
}

/// The bytes that the live frames of slot `i` will report.
pub open spec fn bytes_live(stack: Seq<Frame>, i: int) -> int
    decreases stack.len(),
{
    if stack.len() == 0 {
        0
    } else {
        bytes_live(stack.drop_last(), i) + if stack.last().index == i {
            stack.last().bytes
        } else {
            0
        }
    }
}

/// No live frame reports a negative number of bytes.
pub open spec fn reports_bytes(stack: Seq<Frame>) -> bool {
    forall|j: int| 0 <= j < stack.len() ==> (#[trigger] stack[j]).bytes >= 0
}

proof fn lemma_bytes_live_bounds(stack: Seq<Frame>, i: int)
    requires
        reports_bytes(stack),
    ensures
        bytes_live(stack, i) >= 0,
        stack.len() > 0 && stack.last().index == i ==> bytes_live(stack, i) >= stack.last().bytes,
    decreases stack.len(),
{
    if stack.len() > 0 {
        let below = stack.drop_last();
        assert forall|j: int| 0 <= j < below.len() implies (#[trigger] below[j]).bytes >= 0 by {
            assert(below[j] == stack[j]);
        }
        lemma_bytes_live_bounds(below, i);
    }
}

proof fn lemma_step_bytes(run: Run, e: Event, i: int)
    requires
        run.wf(),
        run.admits(e),
        reports_bytes(run.stack),
        0 <= i < ARRAY_LEN,
    ensures
        reports_bytes(run.step(e).stack),
        run.step(e).table.anchors[i].bytes + bytes_live(run.step(e).stack, i)
            == run.table.anchors[i].bytes + bytes_live(run.stack, i) + match e {
            Event::Enter { index, bytes, .. } => if index == i {
                bytes
            } else {
                0
            },
            Event::Exit { .. } => 0,
        },
{
    let next = run.step(e);
    match e {
        Event::Enter { index, name, bytes, at } => {
            assert(next.stack.drop_last() =~= run.stack);
            assert(next.stack.last() == run.table.frame(index, bytes, at));
            assert forall|j: int| 0 <= j < next.stack.len() implies (
            #[trigger] next.stack[j]).bytes >= 0 by {
                if j < run.stack.len() {
                    assert(next.stack[j] == run.stack[j]);
                }
            }
        },
        Event::Exit { at } => {
            assert forall|j: int| 0 <= j < next.stack.len() implies (
            #[trigger] next.stack[j]).bytes >= 0 by {
                assert(next.stack[j] == run.stack[j]);
            }
        },
    }
}

/// The byte count of a slot, together with what the slot's live timers
/// will report, is what the entries into the slot reported.
pub proof fn lemma_bytes_after(events: Seq<Event>, i: int)
    requires
        Run::initial().admits_all(events),
        0 <= i < ARRAY_LEN,
    ensures
        reports_bytes(Run::initial().after(events).stack),
        Run::initial().after(events).table.anchors[i].bytes + bytes_live(
            Run::initial().after(events).stack,
            i,
        ) == bytes_entered(events, i),
    decreases events.len(),
{
    if events.len() > 0 {
        lemma_bytes_after(events.drop_last(), i);
        lemma_after_wf(Run::initial(), events.drop_last());
        lemma_step_bytes(Run::initial().after(events.drop_last()), events.last(), i);
    }
}

/// Once every timer of a slot has ended, the slot's byte count is the sum of
/// what the entries into the slot reported.
pub proof fn law_byte_count_sums_entries(events: Seq<Event>, i: int)
    requires
        Run::initial().admits_all(events),
        0 <= i < ARRAY_LEN,
        depth_of(Run::initial().after(events).stack, i) == 0,
    ensures
        Run::initial().after(events).table.anchors[i].bytes == bytes_entered(events, i),
{
    lemma_bytes_after(events, i);
    lemma_idle_reports_nothing(Run::initial().after(events).stack, i);
}

proof fn lemma_idle_reports_nothing(stack: Seq<Frame>, i: int)
    requires
        depth_of(stack, i) == 0,
    ensures
        bytes_live(stack, i) == 0,
    decreases stack.len(),
{
    if stack.len() > 0 {
        lemma_idle_reports_nothing(stack.drop_last(), i);
    }
}

/// In every execution from the start, at the exit of a scope the slot's
/// hit count and byte count have room for it, as long as there were fewer
/// events than a word can count and the slot's entries reported no more
/// bytes than a word can hold.
pub proof fn lemma_exit_counts_fit(events: Seq<Event>, at: int)
    requires
        Run::initial().admits_all(events.push(Event::Exit { at })),
        events.len() <= u64::MAX,
        bytes_entered(events, Run::initial().after(events).stack.last().index) <= u64::MAX,
    ensures
        ({
            let run = Run::initial().after(events);
            let f = run.stack.last();
            &&& run.table.anchors[f.index].hits + 1 <= u64::MAX
            &&& run.table.anchors[f.index].bytes + f.bytes <= u64::MAX
        }),
{
    let all = events.push(Event::Exit { at });
    assert(all.drop_last() =~= events);
    assert(all.last() == Event::Exit { at });
    let run = Run::initial().after(events);
    let f = run.stack.last();
    lemma_after_wf(Run::initial(), events);
    assert(0 <= run.stack[run.stack.len() - 1].index < ARRAY_LEN);
    lemma_hits_after(Run::initial(), events, f.index);
    lemma_entries_bound(events, f.index);
    assert(depth_of(run.stack, f.index) >= 1);
    lemma_bytes_after(events, f.index);
    lemma_bytes_live_bounds(run.stack, f.index);
}

/// The reading of the last event, or zero before the first.
pub open spec fn clock(events: Seq<Event>) -> int {
    if events.len() == 0 {
        0
    } else {
        events.last().at()
    }
}

/// The reading of the first event, or zero where there is none.
pub open spec fn first_reading(events: Seq<Event>) -> int {
    if events.len() == 0 {
        0
    } else {
        events[0].at()
    }
}

/// The cycles from the first event to the last.
pub open spec fn span_of(events: Seq<Event>) -> int {
    clock(events) - first_reading(events)
}

/// The program after one sequence of events and then another.
pub proof fn lemma_after_concat(run: Run, first: Seq<Event>, then: Seq<Event>)
    ensures
        run.after(first + then) == run.after(first).after(then),
    decreases then.len(),
{
    if then.len() == 0 {
        assert(first + then =~= first);
    } else {
        lemma_after_concat(run, first, then.drop_last());
        assert((first + then).drop_last() =~= first + then.drop_last());
        assert((first + then).last() == then.last());
    }
}

} // verus!
