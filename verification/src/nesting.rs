//! Scopes as wholes: what one entry, everything nested in it, and its exit
//! leave behind.

use vstd::prelude::*;
use crate::hash::ARRAY_LEN;
use crate::profiler::{elapsed_between, wrap64, Frame, Table};
use crate::trace::{
    entries_of,
    lemma_after_concat,
    lemma_after_wf,
    lemma_hits_after,
    lemma_step_wf,
    Event,
    Run,
};

verus! {

/// `body` is well nested above `run`: each of its events can happen in its
/// turn, no exit ends a timer that was live before the body began, and at its
/// end every timer that it started has ended.
pub open spec fn well_nested(run: Run, body: Seq<Event>) -> bool {
    &&& run.admits_all(body)
    &&& forall|k: int|
        0 <= k <= body.len() ==> (#[trigger] run.after(body.take(k))).stack.len()
            >= run.stack.len()
    &&& run.after(body).stack.len() == run.stack.len()
}

proof fn lemma_nested_keeps_frames(run: Run, body: Seq<Event>, k: int)
    requires
        well_nested(run, body),
        0 <= k <= body.len(),
    ensures
        run.after(body.take(k)).stack.take(run.stack.len() as int) =~= run.stack,
    decreases k,
{
    if k == 0 {
        assert(body.take(0).len() == 0);
    } else {
        lemma_nested_keeps_frames(run, body, k - 1);
        assert(body.take(k).drop_last() =~= body.take(k - 1));
        assert(body.take(k).last() == body[k - 1]);
        assert(run.after(body.take(k)).stack.len() >= run.stack.len());
        assert(run.after(body.take(k - 1)).stack.len() >= run.stack.len());
    }
}

/// A well-nested body leaves the live timers as it found them.
pub proof fn lemma_nested_restores_stack(run: Run, body: Seq<Event>)
    requires
        run.wf(),
        well_nested(run, body),
    ensures
        run.after(body).stack == run.stack,
        run.after(body).table.parent == run.table.parent,
        run.after(body).wf(),
{
    lemma_nested_keeps_frames(run, body, body.len() as int);
    assert(body.take(body.len() as int) =~= body);
    assert(run.after(body).stack =~= run.stack);
    lemma_after_wf(run, body);
}

/// From a scope's entry to its exit, whatever well-nested activity lies
/// between, further entries of the same scope included: the live timers and
/// the current parent are restored, the slot's inclusive count ends at its
/// value at entry plus the span of this one entry, and the slot's hit count
/// grows by one for this entry and by one for each entry of the slot within.
pub proof fn law_scope_span(
    run: Run,
    index: int,
    name: Seq<u8>,
    bytes: int,
    start: int,
    body: Seq<Event>,
    end: int,
)
    requires
        run.wf(),
        run.admits(Event::Enter { index, name, bytes, at: start }),
        well_nested(run.step(Event::Enter { index, name, bytes, at: start }), body),
        0 <= end <= u64::MAX,
    ensures
        ({
            let done = run.step(Event::Enter { index, name, bytes, at: start }).after(body).step(
                Event::Exit { at: end },
            );
            &&& done.stack == run.stack
            &&& done.table.parent == run.table.parent
            &&& done.table.anchors[index].inclusive == run.table.anchors[index].inclusive
                + elapsed_between(start, end)
            &&& done.table.anchors[index].hits == run.table.anchors[index].hits + 1 + entries_of(
                body,
                index,
            )
        }),
{
    let enter = Event::Enter { index, name, bytes, at: start };
    let entered = run.step(enter);
    let inner = entered.after(body);
    lemma_step_wf(run, enter);
    lemma_nested_restores_stack(entered, body);
    lemma_hits_after(entered, body, index);
    assert(entered.stack.drop_last() =~= run.stack);
    assert(entered.stack.last() == run.table.frame(index, bytes, start));
}

/// Entries into slot `index`, one inside the other, at the readings `starts`.
pub open spec fn entries(index: int, name: Seq<u8>, bytes: int, starts: Seq<int>) -> Seq<Event> {
    Seq::new(starts.len(), |k: int| Event::Enter { index, name, bytes, at: starts[k] })
}

/// Exits at the readings `ends`.
pub open spec fn exits(ends: Seq<int>) -> Seq<Event> {
    Seq::new(ends.len(), |k: int| Event::Exit { at: ends[k] })
}

/// A scope that enters itself: as many entries into slot `index` as `starts`
/// has readings, one inside the other, and then their exits at the readings
/// `ends`, the innermost first.
pub open spec fn recursion(
    index: int,
    name: Seq<u8>,
    bytes: int,
    starts: Seq<int>,
    ends: Seq<int>,
) -> Seq<Event> {
    entries(index, name, bytes, starts) + exits(ends)
}

/// The frames that the entries of a recursion leave above those of `run`.
spec fn recursion_frames(run: Run, index: int, bytes: int, starts: Seq<int>, k: int) -> Seq<Frame> {
    Seq::new(
        k as nat,
        |j: int|
            Frame {
                start: starts[j],
                index,
                parent: if j == 0 {
                    run.table.parent
                } else {
                    index
                },
                saved_inclusive: run.table.anchors[index].inclusive,
                bytes,
            },
    )
}

proof fn lemma_recursion_entered(
    run: Run,
    index: int,
    name: Seq<u8>,
    bytes: int,
    starts: Seq<int>,
    k: int,
)
    requires
        run.table.anchors.len() == ARRAY_LEN,
        0 <= index < ARRAY_LEN,
        0 <= k <= starts.len(),
    ensures
        ({
            let entered = run.after(entries(index, name, bytes, starts).take(k));
            &&& entered.stack =~= run.stack + recursion_frames(run, index, bytes, starts, k)
            &&& entered.table.anchors.len() == ARRAY_LEN
            &&& entered.table.anchors[index].inclusive == run.table.anchors[index].inclusive
            &&& entered.table.anchors[index].hits == run.table.anchors[index].hits
            &&& entered.table.anchors[index].exclusive == run.table.anchors[index].exclusive
            &&& entered.table.parent == if k == 0 {
                run.table.parent
            } else {
                index
            }
        }),
    decreases k,
{
    let all = entries(index, name, bytes, starts);
    if k > 0 {
        lemma_recursion_entered(run, index, name, bytes, starts, k - 1);
        assert(all.take(k).drop_last() =~= all.take(k - 1));
        assert(all.take(k).last() == all[k - 1]);
    }
}

proof fn lemma_recursion_left(
    run: Run,
    entered: Run,
    index: int,
    bytes: int,
    starts: Seq<int>,
    ends: Seq<int>,
    m: int,
)
    requires
        0 <= run.table.parent < ARRAY_LEN,
        0 <= index < ARRAY_LEN,
        starts.len() == ends.len(),
        0 <= m <= ends.len(),
        entered.stack =~= run.stack + recursion_frames(
            run,
            index,
            bytes,
            starts,
            starts.len() as int,
        ),
        entered.table.anchors.len() == ARRAY_LEN,
    ensures
        ({
            let left = entered.after(exits(ends).take(m));
            &&& left.stack =~= run.stack + recursion_frames(
                run,
                index,
                bytes,
                starts,
                starts.len() - m,
            )
            &&& left.table.anchors.len() == ARRAY_LEN
            &&& left.table.anchors[index].hits == entered.table.anchors[index].hits + m
            &&& m > 0 ==> left.table.anchors[index].inclusive
                == run.table.anchors[index].inclusive + elapsed_between(
                starts[starts.len() - m],
                ends[m - 1],
            )
            &&& m > 0 && m == ends.len() ==> left.table.parent == run.table.parent
            &&& 0 <= entered.table.anchors[index].exclusive <= u64::MAX ==> left.table.anchors[index].exclusive
                == if m == ends.len() && m > 0 && run.table.parent != index {
                wrap64(
                    entered.table.anchors[index].exclusive + elapsed_between(
                        starts[0],
                        ends[m - 1],
                    ),
                )
            } else {
                entered.table.anchors[index].exclusive
            }
        }),
    decreases m,
{
    let all = exits(ends);
    if m == 0 {
        assert(all.take(0).len() == 0);
    } else {
        lemma_recursion_left(run, entered, index, bytes, starts, ends, m - 1);
        assert(all.take(m).drop_last() =~= all.take(m - 1));
        assert(all.take(m).last() == all[m - 1]);
        let before = entered.after(all.take(m - 1));
        let frames = recursion_frames(run, index, bytes, starts, starts.len() - (m - 1));
        let f = frames[starts.len() - m];
        assert(before.stack.last() == f);
        assert(before.stack.drop_last() =~= run.stack + recursion_frames(
            run,
            index,
            bytes,
            starts,
            starts.len() - m,
        ));
        if 0 <= entered.table.anchors[index].exclusive <= u64::MAX {
            let cycles = elapsed_between(f.start, ends[m - 1]);
            let charged = before.table.charge_parent(f.parent, cycles);
            assert(before.table.anchors[index].exclusive
                == entered.table.anchors[index].exclusive);
            assert(charged.anchors[index].exclusive == if f.parent == index {
                wrap64(before.table.anchors[index].exclusive - cycles)
            } else {
                before.table.anchors[index].exclusive
            });
        }
    }
}

/// A scope that enters itself any number of times, with nothing else in
/// between, is counted once for each entry, and its inclusive count grows by
/// the span of the outermost entry alone: from the first entry's reading to
/// the last exit's. So does its exclusive count, in a word, where the scope
/// was not entered from its own slot: the inner entries charge the slot
/// what they credit it. The live timers and the current parent are as
/// before.
pub proof fn law_recursion(
    run: Run,
    index: int,
    name: Seq<u8>,
    bytes: int,
    starts: Seq<int>,
    ends: Seq<int>,
)
    requires
        run.wf(),
        0 <= index < ARRAY_LEN,
        starts.len() == ends.len(),
        starts.len() > 0,
    ensures
        ({
            let done = run.after(recursion(index, name, bytes, starts, ends));
            &&& done.stack == run.stack
            &&& done.table.parent == run.table.parent
            &&& done.table.anchors[index].hits == run.table.anchors[index].hits + starts.len()
            &&& done.table.anchors[index].inclusive == run.table.anchors[index].inclusive
                + elapsed_between(starts[0], ends.last())
            &&& 0 <= run.table.anchors[index].exclusive <= u64::MAX && run.table.parent != index
                ==> done.table.anchors[index].exclusive == wrap64(
                run.table.anchors[index].exclusive + elapsed_between(starts[0], ends.last()),
            )
        }),
{
    let enter = entries(index, name, bytes, starts);
    let leave = exits(ends);
    let n = starts.len() as int;
    lemma_after_concat(run, enter, leave);
    lemma_recursion_entered(run, index, name, bytes, starts, n);
    assert(enter.take(n) =~= enter);
    let entered = run.after(enter);
    lemma_recursion_left(run, entered, index, bytes, starts, ends, n);
    assert(leave.take(n) =~= leave);
    let done = entered.after(leave);
    assert(done.stack =~= run.stack);
}

/// From a slot whose counts are all zero, a scope that enters itself any
/// number of times from another slot, with a counter that does not run
/// backwards over its outermost span, ends with as many hits as entries and
/// with both its inclusive and its exclusive count at that span.
pub proof fn law_recursion_from_zero(
    run: Run,
    index: int,
    name: Seq<u8>,
    bytes: int,
    starts: Seq<int>,
    ends: Seq<int>,
)
    requires
        run.wf(),
        0 <= index < ARRAY_LEN,
        run.table.parent != index,
        starts.len() == ends.len(),
        starts.len() > 0,
        run.table.anchors[index].hits == 0,
        run.table.anchors[index].inclusive == 0,
        run.table.anchors[index].exclusive == 0,
        0 <= starts[0] <= ends.last() <= u64::MAX,
    ensures
        ({
            let done = run.after(recursion(index, name, bytes, starts, ends));
            &&& done.table.anchors[index].hits == starts.len()
            &&& done.table.anchors[index].inclusive == ends.last() - starts[0]
            &&& done.table.anchors[index].exclusive == ends.last() - starts[0]
        }),
{
    law_recursion(run, index, name, bytes, starts, ends);
    assert(elapsed_between(starts[0], ends.last()) == ends.last() - starts[0]);
}

/// An exit raises the hit count of the scope's own slot by one and leaves
/// every other hit count as it was.
pub proof fn law_exit_counts_one_hit(table: Table, f: Frame, end: int, i: int)
    requires
        table.anchors.len() == ARRAY_LEN,
        0 <= f.index < ARRAY_LEN,
        0 <= f.parent < ARRAY_LEN,
        0 <= i < ARRAY_LEN,
    ensures
        table.exit(f, end).anchors[i].hits == if i == f.index {
            table.anchors[i].hits + 1
        } else {
            table.anchors[i].hits
        },
{
}

/// A scope that is entered and left with nothing in between, in a slot
/// other than its parent's whose two counts agreed before, leaves them in
/// agreement: both grew by the elapsed cycles.
pub proof fn law_leaf_scope(table: Table, index: int, name: Seq<u8>, bytes: int, start: int, end: int)
    requires
        table.anchors.len() == ARRAY_LEN,
        0 <= table.parent < ARRAY_LEN,
        0 <= index < ARRAY_LEN,
        index != table.parent,
        0 <= table.anchors[index].exclusive,
        table.anchors[index].exclusive == table.anchors[index].inclusive,
        table.anchors[index].inclusive + elapsed_between(start, end) <= u64::MAX,
    ensures
        ({
            let done = table.enter(name, index).exit(table.frame(index, bytes, start), end);
            &&& done.anchors[index].inclusive == table.anchors[index].inclusive
                + elapsed_between(start, end)
            &&& done.anchors[index].exclusive == done.anchors[index].inclusive
        }),
{
}

/// The exit of a scope whose parent is the root takes the elapsed cycles
/// from the root's exclusive count and adds them to the scope's own.
pub proof fn law_root_child(table: Table, f: Frame, end: int)
    requires
        table.anchors.len() == ARRAY_LEN,
        f.parent == 0,
        0 < f.index < ARRAY_LEN,
    ensures
        table.exit(f, end).anchors[0].exclusive == wrap64(
            table.anchors[0].exclusive - elapsed_between(f.start, end),
        ),
        table.exit(f, end).anchors[f.index].exclusive == wrap64(
            table.anchors[f.index].exclusive + elapsed_between(f.start, end),
        ),
{
}

} // verus!
