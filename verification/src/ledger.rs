//! The accounts behind the counts: why, in every execution, a slot's
//! inclusive count covers its exclusive count, and why the exclusive counts
//! of the whole table balance.

use vstd::prelude::*;
use crate::anchor::Anchor;
use crate::hash::ARRAY_LEN;
use crate::profiler::{elapsed_between, wrap64, Frame, Table};
use crate::trace::{
    bytes_entered,
    clock,
    depth_of,
    entries_of,
    first_reading,
    in_time_order,
    lemma_after_wf,
    lemma_exit_counts_fit,
    lemma_step_wf,
    linked,
    span_of,
    Event,
    Run,
};

verus! {

/// What slot `i`'s exclusive count would gain if every live timer ended with
/// the counter at `now`: the time since entry of each frame of the slot, less
/// the time since entry of each frame whose parent is the slot.
pub open spec fn pending(stack: Seq<Frame>, i: int, now: int) -> int
    decreases stack.len(),
{
    if stack.len() == 0 {
        0
    } else {
        let f = stack.last();
        pending(stack.drop_last(), i, now) + (if f.index == i {
            now - f.start
        } else {
            0
        }) - (if f.parent == i {
            now - f.start
        } else {
            0
        })
    }
}

/// The outermost live frame of slot `i`.
pub open spec fn outermost(stack: Seq<Frame>, i: int) -> Option<Frame>
    decreases stack.len(),
{
    if stack.len() == 0 {
        None
    } else {
        match outermost(stack.drop_last(), i) {
            Some(f) => Some(f),
            None => if stack.last().index == i {
                Some(stack.last())
            } else {
                None
            },
        }
    }
}

/// What slot `i`'s inclusive count would be if every live timer ended with
/// the counter at `now`.
pub open spec fn inclusive_at(run: Run, i: int, now: int) -> int {
    match outermost(run.stack, i) {
        Some(f) => f.saved_inclusive + (now - f.start),
        None => run.table.anchors[i].inclusive,
    }
}

/// A slot has a live frame exactly when it has an outermost one.
pub proof fn lemma_outermost_live(stack: Seq<Frame>, i: int)
    ensures
        outermost(stack, i).is_some() <==> depth_of(stack, i) > 0,
    decreases stack.len(),
{
    if stack.len() > 0 {
        lemma_outermost_live(stack.drop_last(), i);
    }
}

/// A slot without a live frame is the slot of no frame.
pub proof fn lemma_no_frame_of(stack: Seq<Frame>, i: int, j: int)
    requires
        depth_of(stack, i) == 0,
        0 <= j < stack.len(),
    ensures
        stack[j].index != i,
    decreases stack.len(),
{
    if j < stack.len() - 1 {
        lemma_no_frame_of(stack.drop_last(), i, j);
    }
}

/// In a chain the outermost frame's parent is the root, and every other
/// frame's parent is the slot of the frame below it.
pub proof fn lemma_chain(stack: Seq<Frame>, current: int, j: int)
    requires
        linked(stack, current),
        0 <= j < stack.len(),
    ensures
        j == 0 ==> stack[j].parent == 0,
        j > 0 ==> stack[j].parent == stack[j - 1].index,
    decreases stack.len(),
{
    reveal_with_fuel(linked, 2);
    if j < stack.len() - 1 {
        lemma_chain(stack.drop_last(), stack.last().parent, j);
    } else if j > 0 {
        assert(stack.drop_last().last() == stack[j - 1]);
    }
}

/// Between two events only the deepest live scope gains pending time.
proof fn lemma_pending_advance(stack: Seq<Frame>, current: int, i: int, t0: int, t1: int)
    requires
        linked(stack, current),
        i != 0,
    ensures
        pending(stack, i, t1) == pending(stack, i, t0) + if stack.len() > 0 && current == i {
            t1 - t0
        } else {
            0
        },
    decreases stack.len(),
{
    reveal_with_fuel(linked, 2);
    if stack.len() > 0 {
        lemma_pending_advance(stack.drop_last(), stack.last().parent, i, t0, t1);
    }
}

/// A slot without a live frame, other than the root's, has nothing pending.
proof fn lemma_idle_slot(stack: Seq<Frame>, current: int, i: int, now: int)
    requires
        linked(stack, current),
        i != 0,
        depth_of(stack, i) == 0,
    ensures
        pending(stack, i, now) == 0,
        current != i,
    decreases stack.len(),
{
    reveal_with_fuel(linked, 2);
    if stack.len() > 0 {
        lemma_idle_slot(stack.drop_last(), stack.last().parent, i, now);
    }
}

/// The account that explains slot `i`: `ideal[i]` is the slot's exclusive
/// count before wrapping; with what is pending it is never negative and never
/// above the inclusive count, which in turn is bounded by the cycles that
/// passed since the first event.
spec fn slot_ledger(run: Run, ideal: Seq<int>, since: int, now: int, i: int) -> bool {
    &&& run.table.anchors[i].exclusive == wrap64(ideal[i])
    &&& i != 0 ==> 0 <= ideal[i] + pending(run.stack, i, now) <= inclusive_at(run, i, now)
    &&& inclusive_at(run, i, now) <= now - since
}

spec fn ledger(run: Run, ideal: Seq<int>, since: int, now: int) -> bool {
    &&& run.wf()
    &&& ideal.len() == ARRAY_LEN
    &&& 0 <= since <= now <= u64::MAX
    &&& forall|j: int|
        0 <= j < run.stack.len() ==> since <= (#[trigger] run.stack[j]).start <= now
    &&& forall|i: int| 0 <= i < ARRAY_LEN ==> #[trigger] slot_ledger(run, ideal, since, now, i)
}

/// The unwrapped exclusive counts after an event.
spec fn ideal_step(run: Run, ideal: Seq<int>, e: Event) -> Seq<int> {
    match e {
        Event::Enter { .. } => ideal,
        Event::Exit { at } => {
            let f = run.stack.last();
            let cycles = at - f.start;
            let charged = ideal.update(f.parent, ideal[f.parent] - cycles);
            charged.update(f.index, charged[f.index] + cycles)
        },
    }
}

/// What the deepest frame contributes to what is pending and to which frame
/// is outermost.
proof fn lemma_top_frame(stack: Seq<Frame>, i: int, now: int)
    requires
        stack.len() > 0,
    ensures
        pending(stack, i, now) == pending(stack.drop_last(), i, now) + (if stack.last().index
            == i {
            now - stack.last().start
        } else {
            0
        }) - (if stack.last().parent == i {
            now - stack.last().start
        } else {
            0
        }),
        outermost(stack, i) == match outermost(stack.drop_last(), i) {
            Some(g) => Some(g),
            None => if stack.last().index == i {
                Some(stack.last())
            } else {
                None
            },
        },
{
}

proof fn lemma_slot_enter(
    run: Run,
    ideal: Seq<int>,
    since: int,
    now: int,
    index: int,
    name: Seq<u8>,
    bytes: int,
    at: int,
    i: int,
)
    requires
        run.wf(),
        slot_ledger(run, ideal, since, now, i),
        0 <= index < ARRAY_LEN,
        0 <= i < ARRAY_LEN,
        now <= at,
    ensures
        slot_ledger(run.step(Event::Enter { index, name, bytes, at }), ideal, since, at, i),
{
    let next = run.step(Event::Enter { index, name, bytes, at });
    let f = run.table.frame(index, bytes, at);
    if i != 0 {
        lemma_pending_advance(run.stack, run.table.parent, i, now, at);
    }
    assert(next.stack.drop_last() =~= run.stack);
    assert(next.stack.last() == f);
    lemma_top_frame(next.stack, i, at);
    assert(next.table.anchors[i].exclusive == run.table.anchors[i].exclusive);
    assert(next.table.anchors[i].inclusive == run.table.anchors[i].inclusive);
}

/// What an exit does to slot `i`: its exclusive count moves by the elapsed
/// cycles, up if the slot is the scope's own and down if it is the parent's,
/// and its inclusive count is replaced if the slot is the scope's own.
proof fn lemma_exit_effect(table: Table, f: Frame, end: int, i: int)
    requires
        table.anchors.len() == ARRAY_LEN,
        0 <= f.index < ARRAY_LEN,
        0 <= f.parent < ARRAY_LEN,
        0 <= i < ARRAY_LEN,
        0 <= table.anchors[i].exclusive <= u64::MAX,
    ensures
        table.exit(f, end).anchors[i].exclusive == wrap64(
            table.anchors[i].exclusive + (if f.index == i {
                elapsed_between(f.start, end)
            } else {
                0
            }) - (if f.parent == i {
                elapsed_between(f.start, end)
            } else {
                0
            }),
        ),
        table.exit(f, end).anchors[i].inclusive == if f.index == i {
            f.saved_inclusive + elapsed_between(f.start, end)
        } else {
            table.anchors[i].inclusive
        },
{
    let cycles = elapsed_between(f.start, end);
    let charged = table.charge_parent(f.parent, cycles);
    assert(charged.anchors[i].exclusive == if f.parent == i {
        wrap64(table.anchors[i].exclusive - cycles)
    } else {
        table.anchors[i].exclusive
    });
}

#[verifier::rlimit(50)]
proof fn lemma_slot_exit(run: Run, ideal: Seq<int>, since: int, now: int, at: int, i: int)
    requires
        run.wf(),
        run.stack.len() > 0,
        ideal.len() == ARRAY_LEN,
        slot_ledger(run, ideal, since, now, i),
        0 <= since <= run.stack.last().start <= now <= at <= u64::MAX,
        0 <= i < ARRAY_LEN,
    ensures
        slot_ledger(
            run.step(Event::Exit { at }),
            ideal_step(run, ideal, Event::Exit { at }),
            since,
            at,
            i,
        ),
{
    let next = run.step(Event::Exit { at });
    let after = ideal_step(run, ideal, Event::Exit { at });
    let f = run.stack.last();
    let cycles = at - f.start;
    let gain = if f.index == i {
        cycles
    } else {
        0
    };
    let loss = if f.parent == i {
        cycles
    } else {
        0
    };
    if i != 0 {
        lemma_pending_advance(run.stack, run.table.parent, i, now, at);
    }
    assert(elapsed_between(f.start, at) == cycles);
    lemma_exit_effect(run.table, f, at, i);
    lemma_top_frame(run.stack, i, at);
    assert(after[i] == ideal[i] + gain - loss);
    assert(next.table.anchors[i].exclusive == wrap64(after[i]));
}

proof fn lemma_slot_step(run: Run, ideal: Seq<int>, since: int, now: int, e: Event, i: int)
    requires
        ledger(run, ideal, since, now),
        run.admits(e),
        now <= e.at(),
        0 <= i < ARRAY_LEN,
    ensures
        slot_ledger(run.step(e), ideal_step(run, ideal, e), since, e.at(), i),
{
    assert(slot_ledger(run, ideal, since, now, i));
    match e {
        Event::Enter { index, name, bytes, at } => {
            lemma_slot_enter(run, ideal, since, now, index, name, bytes, at, i);
        },
        Event::Exit { at } => {
            assert(since <= run.stack[run.stack.len() - 1].start <= now);
            lemma_slot_exit(run, ideal, since, now, at, i);
        },
    }
}

proof fn lemma_ledger_step(run: Run, ideal: Seq<int>, since: int, now: int, e: Event)
    requires
        ledger(run, ideal, since, now),
        run.admits(e),
        now <= e.at(),
    ensures
        ledger(run.step(e), ideal_step(run, ideal, e), since, e.at()),
{
    let next = run.step(e);
    lemma_step_wf(run, e);
    assert forall|i: int| 0 <= i < ARRAY_LEN implies #[trigger] slot_ledger(
        next,
        ideal_step(run, ideal, e),
        since,
        e.at(),
        i,
    ) by {
        lemma_slot_step(run, ideal, since, now, e, i);
    }
    assert forall|j: int| 0 <= j < next.stack.len() implies since <= (
    #[trigger] next.stack[j]).start <= e.at() by {
        if j < run.stack.len() {
            assert(next.stack[j] == run.stack[j]);
        }
    }
}

/// The unwrapped exclusive counts after `events` from the start.
spec fn ideal_after(events: Seq<Event>) -> Seq<int>
    decreases events.len(),
{
    if events.len() == 0 {
        Seq::new(ARRAY_LEN as nat, |i: int| 0int)
    } else {
        ideal_step(
            Run::initial().after(events.drop_last()),
            ideal_after(events.drop_last()),
            events.last(),
        )
    }
}

proof fn lemma_ledger_start(t: int)
    requires
        0 <= t <= u64::MAX,
    ensures
        ledger(Run::initial(), ideal_after(Seq::empty()), t, t),
{
    assert forall|i: int| 0 <= i < ARRAY_LEN implies #[trigger] slot_ledger(
        Run::initial(),
        ideal_after(Seq::empty()),
        t,
        t,
        i,
    ) by {}
}

proof fn lemma_ledger(events: Seq<Event>)
    requires
        Run::initial().admits_all(events),
        in_time_order(events),
    ensures
        ledger(
            Run::initial().after(events),
            ideal_after(events),
            first_reading(events),
            clock(events),
        ),
    decreases events.len(),
{
    if events.len() == 0 {
        lemma_ledger_start(0);
        assert(events =~= Seq::empty());
    } else {
        let before = events.drop_last();
        if before.len() == 0 {
            lemma_ledger_start(events[0].at());
            assert(before =~= Seq::empty());
        } else {
            lemma_ledger(before);
            assert(before.last() == events[events.len() - 2]);
            assert(before[0] == events[0]);
        }
        lemma_ledger_step(
            Run::initial().after(before),
            ideal_after(before),
            first_reading(events),
            if before.len() == 0 {
                events[0].at()
            } else {
                clock(before)
            },
            events.last(),
        );
    }
}

/// In every execution from the start whose counter never runs backwards,
/// whenever no timer of a slot is live the slot's inclusive count is at least
/// its exclusive count, and at most the cycles from the first event to the
/// last. The root's slot is left out: the protocol charges it for scopes that
/// it never timed.
pub proof fn law_inclusive_covers_exclusive(events: Seq<Event>, i: int)
    requires
        Run::initial().admits_all(events),
        in_time_order(events),
        0 < i < ARRAY_LEN,
        depth_of(Run::initial().after(events).stack, i) == 0,
    ensures
        Run::initial().after(events).table.anchors[i].inclusive >= Run::initial().after(
            events,
        ).table.anchors[i].exclusive,
        Run::initial().after(events).table.anchors[i].inclusive <= span_of(events),
{
    let run = Run::initial().after(events);
    lemma_ledger(events);
    assert(slot_ledger(run, ideal_after(events), first_reading(events), clock(events), i));
    lemma_idle_slot(run.stack, run.table.parent, i, clock(events));
    lemma_outermost_live(run.stack, i);
}

/// The inclusive counts stay within the cycles that passed: every stored
/// count, and every count that a live frame saved at its entry.
spec fn within(run: Run, since: int, now: int) -> bool {
    &&& run.wf()
    &&& 0 <= since <= now <= u64::MAX
    &&& forall|i: int|
        0 <= i < ARRAY_LEN ==> 0 <= (#[trigger] run.table.anchors[i]).inclusive <= now - since
    &&& forall|j: int|
        0 <= j < run.stack.len() ==> since <= (#[trigger] run.stack[j]).start <= now && 0
            <= run.stack[j].saved_inclusive <= run.stack[j].start - since
}

proof fn lemma_within_step(run: Run, since: int, now: int, e: Event)
    requires
        within(run, since, now),
        run.admits(e),
        now <= e.at(),
    ensures
        within(run.step(e), since, e.at()),
{
    let next = run.step(e);
    lemma_step_wf(run, e);
    match e {
        Event::Enter { index, name, bytes, at } => {
            let f = run.table.frame(index, bytes, at);
            assert(0 <= run.table.anchors[index].inclusive <= now - since);
            assert forall|i: int| 0 <= i < ARRAY_LEN implies 0 <= (
            #[trigger] next.table.anchors[i]).inclusive <= at - since by {
                assert(next.table.anchors[i].inclusive == run.table.anchors[i].inclusive);
            }
            assert forall|j: int| 0 <= j < next.stack.len() implies since <= (
            #[trigger] next.stack[j]).start <= at && 0 <= next.stack[j].saved_inclusive
                <= next.stack[j].start - since by {
                if j < run.stack.len() {
                    assert(next.stack[j] == run.stack[j]);
                } else {
                    assert(next.stack[j] == f);
                }
            }
        },
        Event::Exit { at } => {
            let f = run.stack[run.stack.len() - 1];
            assert(since <= f.start <= now);
            assert(0 <= f.saved_inclusive <= f.start - since);
            assert(elapsed_between(f.start, at) == at - f.start);
            assert forall|i: int| 0 <= i < ARRAY_LEN implies 0 <= (
            #[trigger] next.table.anchors[i]).inclusive <= at - since by {
                assert(0 <= run.table.anchors[i].inclusive <= now - since);
                assert(next.table.anchors[i].inclusive == if f.index == i {
                    f.saved_inclusive + (at - f.start)
                } else {
                    run.table.anchors[i].inclusive
                });
            }
            assert forall|j: int| 0 <= j < next.stack.len() implies since <= (
            #[trigger] next.stack[j]).start <= at && 0 <= next.stack[j].saved_inclusive
                <= next.stack[j].start - since by {
                assert(next.stack[j] == run.stack[j]);
            }
        },
    }
}

proof fn lemma_within(events: Seq<Event>)
    requires
        Run::initial().admits_all(events),
        in_time_order(events),
    ensures
        within(Run::initial().after(events), first_reading(events), clock(events)),
    decreases events.len(),
{
    if events.len() > 0 {
        let before = events.drop_last();
        if before.len() == 0 {
            assert(within(Run::initial(), events[0].at(), events[0].at()));
        } else {
            lemma_within(before);
            assert(before.last() == events[events.len() - 2]);
            assert(before[0] == events[0]);
        }
        lemma_within_step(
            Run::initial().after(before),
            first_reading(events),
            if before.len() == 0 {
                events[0].at()
            } else {
                clock(before)
            },
            events.last(),
        );
    }
}

/// In every execution from the start whose counter never runs backwards,
/// every exit can be committed: the inclusive count that it writes is at
/// most the cycles from the first event to the exit, and the hit count and
/// the byte count have room, as long as there were fewer events than a word
/// can count and the slot's entries reported no more bytes than a word can
/// hold.
pub proof fn law_every_exit_fits(events: Seq<Event>, at: int)
    requires
        Run::initial().admits_all(events.push(Event::Exit { at })),
        in_time_order(events.push(Event::Exit { at })),
        events.len() <= u64::MAX,
        bytes_entered(events, Run::initial().after(events).stack.last().index) <= u64::MAX,
    ensures
        Run::initial().after(events).table.exit_fits(
            Run::initial().after(events).stack.last(),
            at,
        ),
        Run::initial().after(events).stack.last().saved_inclusive + elapsed_between(
            Run::initial().after(events).stack.last().start,
            at,
        ) <= at - first_reading(events),
{
    let all = events.push(Event::Exit { at });
    assert(all.drop_last() =~= events);
    assert(all.last() == Event::Exit { at });
    let run = Run::initial().after(events);
    let f = run.stack[run.stack.len() - 1];
    lemma_within(events);
    assert(events.len() > 0);
    assert(all[all.len() - 2] == events.last());
    assert(clock(events) <= at);
    assert(first_reading(events) <= f.start <= clock(events));
    assert(0 <= f.saved_inclusive <= f.start - first_reading(events));
    assert(elapsed_between(f.start, at) == at - f.start);
    lemma_exit_counts_fit(events, at);
}

/// The root's account while no scope uses the root's slot: what the root was
/// charged is never negative, and never more than the cycles that had passed
/// when the outermost live scope was entered, or that have passed by now where
/// none is live.
spec fn root_ledger(run: Run, ideal: Seq<int>, since: int, now: int) -> bool {
    &&& depth_of(run.stack, 0) == 0
    &&& 0 <= -ideal[0]
    &&& if run.stack.len() == 0 {
        -ideal[0] <= now - since
    } else {
        -ideal[0] <= run.stack[0].start - since
    }
}

proof fn lemma_root_step(run: Run, ideal: Seq<int>, since: int, now: int, e: Event)
    requires
        ledger(run, ideal, since, now),
        root_ledger(run, ideal, since, now),
        run.admits(e),
        now <= e.at(),
        !e.enters(0),
    ensures
        root_ledger(run.step(e), ideal_step(run, ideal, e), since, e.at()),
{
    let next = run.step(e);
    match e {
        Event::Enter { index, name, bytes, at } => {
            assert(next.stack.drop_last() =~= run.stack);
            if run.stack.len() > 0 {
                assert(next.stack[0] == run.stack[0]);
            }
        },
        Event::Exit { at } => {
            let f = run.stack.last();
            let top = run.stack.len() - 1;
            lemma_no_frame_of(run.stack, 0, top);
            lemma_chain(run.stack, run.table.parent, top);
            if top > 0 {
                lemma_no_frame_of(run.stack, 0, top - 1);
                assert(next.stack[0] == run.stack[0]);
            }
        },
    }
}

proof fn lemma_root_ledger(events: Seq<Event>)
    requires
        Run::initial().admits_all(events),
        in_time_order(events),
        entries_of(events, 0) == 0,
    ensures
        root_ledger(
            Run::initial().after(events),
            ideal_after(events),
            first_reading(events),
            clock(events),
        ),
    decreases events.len(),
{
    if events.len() > 0 {
        let before = events.drop_last();
        let now = if before.len() == 0 {
            events[0].at()
        } else {
            clock(before)
        };
        if before.len() == 0 {
            lemma_ledger_start(events[0].at());
            assert(before =~= Seq::empty());
        } else {
            lemma_ledger(before);
            lemma_root_ledger(before);
            assert(before.last() == events[events.len() - 2]);
            assert(before[0] == events[0]);
        }
        lemma_root_step(
            Run::initial().after(before),
            ideal_after(before),
            first_reading(events),
            now,
            events.last(),
        );
    }
}

/// The sum of the exclusive counts of `anchors`.
pub open spec fn total_exclusive(anchors: Seq<Anchor>) -> int
    decreases anchors.len(),
{
    if anchors.len() == 0 {
        0
    } else {
        total_exclusive(anchors.drop_last()) + anchors.last().exclusive
    }
}

proof fn lemma_total_update(anchors: Seq<Anchor>, i: int, a: Anchor)
    requires
        0 <= i < anchors.len(),
    ensures
        total_exclusive(anchors.update(i, a)) == total_exclusive(anchors) - anchors[i].exclusive
            + a.exclusive,
    decreases anchors.len(),
{
    if i == anchors.len() - 1 {
        assert(anchors.update(i, a).drop_last() =~= anchors.drop_last());
    } else {
        lemma_total_update(anchors.drop_last(), i, a);
        assert(anchors.update(i, a).drop_last() =~= anchors.drop_last().update(i, a));
    }
}

/// An exit moves cycles from one exclusive count to another: modulo the
/// word size, the sum over the whole table stays what it was.
pub proof fn law_exit_conserves_exclusive(table: Table, f: Frame, end: int)
    requires
        table.anchors.len() == ARRAY_LEN,
        0 <= f.index < ARRAY_LEN,
        0 <= f.parent < ARRAY_LEN,
    ensures
        wrap64(total_exclusive(table.exit(f, end).anchors)) == wrap64(
            total_exclusive(table.anchors),
        ),
{
    let cycles = elapsed_between(f.start, end);
    let charged = table.charge_parent(f.parent, cycles);
    let done = charged.credit_scope(f, cycles);
    lemma_total_update(table.anchors, f.parent, charged.anchors[f.parent]);
    lemma_total_update(charged.anchors, f.index, done.anchors[f.index]);
    let a = table.anchors[f.parent].exclusive - cycles;
    let b = charged.anchors[f.index].exclusive + cycles;
    let rest = total_exclusive(table.anchors) - table.anchors[f.parent].exclusive
        - charged.anchors[f.index].exclusive;
    assert(total_exclusive(done.anchors) == rest + wrap64(a) + wrap64(b));
}

/// An entry changes no count.
pub proof fn law_enter_keeps_counts(table: Table, name: Seq<u8>, index: int, i: int)
    requires
        table.anchors.len() == ARRAY_LEN,
        0 <= index < ARRAY_LEN,
        0 <= i < ARRAY_LEN,
    ensures
        table.enter(name, index).anchors[i].exclusive == table.anchors[i].exclusive,
        table.enter(name, index).anchors[i].inclusive == table.anchors[i].inclusive,
        table.enter(name, index).anchors[i].hits == table.anchors[i].hits,
        table.enter(name, index).anchors[i].bytes == table.anchors[i].bytes,
        total_exclusive(table.enter(name, index).anchors) == total_exclusive(table.anchors),
{
    lemma_total_update(table.anchors, index, table.enter(name, index).anchors[index]);
}

proof fn lemma_fresh_total(n: nat)
    ensures
        total_exclusive(Seq::new(n, |i: int| Anchor::fresh())) == 0,
    decreases n,
{
    if n > 0 {
        lemma_fresh_total((n - 1) as nat);
        assert(Seq::new(n, |i: int| Anchor::fresh()).drop_last() =~= Seq::new(
            (n - 1) as nat,
            |i: int| Anchor::fresh(),
        ));
    }
}

/// In every execution from the start the exclusive counts of the whole
/// table, the root's included, sum to zero modulo the word size: what the
/// scopes were credited, the root was charged.
pub proof fn law_exclusive_sums_to_zero(events: Seq<Event>)
    requires
        Run::initial().admits_all(events),
    ensures
        wrap64(total_exclusive(Run::initial().after(events).table.anchors)) == 0,
    decreases events.len(),
{
    if events.len() == 0 {
        lemma_fresh_total(ARRAY_LEN as nat);
    } else {
        let before = Run::initial().after(events.drop_last());
        law_exclusive_sums_to_zero(events.drop_last());
        lemma_after_wf(Run::initial(), events.drop_last());
        match events.last() {
            Event::Enter { index, name, bytes, at } => {
                law_enter_keeps_counts(before.table, name, index, index);
            },
            Event::Exit { at } => {
                law_exit_conserves_exclusive(before.table, before.stack.last(), at);
            },
        }
    }
}

/// The cycles that the scopes were credited: the exclusive counts of all
/// slots but the root's, added up in a word.
pub open spec fn credited_cycles(table: Table) -> int {
    wrap64(total_exclusive(table.anchors) - table.anchors[0].exclusive)
}

/// In every execution from the start, what the scopes were credited is what
/// the root was charged: the exclusive counts of all slots but the root's
/// add up, in a word, to zero less the root's.
pub proof fn law_credited_is_what_the_root_was_charged(events: Seq<Event>)
    requires
        Run::initial().admits_all(events),
    ensures
        credited_cycles(Run::initial().after(events).table) == wrap64(
            -Run::initial().after(events).table.anchors[0].exclusive,
        ),
{
    law_exclusive_sums_to_zero(events);
}

/// In every execution from the start whose counter never runs backwards and
/// in which no scope uses the root's slot: once every timer has ended, the
/// exclusive counts of the scopes add up to no more than the cycles from the
/// first event to the last.
pub proof fn law_credited_cycles_within_span(events: Seq<Event>)
    requires
        Run::initial().admits_all(events),
        in_time_order(events),
        entries_of(events, 0) == 0,
        Run::initial().after(events).stack.len() == 0,
    ensures
        0 <= credited_cycles(Run::initial().after(events).table) <= span_of(events),
{
    let run = Run::initial().after(events);
    let ideal = ideal_after(events);
    law_exclusive_sums_to_zero(events);
    lemma_ledger(events);
    lemma_root_ledger(events);
    assert(slot_ledger(run, ideal, first_reading(events), clock(events), 0));
}

} // verus!
