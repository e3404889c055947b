//! A stopped task leaves.

use crate::laws::events::{after, after_all, named, step, Event, Kind};
use crate::laws::ids::{
    law_counter_counts_tasks, law_ids_are_distinct, lemma_gone_stays_gone, line, numbered,
};
use crate::laws::operations::{law_stopping_takes_away_the_work, law_waking_changes_one_task};
use crate::laws::runs::lemma_turn_entries;
use crate::laws::sleeping::has_asked;
use crate::laws::turns::lemma_turn;
use crate::pool::{
    all_entered, entered, is_runnable, next_turn, polling, runs, runs_as, started, PoolEntry,
};
use crate::seqs::{first_index, lemma_first_index};
use crate::state::CosyncState;
use crate::task_id::CosyncTaskId;
use vstd::prelude::*;

verus! {

/// The task `id` was stopped, and has asked to be polled; if `fresh`, it has not had its turn in
/// the present run.
pub open spec fn stopped_asking<F>(
    pool: Seq<PoolEntry<F>>,
    id: CosyncTaskId,
    fresh: bool,
) -> bool {
    exists|k: int|
        {
            &&& 0 <= k < pool.len()
            &&& (#[trigger] pool[k]).id == id
            &&& pool[k].body is Stopped
            &&& pool[k].ready
            &&& fresh ==> !pool[k].polled
        }
}

/// A turn leaves a stopped task as it is, unless it takes it away.
proof fn lemma_turn_leaves_stopped<F>(pool: Seq<PoolEntry<F>>, k: int, j: int)
    requires
        0 <= k < pool.len(),
        pool[k].body is Stopped,
        forall|m: int| 0 <= m < pool.len() && m != k ==> (#[trigger] pool[m]).id != pool[k].id,
        0 <= j < next_turn(pool).0.len(),
        next_turn(pool).0[j].id == pool[k].id,
    ensures
        next_turn(pool).0[j] == pool[k],
{
    lemma_turn_entries(pool);
    let m = choose|m: int|
        {
            &&& 0 <= m < pool.len()
            &&& {
                ||| #[trigger] pool[m] == next_turn(pool).0[j]
                ||| pool[m].body is Idle && next_turn(pool).0[j] == started(pool[m])
            }
        };
    assert(pool[m].id == pool[k].id);
}

/// Whatever is done, a stopped task that has asked to be polled stays so, or leaves.
proof fn lemma_stays_stopped<F>(
    state: CosyncState<F>,
    event: Event<F>,
    id: CosyncTaskId,
    fresh: bool,
)
    requires
        numbered(state),
        numbered(after(Kind::Concurrent, state, event)),
        event.names_task() ==> state.queue.counter < u64::MAX,
        stopped_asking(state.pool, id, fresh),
        line(after(Kind::Concurrent, state, event)).contains(id),
    ensures
        stopped_asking(after(Kind::Concurrent, state, event).pool, id, fresh),
{
    let next = after(Kind::Concurrent, state, event);
    let pool = state.pool;
    let incoming = state.queue.incoming;
    let n = pool.len() as int;
    let k = choose|k: int|
        {
            &&& 0 <= k < n
            &&& (#[trigger] pool[k]).id == id
            &&& pool[k].body is Stopped
            &&& pool[k].ready
            &&& fresh ==> !pool[k].polled
        };
    assert(line(state)[k] == id);
    assert forall|m: int| 0 <= m < n && m != k implies (#[trigger] pool[m]).id != id by {
        assert(line(state)[m] == pool[m].id);
    }
    assert forall|m: int| 0 <= m < incoming.len() implies (#[trigger] incoming[m]).1 != id by {
        assert(line(state)[n + m] == incoming[m].1);
    }
    match event {
        Event::Stop(other) => {
            law_stopping_takes_away_the_work(state, other, k);
            lemma_first_index(pool, runs_as(other));
            assert(next.pool[k].id == id && next.pool[k].body is Stopped);
        },
        Event::ClearRunning | Event::Clear => {
            let j = choose|j: int| 0 <= j < line(next).len() && line(next)[j] == id;
            assert(line(next)[j] == next.queue.incoming[j].1);
            assert(event is ClearRunning ==> next.queue.incoming[j] == incoming[j]);
        },
        Event::NextAction => {
            let (kept, turn) = next_turn(pool);
            let joined = kept + all_entered(incoming);
            let j = choose|j: int| 0 <= j < line(next).len() && line(next)[j] == id;
            if j >= next.pool.len() {
                assert(line(next)[j] == next.queue.incoming[j - next.pool.len()].1);
                assert(next.queue.incoming =~= incoming || next.queue.incoming.len() == 0);
            }
            assert(next.pool[j].id == id);
            if turn is Some {
                lemma_turn_leaves_stopped(pool, k, j);
            } else {
                lemma_turn_entries(joined);
                let m = choose|m: int|
                    {
                        &&& 0 <= m < joined.len()
                        &&& {
                            ||| #[trigger] joined[m] == next_turn(joined).0[j]
                            ||| joined[m].body is Idle && next_turn(joined).0[j]
                                == started(joined[m])
                        }
                    };
                assert(joined[m].id == id);
                if m >= kept.len() {
                    assert(joined[m] == entered(incoming[m - kept.len()]));
                }
                assert(joined[m] == kept[m]);
                lemma_turn_leaves_stopped(pool, k, m);
            }
        },
        Event::FinishPoll(outcome) => {
            lemma_first_index(pool, polling());
            let i = first_index(pool, polling()) as int;
            let m = if i < n && outcome is Ready && k > i { k - 1 } else { k };
            assert(next.pool[m] == pool[k]);
        },
        Event::BeginRun => {
            assert(state.drained().pool[k] == pool[k]);
            assert(next.pool[k].id == id && next.pool[k].body is Stopped && next.pool[k].ready);
        },
        _ => {
            assert(next.pool[k].id == id && next.pool[k].body is Stopped && next.pool[k].ready
                && next.pool[k].polled == pool[k].polled);
        },
    }
}

/// The same over any number of operations.
proof fn lemma_stopped_until_gone<F>(
    state: CosyncState<F>,
    events: Seq<Event<F>>,
    id: CosyncTaskId,
    fresh: bool,
)
    requires
        numbered(state),
        state.queue.counter + named(events) <= u64::MAX,
        stopped_asking(state.pool, id, fresh),
    ensures
        line(after_all(Kind::Concurrent, state, events)).contains(id) ==> stopped_asking(
            after_all(Kind::Concurrent, state, events).pool,
            id,
            fresh,
        ),
    decreases events.len(),
{
    if events.len() > 0 {
        let kind = Kind::Concurrent;
        let front = events.drop_last();
        let now = after_all(kind, state, front);
        lemma_stopped_until_gone(state, front, id, fresh);
        law_counter_counts_tasks(kind, state, front);
        law_ids_are_distinct(kind, state, front);
        law_ids_are_distinct(kind, state, events);
        if line(after_all(kind, state, events)).contains(id) {
            if !line(now).contains(id) {
                let k = choose|k: int|
                    0 <= k < state.pool.len() && (#[trigger] state.pool[k]).id == id
                        && state.pool[k].ready;
                assert(line(state)[k] == id);
                let one = seq![events.last()];
                assert(one.drop_last() =~= Seq::empty());
                assert(after_all(kind, now, one.drop_last()) == now);
                assert(named(one.drop_last()) == 0);
                lemma_gone_stays_gone(kind, now, one, id);
            }
            lemma_stays_stopped(now, events.last(), id, fresh);
        }
    }
}

/// A stopped task that has asked to be polled leaves in the next run: whatever is done before it
/// and in it, once the run ends, the task is in line no more, and so it counts as running no more.
pub proof fn law_stopped_task_that_asked_leaves<F>(
    state: CosyncState<F>,
    before: Seq<Event<F>>,
    events: Seq<Event<F>>,
    id: CosyncTaskId,
)
    requires
        numbered(state),
        state.queue.counter + named(before) + named(events) <= u64::MAX,
        stopped_asking(state.pool, id, false),
        ({
            let begun = after(
                Kind::Concurrent,
                after_all(Kind::Concurrent, state, before),
                Event::BeginRun,
            );
            step(Kind::Concurrent, after_all(Kind::Concurrent, begun, events)).1 is Return
        }),
    ensures
        ({
            let begun = after(
                Kind::Concurrent,
                after_all(Kind::Concurrent, state, before),
                Event::BeginRun,
            );
            let end = step(Kind::Concurrent, after_all(Kind::Concurrent, begun, events)).0;
            !line(end).contains(id) && !runs(end.pool, id)
        }),
{
    let kind = Kind::Concurrent;
    let ready = after_all(kind, state, before);
    let begun = after(kind, ready, Event::BeginRun);
    let last = after_all(kind, begun, events);
    let end = step(kind, last).0;
    let k = choose|k: int|
        0 <= k < state.pool.len() && (#[trigger] state.pool[k]).id == id
            && state.pool[k].body is Stopped && state.pool[k].ready;
    assert(line(state)[k] == id);
    law_counter_counts_tasks(kind, state, before);
    law_ids_are_distinct(kind, state, before);
    lemma_stopped_until_gone(state, before, id, false);
    assert(line(begun) =~= line(ready));
    let all = events.push(Event::<F>::NextAction);
    assert(all.drop_last() =~= events);
    assert(after_all(kind, begun, all) == end);
    if line(ready).contains(id) {
        let m = choose|m: int|
            0 <= m < ready.pool.len() && (#[trigger] ready.pool[m]).id == id
                && ready.pool[m].body is Stopped && ready.pool[m].ready;
        assert(ready.drained().pool[m] == ready.pool[m]);
        assert(begun.pool[m].id == id && begun.pool[m].body is Stopped && begun.pool[m].ready
            && !begun.pool[m].polled);
        lemma_stopped_until_gone(begun, all, id, true);
        lemma_turn(next_turn(last.pool).0 + all_entered(last.queue.incoming));
        if line(end).contains(id) {
            let j = choose|j: int|
                0 <= j < end.pool.len() && (#[trigger] end.pool[j]).id == id
                    && end.pool[j].body is Stopped && end.pool[j].ready && !end.pool[j].polled;
            assert(is_runnable(end.pool[j]));
        }
    } else {
        lemma_gone_stays_gone(kind, begun, all, id);
    }
    if runs(end.pool, id) {
        let j = choose|j: int| 0 <= j < end.pool.len() && (#[trigger] end.pool[j]).id == id;
        assert(line(end)[j] == id);
    }
}

/// To stop a running task that has asked to be polled makes it leave in the next run, whichever
/// place it has in the pool: once the run ends, it counts as running no more.
pub proof fn law_stop_makes_a_task_leave<F>(
    state: CosyncState<F>,
    before: Seq<Event<F>>,
    events: Seq<Event<F>>,
    id: CosyncTaskId,
)
    requires
        numbered(state),
        state.queue.counter + named(before) + named(events) <= u64::MAX,
        has_asked(state.pool, id),
        ({
            let begun = after(
                Kind::Concurrent,
                after_all(Kind::Concurrent, state.stopped(id), before),
                Event::BeginRun,
            );
            step(Kind::Concurrent, after_all(Kind::Concurrent, begun, events)).1 is Return
        }),
    ensures
        ({
            let begun = after(
                Kind::Concurrent,
                after_all(Kind::Concurrent, state.stopped(id), before),
                Event::BeginRun,
            );
            let end = step(Kind::Concurrent, after_all(Kind::Concurrent, begun, events)).0;
            !line(end).contains(id) && !runs(end.pool, id)
        }),
{
    let k = choose|k: int|
        0 <= k < state.pool.len() && (#[trigger] state.pool[k]).id == id && state.pool[k].ready;
    lemma_only_one_runs(state, id, k);
    law_stopping_takes_away_the_work(state, id, k);
    let next = state.stopped(id);
    assert(next.pool[k].body is Stopped);
    lemma_first_index(state.pool, runs_as(id));
    assert(line(next) =~= line(state));
    law_stopped_task_that_asked_leaves(next, before, events, id);
}

/// To stop a running task that sleeps makes it leave in the next run after it was woken.
pub proof fn law_stopped_task_leaves_once_woken<F>(
    state: CosyncState<F>,
    before: Seq<Event<F>>,
    events: Seq<Event<F>>,
    id: CosyncTaskId,
)
    requires
        numbered(state),
        state.queue.counter + named(before) + named(events) <= u64::MAX,
        runs(state.pool, id),
        ({
            let begun = after(
                Kind::Concurrent,
                after_all(Kind::Concurrent, state.stopped(id).woken(id), before),
                Event::BeginRun,
            );
            step(Kind::Concurrent, after_all(Kind::Concurrent, begun, events)).1 is Return
        }),
    ensures
        ({
            let begun = after(
                Kind::Concurrent,
                after_all(Kind::Concurrent, state.stopped(id).woken(id), before),
                Event::BeginRun,
            );
            let end = step(Kind::Concurrent, after_all(Kind::Concurrent, begun, events)).0;
            !line(end).contains(id) && !runs(end.pool, id)
        }),
{
    let k = choose|k: int| 0 <= k < state.pool.len() && (#[trigger] state.pool[k]).id == id;
    lemma_only_one_runs(state, id, k);
    law_stopping_takes_away_the_work(state, id, k);
    let next = state.stopped(id);
    law_waking_changes_one_task(next, id, k);
    let woken = next.woken(id);
    assert(woken.pool[k].body is Stopped && woken.pool[k].ready && woken.pool[k].id == id);
    lemma_first_index(state.pool, runs_as(id));
    assert(line(woken) =~= line(state));
    law_stopped_task_that_asked_leaves(woken, before, events, id);
}

/// Where no two tasks share an identifier, no other task runs under it.
proof fn lemma_only_one_runs<F>(state: CosyncState<F>, id: CosyncTaskId, k: int)
    requires
        numbered(state),
        0 <= k < state.pool.len(),
        state.pool[k].id == id,
    ensures
        forall|m: int| 0 <= m < state.pool.len() && m != k ==> (#[trigger] state.pool[m]).id != id,
{
    assert(line(state)[k] == id);
    assert forall|m: int| 0 <= m < state.pool.len() && m != k implies (
    #[trigger] state.pool[m]).id != id by {
        assert(line(state)[m] == state.pool[m].id);
    }
}

} // verus!
