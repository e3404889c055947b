//! What holds of whole runs.

use crate::laws::events::{after, after_all, named, step, Event, Kind};
use crate::laws::ids::{
    law_counter_counts_tasks, law_ids_are_distinct, lemma_gone_stays_gone, line, numbered,
};
use crate::laws::turns::{can_be_polled, lemma_turn};
use crate::pool::{
    all_entered, entered, is_polling, next_turn, polling, runnable, runs, runs_as, started, Body,
    Outcome, Poll, PoolEntry,
};
use crate::queue::{waits_as, FutureObject};
use crate::seqs::{first_index, lemma_first_index};
use crate::state::{Action, CosyncState};
use crate::task_id::CosyncTaskId;
use vstd::prelude::*;

verus! {

/// Where the entries of a pool come from after a turn: they were there before, and only the one
/// whose turn it was is changed.
pub proof fn lemma_turn_entries<F>(pool: Seq<PoolEntry<F>>)
    ensures
        forall|k: int|
            0 <= k < next_turn(pool).0.len() ==> exists|m: int|
                {
                    &&& 0 <= m < pool.len()
                    &&& {
                        ||| #[trigger] pool[m] == #[trigger] next_turn(pool).0[k]
                        ||| pool[m].body is Idle && next_turn(pool).0[k] == started(pool[m])
                    }
                },
        next_turn(pool).1 matches Some(task) ==> exists|k: int|
            0 <= k < next_turn(pool).0.len() && (#[trigger] next_turn(pool).0[k]).id == task.1
                && next_turn(pool).0[k].polled,
    decreases pool.len(),
{
    let after = next_turn(pool).0;
    lemma_first_index(pool, runnable());
    let i = first_index(pool, runnable()) as int;
    if i < pool.len() {
        match pool[i].body {
            Body::Idle(_) => {
                assert(after[i] == started(pool[i]));
                assert forall|k: int| 0 <= k < after.len() implies exists|m: int|
                    {
                        &&& 0 <= m < pool.len()
                        &&& {
                            ||| #[trigger] pool[m] == #[trigger] after[k]
                            ||| pool[m].body is Idle && after[k] == started(pool[m])
                        }
                    } by {
                    assert(k != i ==> pool[k] == after[k]);
                    assert(k == i ==> after[k] == started(pool[k]));
                }
            },
            _ => {
                let rest = pool.remove(i);
                lemma_turn_entries(rest);
                assert forall|k: int| 0 <= k < after.len() implies exists|m: int|
                    {
                        &&& 0 <= m < pool.len()
                        &&& {
                            ||| #[trigger] pool[m] == #[trigger] after[k]
                            ||| pool[m].body is Idle && after[k] == started(pool[m])
                        }
                    } by {
                    let m = choose|m: int|
                        {
                            &&& 0 <= m < rest.len()
                            &&& {
                                ||| #[trigger] rest[m] == after[k]
                                ||| rest[m].body is Idle && after[k] == started(rest[m])
                            }
                        };
                    let n = if m < i { m } else { m + 1 };
                    assert(pool[n] == rest[m]);
                }
            },
        }
    }
}

/// The task `id` cannot be polled any more in the present run.
pub open spec fn spent<F>(state: CosyncState<F>, id: CosyncTaskId) -> bool {
    &&& forall|k: int|
        0 <= k < state.pool.len() && (#[trigger] state.pool[k]).id == id ==> state.pool[k].polled
    &&& !state.queue.waits(id)
    &&& id.0 < state.queue.counter
}

/// The task `id` cannot be polled any more at all.
pub open spec fn over<F>(state: CosyncState<F>, id: CosyncTaskId) -> bool {
    &&& forall|k: int|
        0 <= k < state.pool.len() && (#[trigger] state.pool[k]).id == id
            ==> state.pool[k].body is Stopped
    &&& !state.queue.waits(id)
    &&& id.0 < state.queue.counter
}

proof fn lemma_unqueued<F>(state: CosyncState<F>, removed: CosyncTaskId, id: CosyncTaskId)
    requires
        !state.queue.waits(id),
    ensures
        !state.queue.unqueued(removed).waits(id),
{
    let incoming = state.queue.incoming;
    let rest = state.queue.unqueued(removed).incoming;
    lemma_first_index(incoming, waits_as(removed));
    let i = first_index(incoming, waits_as(removed)) as int;
    assert forall|k: int| 0 <= k < rest.len() implies (#[trigger] rest[k]).1 != id by {
        if i < incoming.len() {
            let m = if k < i { k } else { k + 1 };
            assert(rest[k] == incoming[m]);
        } else {
            assert(rest[k] == incoming[k]);
        }
    }
}

/// A step of a run keeps a spent task spent, and a task that is over stays over.
proof fn lemma_step_keeps<F>(kind: Kind, state: CosyncState<F>, id: CosyncTaskId)
    ensures
        spent(state, id) ==> spent(step(kind, state).0, id),
        over(state, id) ==> over(step(kind, state).0, id),
{
    let incoming = state.queue.incoming;
    let kept = next_turn(state.pool).0;
    let joined = kept + all_entered(incoming);
    let next = step(kind, state).0;
    lemma_turn_entries(state.pool);
    lemma_turn_entries(joined);
    if spent(state, id) {
        assert forall|k: int| 0 <= k < joined.len() && (#[trigger] joined[k]).id == id implies
            joined[k].polled by {
            if k < kept.len() {
                assert(joined[k] == kept[k]);
            } else {
                assert(joined[k] == entered(incoming[k - kept.len()]));
            }
        }
        assert forall|k: int| 0 <= k < next.pool.len() && (#[trigger] next.pool[k]).id == id implies
            next.pool[k].polled by {}
        assert forall|k: int| 0 <= k < next.queue.incoming.len() implies (
        #[trigger] next.queue.incoming[k]).1 != id by {
            if next.queue.incoming == incoming {
                assert(incoming[k].1 != id);
            } else {
                assert(next.queue.incoming[k] == incoming[k + 1]);
            }
        }
    }
    if over(state, id) {
        assert forall|k: int| 0 <= k < joined.len() && (#[trigger] joined[k]).id == id implies
            joined[k].body is Stopped by {
            if k < kept.len() {
                assert(joined[k] == kept[k]);
            } else {
                assert(joined[k] == entered(incoming[k - kept.len()]));
            }
        }
        assert forall|k: int| 0 <= k < next.pool.len() && (#[trigger] next.pool[k]).id == id implies
            next.pool[k].body is Stopped by {}
        assert forall|k: int| 0 <= k < next.queue.incoming.len() implies (
        #[trigger] next.queue.incoming[k]).1 != id by {
            if next.queue.incoming == incoming {
                assert(incoming[k].1 != id);
            } else {
                assert(next.queue.incoming[k] == incoming[k + 1]);
            }
        }
    }
}

/// A task that is over stays over, and a spent task stays spent until the next run begins.
proof fn lemma_event_keeps<F>(kind: Kind, state: CosyncState<F>, event: Event<F>, id: CosyncTaskId)
    requires
        event.names_task() ==> state.queue.counter < u64::MAX,
    ensures
        spent(state, id) && event !is BeginRun ==> spent(after(kind, state, event), id),
        over(state, id) ==> over(after(kind, state, event), id),
{
    let next = after(kind, state, event);
    let incoming = state.queue.incoming;
    match event {
        Event::Queue(_) => {
            assert forall|k: int|
                !state.queue.waits(id) && id.0 < state.queue.counter && 0 <= k
                    < next.queue.incoming.len() implies (#[trigger] next.queue.incoming[k]).1
                != id by {
                if k < incoming.len() {
                    assert(next.queue.incoming[k] == incoming[k]);
                }
            }
            assert forall|k: int|
                id.0 < state.queue.counter && 0 <= k < next.pool.len() && (
                #[trigger] next.pool[k]).id == id implies k < state.pool.len() && next.pool[k]
                == state.pool[k] by {}
        },
        Event::Unqueue(removed) => {
            if !state.queue.waits(id) {
                lemma_unqueued(state, removed, id);
            }
        },
        Event::Stop(stop_id) => {
            lemma_first_index(state.pool, runs_as(stop_id));
            assert forall|k: int| 0 <= k < next.pool.len() implies (#[trigger] next.pool[k]).id
                == state.pool[k].id && next.pool[k].polled == state.pool[k].polled && (
            next.pool[k].body == state.pool[k].body || next.pool[k].body is Stopped) by {}
        },
        Event::Wake(_) => {
            assert forall|k: int| 0 <= k < next.pool.len() implies (#[trigger] next.pool[k]).id
                == state.pool[k].id && next.pool[k].polled == state.pool[k].polled
                && next.pool[k].body == state.pool[k].body by {}
        },
        Event::BeginRun => {
            if over(state, id) {
                let entries = match kind {
                    Kind::Concurrent => state.drained().pool,
                    Kind::Serial => state.pool,
                };
                assert forall|k: int| 0 <= k < next.pool.len() && (#[trigger] next.pool[k]).id
                    == id implies next.pool[k].body is Stopped by {
                    assert(entries[k].id == id && entries[k].body == next.pool[k].body);
                    if k >= state.pool.len() {
                        assert(entries[k] == entered(incoming[k - state.pool.len()]));
                    } else {
                        assert(entries[k] == state.pool[k]);
                    }
                }
                assert(!next.queue.waits(id));
            }
        },
        Event::NextAction => {
            lemma_step_keeps(kind, state, id);
        },
        Event::FinishPoll(outcome) => {
            lemma_first_index(state.pool, polling());
            let i = first_index(state.pool, polling()) as int;
            if i < state.pool.len() {
                assert forall|k: int| 0 <= k < next.pool.len() implies ({
                    let m = if outcome is Ready && k >= i { k + 1 } else { k };
                    &&& (#[trigger] next.pool[k]).id == state.pool[m].id
                    &&& next.pool[k].polled == state.pool[m].polled
                    &&& state.pool[m].body is Stopped ==> next.pool[k].body is Stopped
                }) by {}
            }
        },
        _ => {},
    }
}

proof fn lemma_events_keep<F>(
    kind: Kind,
    state: CosyncState<F>,
    events: Seq<Event<F>>,
    id: CosyncTaskId,
)
    requires
        state.queue.counter + named(events) <= u64::MAX,
    ensures
        spent(state, id) && (forall|i: int|
            0 <= i < events.len() ==> (#[trigger] events[i]) !is BeginRun) ==> spent(
            after_all(kind, state, events),
            id,
        ),
        over(state, id) ==> over(after_all(kind, state, events), id),
    decreases events.len(),
{
    if events.len() > 0 {
        lemma_events_keep(kind, state, events.drop_last(), id);
        law_counter_counts_tasks(kind, state, events.drop_last());
        lemma_event_keeps(
            kind,
            after_all(kind, state, events.drop_last()),
            events.last(),
            id,
        );
        assert(events.last() == events[events.len() - 1]);
        assert forall|i: int| 0 <= i < events.len() - 1 implies events.drop_last()[i]
            == events[i] by {}
    }
}

/// A task that is spent or over is not polled.
proof fn lemma_not_polled<F>(kind: Kind, state: CosyncState<F>, id: CosyncTaskId)
    requires
        spent(state, id) || over(state, id),
    ensures
        step(kind, state).1 matches Action::Poll(task) ==> task.1 != id,
{
    let incoming = state.queue.incoming;
    let kept = next_turn(state.pool).0;
    let joined = kept + all_entered(incoming);
    lemma_turn(state.pool);
    lemma_turn(joined);
    lemma_turn_entries(state.pool);
    assert forall|k: int| 0 <= k < joined.len() && (#[trigger] joined[k]).id == id implies
        !can_be_polled(joined[k]) by {
        if k < kept.len() {
            assert(joined[k] == kept[k]);
        } else {
            assert(joined[k] == entered(incoming[k - kept.len()]));
        }
    }
}

/// In one run, a task is polled at most once: after a step in which a task is handed out, no step
/// hands it out again until the next run begins, whatever else happens.
pub proof fn law_polled_once_per_run<F>(
    kind: Kind,
    state: CosyncState<F>,
    polled: FutureObject<F>,
    events: Seq<Event<F>>,
)
    requires
        numbered(state),
        step(kind, state).1 == Action::Poll(polled),
        state.queue.counter + named(events) <= u64::MAX,
        forall|i: int| 0 <= i < events.len() ==> (#[trigger] events[i]) !is BeginRun,
    ensures
        step(kind, after_all(kind, step(kind, state).0, events)).1 matches Action::Poll(task)
            ==> task.1 != polled.1,
{
    let next = step(kind, state).0;
    lemma_numbered_step(kind, state);
    lemma_handed_out(kind, state, polled);
    lemma_events_keep(kind, next, events, polled.1);
    lemma_not_polled(kind, after_all(kind, next, events), polled.1);
}

/// A task that was handed out is spent.
pub proof fn lemma_handed_out<F>(kind: Kind, state: CosyncState<F>, task: FutureObject<F>)
    requires
        numbered(step(kind, state).0),
        step(kind, state).1 == Action::Poll(task),
    ensures
        spent(step(kind, state).0, task.1),
{
    let next = step(kind, state).0;
    let incoming = state.queue.incoming;
    let joined = next_turn(state.pool).0 + all_entered(incoming);
    lemma_turn_entries(state.pool);
    lemma_turn_entries(joined);
    let k = if kind is Serial && next_turn(state.pool).1 is None {
        0
    } else {
        choose|k: int|
            0 <= k < next.pool.len() && (#[trigger] next.pool[k]).id == task.1
                && next.pool[k].polled
    };
    assert(next.pool[k].id == task.1 && next.pool[k].polled);
    assert(line(next)[k] == task.1);
    assert forall|m: int| 0 <= m < next.pool.len() && (#[trigger] next.pool[m]).id
        == task.1 implies next.pool[m].polled by {
        assert(line(next)[m] == next.pool[m].id);
    }
    assert forall|m: int| 0 <= m < next.queue.incoming.len() implies (
    #[trigger] next.queue.incoming[m]).1 != task.1 by {
        assert(line(next)[next.pool.len() + m] == next.queue.incoming[m].1);
    }
}

/// A task that was stopped is never polled again.
pub proof fn law_stopped_task_is_never_polled<F>(
    state: CosyncState<F>,
    id: CosyncTaskId,
    events: Seq<Event<F>>,
)
    requires
        numbered(state),
        runs(state.pool, id),
        state.queue.counter + named(events) <= u64::MAX,
    ensures
        step(
            Kind::Concurrent,
            after_all(Kind::Concurrent, state.stopped(id), events),
        ).1 matches Action::Poll(task) ==> task.1 != id,
{
    let next = state.stopped(id);
    let i = choose|i: int| 0 <= i < state.pool.len() && (#[trigger] state.pool[i]).id == id;
    lemma_first_index(state.pool, runs_as(id));
    let f = first_index(state.pool, runs_as(id)) as int;
    assert(line(state)[i] == id);
    if f >= state.pool.len() {
        assert(!runs_as::<F>(id)(state.pool[i]));
    }
    assert(line(state)[f] == id);
    assert forall|k: int| 0 <= k < next.pool.len() && (#[trigger] next.pool[k]).id == id implies
        next.pool[k].body is Stopped by {
        assert(line(state)[k] == state.pool[k].id);
    }
    assert forall|k: int| 0 <= k < next.queue.incoming.len() implies (
    #[trigger] next.queue.incoming[k]).1 != id by {
        assert(line(state)[state.pool.len() + k] == next.queue.incoming[k].1);
    }
    assert(over(next, id));
    lemma_events_keep(Kind::Concurrent, next, events, id);
    lemma_not_polled(Kind::Concurrent, after_all(Kind::Concurrent, next, events), id);
}

/// A task that is there no more, because it is complete or was dropped, never comes back, and is
/// never polled.
pub proof fn law_gone_task_never_comes_back<F>(
    kind: Kind,
    state: CosyncState<F>,
    id: CosyncTaskId,
    events: Seq<Event<F>>,
)
    requires
        !line(state).contains(id),
        id.0 < state.queue.counter,
        state.queue.counter + named(events) <= u64::MAX,
    ensures
        !line(after_all(kind, state, events)).contains(id),
        step(kind, after_all(kind, state, events)).1 matches Action::Poll(task) ==> task.1 != id,
{
    lemma_gone_stays_gone(kind, state, events, id);
    assert forall|k: int| 0 <= k < state.pool.len() implies (#[trigger] state.pool[k]).id
        != id by {
        assert(line(state)[k] == state.pool[k].id);
    }
    assert forall|k: int| 0 <= k < state.queue.incoming.len() implies (
    #[trigger] state.queue.incoming[k]).1 != id by {
        assert(line(state)[state.pool.len() + k] == state.queue.incoming[k].1);
    }
    lemma_events_keep(kind, state, events, id);
    lemma_not_polled(kind, after_all(kind, state, events), id);
}

/// After a turn exactly the task whose turn it was is out, if none was before.
proof fn lemma_one_out<F>(pool: Seq<PoolEntry<F>>)
    requires
        !is_polling(pool),
    ensures
        match next_turn(pool).1 {
            Some(task) => exists|k: int|
                {
                    &&& 0 <= k < next_turn(pool).0.len()
                    &&& (#[trigger] next_turn(pool).0[k]).body is Polling
                    &&& next_turn(pool).0[k].id == task.1
                    &&& forall|m: int|
                        0 <= m < next_turn(pool).0.len() && m != k ==> (
                        #[trigger] next_turn(pool).0[m]).body !is Polling
                },
            None => !is_polling(next_turn(pool).0),
        },
    decreases pool.len(),
{
    let after = next_turn(pool).0;
    lemma_first_index(pool, runnable());
    let i = first_index(pool, runnable()) as int;
    if i < pool.len() {
        match pool[i].body {
            Body::Idle(_) => {
                assert(after[i] == started(pool[i]));
                assert forall|m: int| 0 <= m < after.len() && m != i implies (
                #[trigger] after[m]).body !is Polling by {
                    assert(after[m] == pool[m]);
                }
            },
            _ => {
                let rest = pool.remove(i);
                assert forall|m: int| 0 <= m < rest.len() implies (#[trigger] rest[m]).body
                    !is Polling by {
                    let n = if m < i { m } else { m + 1 };
                    assert(rest[m] == pool[n]);
                }
                lemma_one_out(rest);
            },
        }
    }
}

/// After a step that hands out a task, exactly that task is out, if none was before.
pub proof fn lemma_step_one_out<F>(kind: Kind, state: CosyncState<F>, task: FutureObject<F>)
    requires
        !is_polling(state.pool),
        step(kind, state).1 == Action::Poll(task),
    ensures
        ({
            let pool = step(kind, state).0.pool;
            let k = first_index(pool, polling()) as int;
            &&& 0 <= k < pool.len()
            &&& pool[k].body is Polling
            &&& pool[k].id == task.1
            &&& forall|m: int|
                0 <= m < pool.len() && m != k ==> (#[trigger] pool[m]).body !is Polling
        }),
{
    let pool = step(kind, state).0.pool;
    let kept = next_turn(state.pool).0;
    let joined = kept + all_entered(state.queue.incoming);
    lemma_one_out(state.pool);
    if next_turn(state.pool).1 is None {
        if kind is Concurrent {
            assert forall|m: int| 0 <= m < joined.len() implies (#[trigger] joined[m]).body
                !is Polling by {
                if m < kept.len() {
                    assert(joined[m] == kept[m]);
                } else {
                    assert(joined[m] == entered(state.queue.incoming[m - kept.len()]));
                }
            }
            lemma_one_out(joined);
        } else {
            assert(pool[0].body is Polling);
        }
    }
    lemma_first_index(pool, polling());
    let k = choose|k: int|
        {
            &&& 0 <= k < pool.len()
            &&& (#[trigger] pool[k]).body is Polling
            &&& pool[k].id == task.1
            &&& forall|m: int|
                0 <= m < pool.len() && m != k ==> (#[trigger] pool[m]).body !is Polling
        };
    let f = first_index(pool, polling()) as int;
    if f >= pool.len() {
        assert(!polling()(pool[k]));
    }
    assert(f == k);
}

/// A task that comes back complete leaves: it is in line no more.
pub proof fn law_complete_task_leaves<F>(
    kind: Kind,
    state: CosyncState<F>,
    task: FutureObject<F>,
)
    requires
        numbered(state),
        !is_polling(state.pool),
        step(kind, state).1 == Action::Poll(task),
    ensures
        !line(step(kind, state).0.finished(Outcome::Ready)).contains(task.1),
{
    let next = step(kind, state).0;
    let end = next.finished(Outcome::Ready);
    lemma_step_one_out(kind, state, task);
    lemma_numbered_step(kind, state);
    let k = first_index(next.pool, polling()) as int;
    assert(line(next)[k] == task.1);
    assert(line(end) =~= line(next).remove(k));
    assert forall|m: int| 0 <= m < line(end).len() implies line(end)[m] != task.1 by {
        let n = if m < k { m } else { m + 1 };
        assert(line(end)[m] == line(next)[n]);
    }
}

/// A task that comes back with more to do keeps its place in line, and what it handed back is what
/// is polled the next time.
pub proof fn law_pending_task_stays<F>(
    kind: Kind,
    state: CosyncState<F>,
    task: FutureObject<F>,
    work: F,
)
    requires
        !is_polling(state.pool),
        step(kind, state).1 == Action::Poll(task),
    ensures
        ({
            let end = step(kind, state).0.finished(Outcome::Pending(work));
            &&& line(end) == line(step(kind, state).0)
            &&& !is_polling(end.pool)
            &&& exists|k: int|
                {
                    &&& 0 <= k < end.pool.len()
                    &&& (#[trigger] end.pool[k]).id == task.1
                    &&& end.pool[k].body == Body::Idle(work)
                }
        }),
{
    let next = step(kind, state).0;
    let end = next.finished(Outcome::Pending(work));
    lemma_step_one_out(kind, state, task);
    let k = first_index(next.pool, polling()) as int;
    assert(line(end) =~= line(next));
    assert(end.pool[k].id == task.1 && end.pool[k].body == Body::Idle(work));
    assert forall|m: int| 0 <= m < end.pool.len() implies (#[trigger] end.pool[m]).body
        !is Polling by {
        if m != k {
            assert(end.pool[m] == next.pool[m]);
        }
    }
}

proof fn lemma_numbered_step<F>(kind: Kind, state: CosyncState<F>)
    requires
        numbered(state),
    ensures
        numbered(step(kind, state).0),
{
    let one = seq![Event::<F>::NextAction];
    assert(one.drop_last() =~= Seq::empty());
    assert(after_all(kind, state, one.drop_last()) == state);
    assert(after_all(kind, state, one) == step(kind, state).0);
    assert(named(one.drop_last()) == 0);
    assert(named(one) == 0);
    law_ids_are_distinct(kind, state, one);
}

} // verus!
