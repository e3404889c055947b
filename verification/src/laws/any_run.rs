//! Any run, whatever tasks are awake when it begins, and whatever is woken and queued meanwhile.

use crate::laws::events::{after, after_all, named, step, Event, Kind};
use crate::laws::ids::{
    law_counter_counts_tasks, law_ids_are_distinct, law_line_is_in_order_of_queueing,
    lemma_ordered_is_numbered, line, numbered, ordered,
};
use crate::laws::runs::law_polled_once_per_run;
use crate::laws::turns::{can_be_polled, lemma_turn};
use crate::pool::{
    all_entered, entered, next_turn, polling, runnable, started, ticked, Body, Poll, PoolEntry,
};
use crate::queue::{waits_as, FutureObject};
use crate::seqs::{first_index, lemma_first_index};
use crate::state::{Action, CosyncState};
use crate::task_id::CosyncTaskId;
use vstd::prelude::*;

verus! {

/// What can happen in the course of a run: its steps, the return of the tasks that were polled, and
/// what tasks, handles and wakers do meanwhile. All else is up to the owner, who is busy with the
/// run.
pub open spec fn in_run<F>(event: Event<F>) -> bool {
    event is Queue || event is Unqueue || event is Wake || event is NextAction
        || event is FinishPoll
}

/// All of it can happen in the course of a run.
pub open spec fn all_in_run<F>(events: Seq<Event<F>>) -> bool {
    forall|i: int| 0 <= i < events.len() ==> in_run(#[trigger] events[i])
}

/// A task that runs under `id` can be polled in the present run.
pub open spec fn awaits_turn<F>(pool: Seq<PoolEntry<F>>, id: CosyncTaskId) -> bool {
    exists|k: int| 0 <= k < pool.len() && can_be_polled(#[trigger] pool[k]) && pool[k].id == id
}

/// The task `id` is due: it can be polled in the present run, or waits.
pub open spec fn due<F>(state: CosyncState<F>, id: CosyncTaskId) -> bool {
    awaits_turn(state.pool, id) || state.queue.waits(id)
}

/// The tasks that are handed out to be polled, in the order in which that happens.
pub open spec fn handed_out<F>(kind: Kind, state: CosyncState<F>, events: Seq<Event<F>>) -> Seq<
    CosyncTaskId,
>
    decreases events.len(),
{
    if events.len() == 0 {
        Seq::empty()
    } else {
        let so_far = handed_out(kind, state, events.drop_last());
        match step(kind, after_all(kind, state, events.drop_last())).1 {
            Action::Poll(task) if events.last() is NextAction => so_far.push(task.1),
            _ => so_far,
        }
    }
}

/// The oldest task that is due is polled: the one that was queued before all others that are due,
/// by whichever way.
pub proof fn law_oldest_is_polled<F>(
    kind: Kind,
    state: CosyncState<F>,
    task: FutureObject<F>,
    other: CosyncTaskId,
)
    requires
        ordered(state),
        step(kind, state).1 == Action::Poll(task),
        due(state, other),
    ensures
        due(state, task.1),
        task.1.0 <= other.0,
{
    let incoming = state.queue.incoming;
    let n = state.pool.len() as int;
    assert forall|k: int| 0 <= k < n implies line(state)[k] == (#[trigger] state.pool[k]).id by {}
    assert forall|k: int| 0 <= k < incoming.len() implies line(state)[n + k] == (
    #[trigger] incoming[k]).1 by {}
    lemma_turn(state.pool);
    if next_turn(state.pool).1 is None {
        lemma_front_is_handed_out(kind, state, task);
        assert(state.queue.waits(task.1));
        let k = choose|k: int| 0 <= k < incoming.len() && (#[trigger] incoming[k]).1 == other;
        assert(line(state)[n + 0] == task.1 && line(state)[n + k] == other);
    } else {
        let i = choose|i: int|
            {
                &&& 0 <= i < n
                &&& can_be_polled(#[trigger] state.pool[i])
                &&& state.pool[i].id == task.1
                &&& state.pool[i].body == Body::Idle(task.0)
                &&& forall|k: int| 0 <= k < i ==> !can_be_polled(#[trigger] state.pool[k])
            };
        assert(awaits_turn(state.pool, task.1));
        assert(line(state)[i] == task.1);
        if awaits_turn(state.pool, other) {
            let k = choose|k: int|
                0 <= k < n && can_be_polled(#[trigger] state.pool[k]) && state.pool[k].id == other;
            assert(line(state)[k] == other && i <= k);
        } else {
            let k = choose|k: int| 0 <= k < incoming.len() && (#[trigger] incoming[k]).1 == other;
            assert(line(state)[n + k] == other);
        }
    }
}

/// A turn leaves alone all who await theirs, but for the one whose turn it is.
proof fn lemma_turn_keeps<F>(pool: Seq<PoolEntry<F>>, id: CosyncTaskId)
    requires
        awaits_turn(pool, id),
        next_turn(pool).1 matches Some(task) ==> task.1 != id,
    ensures
        awaits_turn(next_turn(pool).0, id),
    decreases pool.len(),
{
    let k = choose|k: int|
        0 <= k < pool.len() && can_be_polled(#[trigger] pool[k]) && pool[k].id == id;
    lemma_first_index(pool, runnable());
    let i = first_index(pool, runnable()) as int;
    if i < pool.len() {
        match pool[i].body {
            Body::Idle(_) => {
                assert(pool.update(i, started(pool[i]))[k] == pool[k]);
            },
            _ => {
                let rest = pool.remove(i);
                let m = if k < i { k } else { k - 1 };
                assert(rest[m] == pool[k]);
                lemma_turn_keeps(rest, id);
            },
        }
    }
}

/// A step leaves alone all who are due, but for the one that is handed out.
proof fn lemma_step_keeps_due<F>(kind: Kind, state: CosyncState<F>, id: CosyncTaskId)
    requires
        due(state, id),
        step(kind, state).1 matches Action::Poll(task) ==> task.1 != id,
    ensures
        due(step(kind, state).0, id),
{
    let incoming = state.queue.incoming;
    let kept = next_turn(state.pool).0;
    let joined = kept + all_entered(incoming);
    let next = step(kind, state).0;
    if awaits_turn(state.pool, id) {
        lemma_turn_keeps(state.pool, id);
        lemma_turn(state.pool);
        assert(next_turn(state.pool).1 is Some);
    } else if next_turn(state.pool).1 is None {
        let k = choose|k: int| 0 <= k < incoming.len() && (#[trigger] incoming[k]).1 == id;
        match kind {
            Kind::Concurrent => {
                assert(joined[kept.len() + k] == entered(incoming[k]));
                assert(awaits_turn(joined, id));
                lemma_turn_keeps(joined, id);
            },
            Kind::Serial => {
                if kept.len() == 0 {
                    assert(next.queue.incoming[k - 1] == incoming[k]);
                }
            },
        }
    }
}

/// Whatever happens in a run leaves a task due that is, unless it is handed out or unqueued.
proof fn lemma_event_keeps_due<F>(
    kind: Kind,
    state: CosyncState<F>,
    event: Event<F>,
    id: CosyncTaskId,
)
    requires
        due(state, id),
        in_run(event),
        event != Event::<F>::Unqueue(id),
        event is NextAction ==> (step(kind, state).1 matches Action::Poll(task) ==> task.1 != id),
    ensures
        due(after(kind, state, event), id),
{
    let next = after(kind, state, event);
    let incoming = state.queue.incoming;
    match event {
        Event::NextAction => {
            lemma_step_keeps_due(kind, state, id);
        },
        Event::FinishPoll(outcome) => {
            lemma_first_index(state.pool, polling());
            let i = first_index(state.pool, polling()) as int;
            if awaits_turn(state.pool, id) {
                let k = choose|k: int|
                    {
                        &&& 0 <= k < state.pool.len()
                        &&& can_be_polled(#[trigger] state.pool[k])
                        &&& state.pool[k].id == id
                    };
                let m = if i < state.pool.len() && outcome is Ready && k > i { k - 1 } else { k };
                assert(next.pool[m] == state.pool[k]);
            }
        },
        Event::Wake(_) => {
            if awaits_turn(state.pool, id) {
                let k = choose|k: int|
                    {
                        &&& 0 <= k < state.pool.len()
                        &&& can_be_polled(#[trigger] state.pool[k])
                        &&& state.pool[k].id == id
                    };
                assert(can_be_polled(next.pool[k]) && next.pool[k].id == id);
            }
        },
        Event::Queue(_) => {
            if !awaits_turn(state.pool, id) {
                let k = choose|k: int| 0 <= k < incoming.len() && (#[trigger] incoming[k]).1 == id;
                assert(next.queue.incoming[k] == incoming[k]);
            }
        },
        Event::Unqueue(removed) => {
            if !awaits_turn(state.pool, id) {
                let k = choose|k: int| 0 <= k < incoming.len() && (#[trigger] incoming[k]).1 == id;
                lemma_first_index(incoming, waits_as(removed));
                let i = first_index(incoming, waits_as(removed)) as int;
                if i < incoming.len() {
                    assert(i != k);
                    let m = if k < i { k } else { k - 1 };
                    assert(next.queue.incoming[m] == incoming[k]);
                }
            }
        },
        _ => {},
    }
}

/// A task that is due, and was not handed out meanwhile, is still due.
proof fn lemma_due_until_handed_out<F>(
    kind: Kind,
    state: CosyncState<F>,
    events: Seq<Event<F>>,
    id: CosyncTaskId,
)
    requires
        due(state, id),
        all_in_run(events),
        forall|i: int| 0 <= i < events.len() ==> #[trigger] events[i] != Event::<F>::Unqueue(id),
        !handed_out(kind, state, events).contains(id),
    ensures
        due(after_all(kind, state, events), id),
    decreases events.len(),
{
    if events.len() > 0 {
        let front = events.drop_last();
        let so_far = handed_out(kind, state, front);
        let all = handed_out(kind, state, events);
        assert(events.last() == events[events.len() - 1]);
        assert forall|i: int| 0 <= i < front.len() implies front[i] == events[i] by {}
        assert forall|i: int| 0 <= i < so_far.len() implies so_far[i] != id by {
            assert(all[i] == so_far[i]);
        }
        lemma_due_until_handed_out(kind, state, front, id);
        let before = after_all(kind, state, front);
        if events.last() is NextAction {
            match step(kind, before).1 {
                Action::Poll(task) => {
                    assert(all[so_far.len() as int] == task.1);
                },
                Action::Return(_) => {},
            }
        }
        lemma_event_keeps_due(kind, before, events.last(), id);
    }
}

/// A turn leaves every entry alone whose work is in the pool, but for the one whose turn it is.
proof fn lemma_turn_keeps_entry<F>(pool: Seq<PoolEntry<F>>, entry: PoolEntry<F>)
    requires
        pool.contains(entry),
        entry.body is Idle,
        next_turn(pool).1 matches Some(task) ==> task.1 != entry.id,
    ensures
        next_turn(pool).0.contains(entry),
    decreases pool.len(),
{
    let k = choose|k: int| 0 <= k < pool.len() && pool[k] == entry;
    lemma_first_index(pool, runnable());
    let i = first_index(pool, runnable()) as int;
    if i < pool.len() {
        match pool[i].body {
            Body::Idle(_) => {
                assert(pool.update(i, started(pool[i]))[k] == entry);
            },
            _ => {
                let rest = pool.remove(i);
                let m = if k < i { k } else { k - 1 };
                assert(rest[m] == entry);
                lemma_turn_keeps_entry(rest, entry);
            },
        }
    }
}

/// Whatever happens in a run leaves an entry alone whose work is in the pool, unless the task is
/// handed out, or woken where it had not asked to be polled.
pub proof fn lemma_event_keeps_entry<F>(
    kind: Kind,
    state: CosyncState<F>,
    event: Event<F>,
    entry: PoolEntry<F>,
)
    requires
        state.pool.contains(entry),
        entry.body is Idle,
        in_run(event),
        entry.ready || event != Event::<F>::Wake(entry.id),
        event is NextAction ==> (step(kind, state).1 matches Action::Poll(task) ==> task.1
            != entry.id),
    ensures
        after(kind, state, event).pool.contains(entry),
{
    let next = after(kind, state, event);
    let k = choose|k: int| 0 <= k < state.pool.len() && state.pool[k] == entry;
    match event {
        Event::NextAction => {
            lemma_turn_keeps_entry(state.pool, entry);
            if next_turn(state.pool).1 is None {
                let kept = next_turn(state.pool).0;
                let joined = kept + all_entered(state.queue.incoming);
                let m = choose|m: int| 0 <= m < kept.len() && kept[m] == entry;
                assert(joined[m] == entry);
                if kind is Concurrent {
                    lemma_turn_keeps_entry(joined, entry);
                }
            }
        },
        Event::FinishPoll(outcome) => {
            lemma_first_index(state.pool, polling());
            let i = first_index(state.pool, polling()) as int;
            let m = if i < state.pool.len() && outcome is Ready && k > i { k - 1 } else { k };
            assert(next.pool[m] == entry);
        },
        _ => {
            assert(next.pool[k] == entry);
        },
    }
}

/// Where it is no running task's turn, the front of the queue is handed out.
proof fn lemma_front_is_handed_out<F>(kind: Kind, state: CosyncState<F>, task: FutureObject<F>)
    requires
        next_turn(state.pool).1 is None,
        step(kind, state).1 == Action::Poll(task),
    ensures
        state.queue.incoming.len() > 0,
        task == state.queue.incoming[0],
{
    let incoming = state.queue.incoming;
    let kept = next_turn(state.pool).0;
    let joined = kept + all_entered(incoming);
    if kind is Concurrent {
        lemma_turn(state.pool);
        lemma_turn(joined);
        assert forall|k: int| 0 <= k < kept.len() implies !can_be_polled(#[trigger] joined[k]) by {
            assert(joined[k] == kept[k]);
        }
        if incoming.len() > 0 {
            assert(joined[kept.len() as int] == entered(incoming[0]));
            assert(can_be_polled(joined[kept.len() as int]));
        }
    }
}

/// A task that cannot be polled in the present run is not handed out.
pub proof fn lemma_not_handed_out<F>(kind: Kind, state: CosyncState<F>, entry: PoolEntry<F>)
    requires
        numbered(state),
        state.pool.contains(entry),
        !can_be_polled(entry),
    ensures
        step(kind, state).1 matches Action::Poll(task) ==> task.1 != entry.id,
{
    let k = choose|k: int| 0 <= k < state.pool.len() && state.pool[k] == entry;
    let n = state.pool.len() as int;
    assert(line(state)[k] == entry.id);
    if let Action::Poll(task) = step(kind, state).1 {
        lemma_turn(state.pool);
        if next_turn(state.pool).1 is None {
            lemma_front_is_handed_out(kind, state, task);
            assert(line(state)[n] == task.1);
        } else {
            let i = choose|i: int|
                {
                    &&& 0 <= i < n
                    &&& can_be_polled(#[trigger] state.pool[i])
                    &&& state.pool[i].id == task.1
                    &&& state.pool[i].body == Body::Idle(task.0)
                    &&& forall|k: int| 0 <= k < i ==> !can_be_polled(#[trigger] state.pool[k])
                };
            assert(line(state)[i] == task.1);
        }
    }
}

/// A running task that has not asked to be polled, and is not woken in a run, is not polled in it,
/// and stays as it is, whatever else happens.
pub proof fn law_asleep_task_is_left_alone<F>(
    kind: Kind,
    state: CosyncState<F>,
    entry: PoolEntry<F>,
    events: Seq<Event<F>>,
)
    requires
        numbered(state),
        state.queue.counter + named(events) <= u64::MAX,
        state.pool.contains(entry),
        !entry.ready,
        entry.body is Idle,
        all_in_run(events),
        forall|i: int| 0 <= i < events.len() ==> #[trigger] events[i] != Event::<F>::Wake(entry.id),
    ensures
        ({
            let begun = after(kind, state, Event::BeginRun);
            &&& !handed_out(kind, begun, events).contains(entry.id)
            &&& after_all(kind, begun, events).pool.contains(ticked(entry))
        }),
    decreases events.len(),
{
    let begun = after(kind, state, Event::BeginRun);
    assert(line(begun) =~= line(state));
    if events.len() == 0 {
        let k = choose|k: int| 0 <= k < state.pool.len() && state.pool[k] == entry;
        assert(begun.pool[k] == ticked(entry));
    } else {
        let front = events.drop_last();
        let before = after_all(kind, begun, front);
        assert(events.last() == events[events.len() - 1]);
        assert forall|i: int| 0 <= i < front.len() implies front[i] == events[i] by {}
        law_asleep_task_is_left_alone(kind, state, entry, front);
        law_ids_are_distinct(kind, begun, front);
        lemma_not_handed_out(kind, before, ticked(entry));
        lemma_event_keeps_entry(kind, before, events.last(), ticked(entry));
        let so_far = handed_out(kind, begun, front);
        assert forall|i: int| 0 <= i < handed_out(kind, begun, events).len() implies handed_out(
            kind,
            begun,
            events,
        )[i] != entry.id by {
            assert(i < so_far.len() ==> handed_out(kind, begun, events)[i] == so_far[i]);
        }
    }
}

/// Every task that was running when a run begins and has asked to be polled is due in it, and so
/// is every task that was waiting.
pub proof fn law_due_when_a_run_begins<F>(kind: Kind, state: CosyncState<F>, id: CosyncTaskId)
    requires
        state.queue.waits(id) || exists|k: int|
            {
                &&& 0 <= k < state.pool.len()
                &&& (#[trigger] state.pool[k]).id == id
                &&& state.pool[k].ready
                &&& state.pool[k].body is Idle
            },
    ensures
        due(after(kind, state, Event::BeginRun), id),
{
    let begun = after(kind, state, Event::BeginRun);
    let incoming = state.queue.incoming;
    if state.queue.waits(id) {
        let k = choose|k: int| 0 <= k < incoming.len() && (#[trigger] incoming[k]).1 == id;
        match kind {
            Kind::Concurrent => {
                let m = state.pool.len() + k;
                assert(state.drained().pool[m] == entered(incoming[k]));
                assert(can_be_polled(begun.pool[m]) && begun.pool[m].id == id);
            },
            Kind::Serial => {
                assert(begun.queue.incoming[k] == incoming[k]);
            },
        }
    } else {
        let k = choose|k: int|
            {
                &&& 0 <= k < state.pool.len()
                &&& (#[trigger] state.pool[k]).id == id
                &&& state.pool[k].ready
                &&& state.pool[k].body is Idle
            };
        assert(can_be_polled(begun.pool[k]) && begun.pool[k].id == id);
    }
}

/// A task that is queued in the course of a run is due in it.
pub proof fn law_due_when_queued<F>(kind: Kind, state: CosyncState<F>, task: F)
    ensures
        due(after(kind, state, Event::Queue(task)), state.queue.next_id()),
{
    let next = after(kind, state, Event::Queue(task));
    assert(next.queue.incoming[state.queue.incoming.len() as int].1 == state.queue.next_id());
}

/// In a run no task is polled twice.
pub proof fn law_no_task_is_handed_out_twice<F>(
    kind: Kind,
    state: CosyncState<F>,
    events: Seq<Event<F>>,
)
    requires
        ordered(state),
        all_in_run(events),
        state.queue.counter + named(events) <= u64::MAX,
    ensures
        handed_out(kind, state, events).no_duplicates(),
    decreases events.len(),
{
    if events.len() > 0 {
        let front = events.drop_last();
        let before = after_all(kind, state, front);
        let so_far = handed_out(kind, state, front);
        assert forall|i: int| 0 <= i < front.len() implies front[i] == events[i] by {}
        law_no_task_is_handed_out_twice(kind, state, front);
        if events.last() is NextAction {
            match step(kind, before).1 {
                Action::Poll(task) => {
                    assert forall|i: int| 0 <= i < so_far.len() implies so_far[i] != task.1 by {
                        lemma_not_again(kind, state, front, i);
                    }
                },
                Action::Return(_) => {},
            }
        }
    }
}

/// The event in which a task was handed out.
proof fn lemma_when_handed_out<F>(
    kind: Kind,
    state: CosyncState<F>,
    events: Seq<Event<F>>,
    i: int,
) -> (e: int)
    requires
        0 <= i < handed_out(kind, state, events).len(),
    ensures
        0 <= e < events.len(),
        events[e] is NextAction,
        step(kind, after_all(kind, state, events.take(e))).1 is Poll,
        step(kind, after_all(kind, state, events.take(e))).1->Poll_0.1 == handed_out(
            kind,
            state,
            events,
        )[i],
        handed_out(kind, state, events.take(e)) == handed_out(kind, state, events).take(i),
    decreases events.len(),
{
    let front = events.drop_last();
    let so_far = handed_out(kind, state, front);
    let all = handed_out(kind, state, events);
    assert(front =~= events.take(events.len() - 1));
    if i < so_far.len() {
        let e = lemma_when_handed_out(kind, state, front, i);
        assert(front.take(e) =~= events.take(e));
        assert(all.take(i) =~= so_far.take(i));
        e
    } else {
        assert(all.take(i) =~= so_far);
        events.len() - 1
    }
}

/// The state after some events, by way of the state after the first of them.
proof fn lemma_after_split<F>(kind: Kind, state: CosyncState<F>, events: Seq<Event<F>>, e: int)
    requires
        0 <= e <= events.len(),
    ensures
        after_all(kind, state, events) == after_all(
            kind,
            after_all(kind, state, events.take(e)),
            events.skip(e),
        ),
        named(events) == named(events.take(e)) + named(events.skip(e)),
    decreases events.len() - e,
{
    if e == events.len() {
        assert(events.take(e) =~= events);
        assert(events.skip(e) =~= Seq::empty());
    } else {
        let front = events.drop_last();
        lemma_after_split(kind, state, front, e);
        assert(front.take(e) =~= events.take(e));
        assert(front.skip(e) =~= events.skip(e).drop_last());
        assert(events.skip(e).last() == events.last());
    }
}

/// What was handed out is not handed out by the step that follows all the events.
proof fn lemma_not_again<F>(kind: Kind, state: CosyncState<F>, events: Seq<Event<F>>, i: int)
    requires
        ordered(state),
        all_in_run(events),
        state.queue.counter + named(events) <= u64::MAX,
        0 <= i < handed_out(kind, state, events).len(),
    ensures
        step(kind, after_all(kind, state, events)).1 matches Action::Poll(task) ==> task.1
            != handed_out(kind, state, events)[i],
{
    let e = lemma_when_handed_out(kind, state, events, i);
    let before = after_all(kind, state, events.take(e));
    let rest = events.skip(e + 1);
    lemma_after_split(kind, state, events, e);
    lemma_after_split(kind, before, events.skip(e), 1);
    let one = events.skip(e).take(1);
    assert(one =~= seq![events[e]]);
    assert(one.drop_last() =~= Seq::empty());
    assert(after_all(kind, before, one.drop_last()) == before);
    assert(after_all(kind, before, one) == step(kind, before).0);
    assert(events.skip(e).skip(1) =~= rest);
    law_counter_counts_tasks(kind, state, events.take(e));
    law_line_is_in_order_of_queueing(kind, state, events.take(e));
    lemma_ordered_is_numbered(before);
    assert forall|k: int| 0 <= k < rest.len() implies (#[trigger] rest[k]) !is BeginRun by {
        assert(in_run(events[e + 1 + k]));
    }
    law_polled_once_per_run(kind, before, step(kind, before).1->Poll_0, rest);
}

/// In a run every task that is due is polled exactly once before the run ends, whatever is woken,
/// queued or unqueued meanwhile, unless the task itself is unqueued. A serial run may also end
/// before that, because a task is pending.
pub proof fn law_due_task_is_polled_once<F>(
    kind: Kind,
    state: CosyncState<F>,
    events: Seq<Event<F>>,
    id: CosyncTaskId,
)
    requires
        ordered(state),
        state.queue.counter + named(events) <= u64::MAX,
        due(state, id),
        all_in_run(events),
        forall|i: int| 0 <= i < events.len() ==> #[trigger] events[i] != Event::<F>::Unqueue(id),
        match step(kind, after_all(kind, state, events)).1 {
            Action::Return(poll) => kind is Concurrent || poll == Poll::Ready,
            Action::Poll(_) => false,
        },
    ensures
        handed_out(kind, state, events).contains(id),
        handed_out(kind, state, events).no_duplicates(),
{
    law_no_task_is_handed_out_twice(kind, state, events);
    if !handed_out(kind, state, events).contains(id) {
        let end = after_all(kind, state, events);
        lemma_due_until_handed_out(kind, state, events, id);
        lemma_turn(end.pool);
        let kept = next_turn(end.pool).0;
        let joined = kept + all_entered(end.queue.incoming);
        if awaits_turn(end.pool, id) {
            assert(next_turn(end.pool).1 is Some);
        } else {
            let k = choose|k: int|
                0 <= k < end.queue.incoming.len() && (#[trigger] end.queue.incoming[k]).1 == id;
            if kind is Concurrent {
                lemma_turn(joined);
                assert(joined[kept.len() + k] == entered(end.queue.incoming[k]));
                assert(can_be_polled(joined[kept.len() + k]));
            }
        }
    }
}

/// In a run the tasks that are due are polled in the order in which they were queued, whatever is
/// woken, queued or unqueued meanwhile: before any task is polled, every older one that was due has
/// been, unless that one was unqueued.
pub proof fn law_due_tasks_are_polled_in_order<F>(
    kind: Kind,
    state: CosyncState<F>,
    events: Seq<Event<F>>,
    older: CosyncTaskId,
    j: int,
)
    requires
        ordered(state),
        state.queue.counter + named(events) <= u64::MAX,
        due(state, older),
        all_in_run(events),
        forall|i: int|
            0 <= i < events.len() ==> #[trigger] events[i] != Event::<F>::Unqueue(older),
        0 <= j < handed_out(kind, state, events).len(),
        older.0 < handed_out(kind, state, events)[j].0,
    ensures
        handed_out(kind, state, events).take(j).contains(older),
{
    let e = lemma_when_handed_out(kind, state, events, j);
    let part = events.take(e);
    let before = after_all(kind, state, part);
    lemma_after_split(kind, state, events, e);
    assert forall|i: int| 0 <= i < part.len() implies in_run(#[trigger] part[i]) && part[i]
        != Event::<F>::Unqueue(older) by {
        assert(part[i] == events[i]);
    }
    if !handed_out(kind, state, part).contains(older) {
        lemma_due_until_handed_out(kind, state, part, older);
        law_line_is_in_order_of_queueing(kind, state, part);
        law_oldest_is_polled(kind, before, step(kind, before).1->Poll_0, older);
    }
}

} // verus!
