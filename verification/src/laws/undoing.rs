//! What undoes what, and what leaves what alone.

use crate::handle::{queued_in, unqueued_in, TaskQueue};
use crate::laws::any_run::{due, law_due_when_a_run_begins};
use crate::laws::events::{after, after_all, named, step, Event, Kind};
use crate::laws::ids::{law_queued_back_is_last, line, numbered};
use crate::laws::runs::law_gone_task_never_comes_back;
use crate::pool::{all_entered, runnable, runs, runs_as, Poll, PoolEntry};
use crate::queue::{waits_as, FutureObject};
use crate::seqs::{first_index, lemma_first_index, lemma_first_index_is};
use crate::state::{Action, CosyncState};
use crate::task_id::CosyncTaskId;
use vstd::prelude::*;

verus! {

/// Unqueueing a task that was just put at the back of the queue undoes that, but for the identifier
/// that was used up.
pub proof fn law_unqueue_undoes_queue<F>(state: CosyncState<F>, task: F)
    requires
        !state.queue.waits(state.queue.next_id()),
    ensures
        ({
            let id = state.queue.next_id();
            let queued = state.queued_back(task);
            &&& queued.queue.waits(id)
            &&& queued.unqueued(id) == (CosyncState {
                pool: state.pool,
                queue: state.queue.counted(),
            })
        }),
{
    let id = state.queue.next_id();
    let incoming = state.queued_back(task).queue.incoming;
    let n = state.queue.incoming.len() as int;
    assert(incoming[n].1 == id);
    assert forall|k: int| 0 <= k < n implies !waits_as::<F>(id)(#[trigger] incoming[k]) by {
        assert(incoming[k] == state.queue.incoming[k]);
    }
    lemma_first_index_is(incoming, waits_as(id), n);
    assert(incoming.remove(n) =~= state.queue.incoming);
    assert(state.queued_back(task).unqueued(id) =~= CosyncState {
        pool: state.pool,
        queue: state.queue.counted(),
    });
}

/// Where no two tasks share an identifier, an unqueued task waits no more, and every other task
/// that waits still does. What runs is left alone.
pub proof fn law_unqueue_takes_one_task<F>(
    state: CosyncState<F>,
    id: CosyncTaskId,
    other: CosyncTaskId,
)
    requires
        numbered(state),
    ensures
        !state.unqueued(id).queue.waits(id),
        other != id ==> state.unqueued(id).queue.waits(other) == state.queue.waits(other),
        state.unqueued(id).pool == state.pool,
{
    let incoming = state.queue.incoming;
    let rest = state.unqueued(id).queue.incoming;
    lemma_first_index(incoming, waits_as(id));
    let i = first_index(incoming, waits_as(id)) as int;
    assert forall|k: int| 0 <= k < incoming.len() implies (#[trigger] incoming[k]).1 == line(
        state,
    )[state.pool.len() + k] by {}
    if i < incoming.len() {
        assert forall|k: int| 0 <= k < rest.len() implies (#[trigger] rest[k]).1 != id by {
            let m = if k < i { k } else { k + 1 };
            assert(rest[k] == incoming[m]);
            assert(incoming[m].1 != incoming[i].1);
        }
        if other != id {
            if state.queue.waits(other) {
                let k = choose|k: int| 0 <= k < incoming.len() && (#[trigger] incoming[k]).1
                    == other;
                let m = if k < i { k } else { k - 1 };
                assert(rest[m] == incoming[k]);
            }
            if state.unqueued(id).queue.waits(other) {
                let k = choose|k: int| 0 <= k < rest.len() && (#[trigger] rest[k]).1 == other;
                let m = if k < i { k } else { k + 1 };
                assert(rest[k] == incoming[m]);
            }
        }
    } else {
        assert forall|k: int| 0 <= k < rest.len() implies (#[trigger] rest[k]).1 != id by {
            assert(!waits_as::<F>(id)(incoming[k]));
        }
    }
}

/// Stopping a task leaves every other task as it is, and nobody moves in line. The stopped task
/// itself still counts as running until it has its turn.
pub proof fn law_stop_leaves_others_alone<F>(state: CosyncState<F>, id: CosyncTaskId, k: int)
    requires
        0 <= k < state.pool.len(),
    ensures
        line(state.stopped(id)) == line(state),
        state.stopped(id).queue == state.queue,
        state.pool[k].id != id ==> state.stopped(id).pool[k] == state.pool[k],
        runs(state.stopped(id).pool, id) == runs(state.pool, id),
{
    lemma_first_index(state.pool, runs_as(id));
    let next = state.stopped(id).pool;
    assert(line(state.stopped(id)) =~= line(state));
    assert forall|m: int| 0 <= m < next.len() implies (#[trigger] next[m]).id
        == state.pool[m].id by {}
    if runs(state.pool, id) {
        let m = choose|m: int| 0 <= m < state.pool.len() && (#[trigger] state.pool[m]).id == id;
        assert(next[m].id == id);
    }
    if runs(next, id) {
        let m = choose|m: int| 0 <= m < next.len() && (#[trigger] next[m]).id == id;
        assert(state.pool[m].id == id);
    }
}

/// A cosync that was cleared has nothing to do, and goes on to give out identifiers where it was.
pub proof fn law_cleared_has_nothing_to_do<F>(state: CosyncState<F>)
    ensures
        state.cleared().concurrent_step() == (
            state.cleared(),
            Action::<F>::Return(Poll::Ready),
        ),
        state.cleared().serial_step() == (state.cleared(), Action::<F>::Return(Poll::Ready)),
        state.cleared().queue.next_id() == state.queue.next_id(),
        state.cleared() == state.cleared_running().cleared_queue(),
        state.cleared() == state.cleared_queue().cleared_running(),
{
    let none = Seq::<PoolEntry<F>>::empty();
    lemma_first_index(none, runnable());
    let waiting = state.cleared().queue.incoming;
    assert(none + all_entered(waiting) =~= none);
    assert(state.cleared().concurrent_step().0 =~= state.cleared());
}

/// No task that was there when a cosync was cleared ever comes back or is polled.
pub proof fn law_cleared_tasks_never_come_back<F>(
    kind: Kind,
    state: CosyncState<F>,
    id: CosyncTaskId,
    events: Seq<Event<F>>,
)
    requires
        numbered(state),
        line(state).contains(id),
        state.queue.counter + named(events) <= u64::MAX,
    ensures
        !line(after_all(kind, state.cleared(), events)).contains(id),
        step(kind, after_all(kind, state.cleared(), events)).1 matches Action::Poll(task)
            ==> task.1 != id,
{
    let k = choose|k: int| 0 <= k < line(state).len() && line(state)[k] == id;
    assert(line(state)[k].0 < state.queue.counter);
    assert(line(state.cleared()) =~= Seq::empty());
    law_gone_task_never_comes_back(kind, state.cleared(), id, events);
}

/// A cosync that was cleared takes tasks as before: a new one gets an identifier greater than all
/// there were, and is due in the next run.
pub proof fn law_cleared_cosync_takes_tasks<F>(
    kind: Kind,
    state: CosyncState<F>,
    task: F,
    id: CosyncTaskId,
)
    requires
        numbered(state),
        line(state).contains(id),
    ensures
        id.0 < state.cleared().queue.next_id().0,
        due(
            after(kind, state.cleared().queued_back(task), Event::BeginRun),
            state.cleared().queue.next_id(),
        ),
{
    let k = choose|k: int| 0 <= k < line(state).len() && line(state)[k] == id;
    assert(line(state)[k].0 < state.queue.counter);
    let queued = state.cleared().queued_back(task);
    let new = state.cleared().queue.next_id();
    assert(queued.queue.incoming[0].1 == new);
    law_due_when_a_run_begins(kind, queued, new);
}

/// Once a cosync is dropped, nothing can be queued or unqueued through its handles any more.
pub proof fn law_dropped_cosync_takes_no_tasks<C: TaskQueue>(
    task: C::Task,
    task_id: CosyncTaskId,
    after: Option<C>,
    id: Result<CosyncTaskId, C::Task>,
    taken: Option<Option<FutureObject<C::Task>>>,
)
    ensures
        queued_in(None::<C>, task, after, id) ==> id is Err && after is None,
        unqueued_in(None::<C>, task_id, after, taken) ==> taken is None && after is None,
{
}

/// As long as a cosync is there, everything that is queued through its handles is taken: it comes
/// to the back of the queue.
pub proof fn law_handle_queues_at_the_back<C: TaskQueue>(
    cosync: C,
    task: C::Task,
    after: Option<C>,
    id: Result<CosyncTaskId, C::Task>,
)
    requires
        queued_in(Some(cosync), task, after, id),
    ensures
        id == Ok::<CosyncTaskId, C::Task>(cosync.state().queue.next_id()),
        after is Some,
        line(after->0.state()) == line(cosync.state()).push(cosync.state().queue.next_id()),
{
    law_queued_back_is_last(cosync.state(), task);
}

} // verus!
