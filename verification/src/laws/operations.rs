//! What each operation changes, and what it leaves as it was.

use crate::laws::any_run::{due, law_due_when_a_run_begins};
use crate::laws::events::{after, Event, Kind};
use crate::laws::ids::{line, pool_ids, queue_ids};
use crate::laws::turns::{can_be_polled, lemma_turn, one_at_a_time};
use crate::pool::{
    all_entered, is_polling, is_runnable, next_turn, polling, runnable, runs, runs_as, started,
    Body, Outcome, Poll, PoolEntry,
};
use crate::queue::{waits_as, FutureObject, QueueState};
use crate::seqs::{first_index, lemma_first_index, lemma_first_index_is};
use crate::state::{Action, CosyncState};
use crate::task_id::CosyncTaskId;
use core::cmp::Ordering;
use vstd::prelude::*;
use vstd::std_specs::cmp::PartialOrdSpec;

verus! {

/// A new cosync has no task, and its first identifier is 0.
pub proof fn law_new_cosync_has_nothing<F>()
    ensures
        CosyncState::<F>::initial().pool.len() == 0,
        CosyncState::<F>::initial().queue.incoming.len() == 0,
        CosyncState::<F>::initial().queue.next_id() == CosyncTaskId(0),
{
}

/// Identifiers compare by their numbers, so an older task has the lesser one as long as they have
/// not come around.
pub proof fn law_ids_compare_by_number(a: CosyncTaskId, b: CosyncTaskId)
    ensures
        a.0 < b.0 ==> a.partial_cmp_spec(&b) == Some(Ordering::Less),
        a.0 > b.0 ==> a.partial_cmp_spec(&b) == Some(Ordering::Greater),
        a.0 == b.0 ==> a.partial_cmp_spec(&b) == Some(Ordering::Equal),
{
}

/// To give out an identifier leaves the tasks that wait alone, and goes on to the next number, or
/// to 0 after the greatest.
pub proof fn law_identifiers_go_on<F>(queue: QueueState<F>)
    ensures
        queue.next_id().0 == queue.counter,
        queue.counted().incoming == queue.incoming,
        queue.counter < u64::MAX ==> queue.counted().counter == queue.counter + 1,
        queue.counter == u64::MAX ==> queue.counted().counter == 0,
{
}

/// Queueing puts the task behind all that wait, under the number of the counter, and the counter
/// goes on. All else stays as it was.
pub proof fn law_queueing_adds_one_task<F>(state: CosyncState<F>, task: F, i: int)
    ensures
        ({
            let next = state.queued_back(task);
            let n = state.queue.incoming.len();
            &&& next.pool == state.pool
            &&& next.queue.incoming.len() == n + 1
            &&& 0 <= i < n ==> next.queue.incoming[i] == state.queue.incoming[i]
            &&& next.queue.incoming[n as int] == FutureObject(
                task,
                CosyncTaskId(state.queue.counter),
            )
            &&& state.queue.counter < u64::MAX ==> next.queue.counter == state.queue.counter + 1
            &&& state.queue.counter == u64::MAX ==> next.queue.counter == 0
        }),
{
}

/// A task runs if and only if its identifier is among those of the pool, and waits if and only if
/// it is among those of the queue.
pub proof fn law_running_or_waiting<F>(state: CosyncState<F>, id: CosyncTaskId)
    ensures
        runs(state.pool, id) == pool_ids(state.pool).contains(id),
        state.queue.waits(id) == queue_ids(state.queue.incoming).contains(id),
        line(state).contains(id) == (runs(state.pool, id) || state.queue.waits(id)),
{
    let pool = state.pool;
    let incoming = state.queue.incoming;
    if runs(pool, id) {
        let k = choose|k: int| 0 <= k < pool.len() && (#[trigger] pool[k]).id == id;
        assert(pool_ids(pool)[k] == id);
        assert(line(state)[k] == id);
    }
    if state.queue.waits(id) {
        let k = choose|k: int| 0 <= k < incoming.len() && (#[trigger] incoming[k]).1 == id;
        assert(queue_ids(incoming)[k] == id);
        assert(line(state)[pool.len() + k] == id);
    }
    if pool_ids(pool).contains(id) {
        let k = choose|k: int| 0 <= k < pool.len() && pool_ids(pool)[k] == id;
        assert(pool[k].id == id);
    }
    if queue_ids(incoming).contains(id) {
        let k = choose|k: int| 0 <= k < incoming.len() && queue_ids(incoming)[k] == id;
        assert(incoming[k].1 == id);
    }
    if line(state).contains(id) {
        let k = choose|k: int| 0 <= k < line(state).len() && line(state)[k] == id;
        if k < pool.len() {
            assert(pool[k].id == id);
        } else {
            assert(incoming[k - pool.len()].1 == id);
        }
    }
}

/// Unqueueing takes out exactly one task, the first that waits under the identifier, and hands out
/// that one. Those before it and those behind it stay in their order, and so do the running tasks
/// and the counter. Where none waits under the identifier, nothing changes.
pub proof fn law_unqueueing_takes_the_first<F>(state: CosyncState<F>, id: CosyncTaskId, j: int)
    ensures
        ({
            let old_line = state.queue.incoming;
            let next = state.unqueued(id);
            &&& next.pool == state.pool
            &&& next.queue.counter == state.queue.counter
            &&& !state.queue.waits(id) ==> next == state && state.queue.waiting(id) is None
            &&& state.queue.waits(id) ==> exists|i: int|
                {
                    &&& 0 <= i < old_line.len()
                    &&& (#[trigger] old_line[i]).1 == id
                    &&& forall|k: int| 0 <= k < i ==> (#[trigger] old_line[k]).1 != id
                    &&& state.queue.waiting(id) == Some(old_line[i])
                    &&& next.queue.incoming.len() == old_line.len() - 1
                    &&& 0 <= j < i ==> next.queue.incoming[j] == old_line[j]
                    &&& i < j < old_line.len() ==> next.queue.incoming[j - 1] == old_line[j]
                }
        }),
{
    let old_line = state.queue.incoming;
    lemma_first_index(old_line, waits_as(id));
    let i = first_index(old_line, waits_as(id)) as int;
    if i < old_line.len() {
        assert(old_line[i].1 == id);
        assert forall|k: int| 0 <= k < i implies (#[trigger] old_line[k]).1 != id by {
            assert(!waits_as::<F>(id)(old_line[k]));
        }
    } else {
        assert forall|k: int| 0 <= k < old_line.len() implies (#[trigger] old_line[k]).1 != id by {
            assert(!waits_as::<F>(id)(old_line[k]));
        }
        assert(state.unqueued(id) =~= state);
    }
}

/// Stopping takes away the work of the first task that runs under the identifier. The task keeps
/// its place, and what it has asked for: it is polled no more, but its turn comes as it would have.
/// All other tasks stay as they were, and where none runs under the identifier, nothing changes.
pub proof fn law_stopping_takes_away_the_work<F>(state: CosyncState<F>, id: CosyncTaskId, k: int)
    requires
        0 <= k < state.pool.len(),
    ensures
        ({
            let entry = state.pool[k];
            let next = state.stopped(id);
            let first = entry.id == id && forall|m: int|
                0 <= m < k ==> (#[trigger] state.pool[m]).id != id;
            &&& next.queue == state.queue
            &&& next.pool.len() == state.pool.len()
            &&& !first ==> next.pool[k] == entry
            &&& first ==> {
                &&& next.pool[k].body is Stopped
                &&& next.pool[k].id == entry.id
                &&& next.pool[k].ready == entry.ready
                &&& next.pool[k].polled == entry.polled
            }
        }),
{
    lemma_first_index(state.pool, runs_as(id));
    let i = first_index(state.pool, runs_as(id)) as int;
    assert forall|m: int| 0 <= m < i implies (#[trigger] state.pool[m]).id != id by {
        assert(!runs_as::<F>(id)(state.pool[m]));
    }
    if i < state.pool.len() {
        assert(state.pool[i].id == id);
    }
}

/// Waking a task lets it ask to be polled. Its work and its place stay as they were, and so does
/// every other task.
pub proof fn law_waking_changes_one_task<F>(state: CosyncState<F>, id: CosyncTaskId, k: int)
    requires
        0 <= k < state.pool.len(),
    ensures
        ({
            let entry = state.pool[k];
            let next = state.woken(id);
            &&& next.queue == state.queue
            &&& next.pool.len() == state.pool.len()
            &&& entry.id != id ==> next.pool[k] == entry
            &&& entry.id == id ==> {
                &&& next.pool[k].ready
                &&& next.pool[k].id == entry.id
                &&& next.pool[k].body == entry.body
                &&& next.pool[k].polled == entry.polled
            }
        }),
{
}

/// A running task that was woken is due in the next run; and in the present one, if it was not
/// polled in it yet.
pub proof fn law_woken_task_is_due<F>(kind: Kind, state: CosyncState<F>, k: int)
    requires
        0 <= k < state.pool.len(),
        state.pool[k].body is Idle,
    ensures
        due(after(kind, state.woken(state.pool[k].id), Event::BeginRun), state.pool[k].id),
        !state.pool[k].polled ==> due(state.woken(state.pool[k].id), state.pool[k].id),
{
    let id = state.pool[k].id;
    let next = state.woken(id);
    law_waking_changes_one_task(state, id, k);
    assert(next.pool[k].id == id && next.pool[k].ready && next.pool[k].body is Idle);
    law_due_when_a_run_begins(kind, next, id);
    if !state.pool[k].polled {
        assert(can_be_polled(next.pool[k]));
    }
}

/// To drop the running tasks leaves the queue as it was: the same tasks wait, in the same order,
/// and the identifiers go on where they were. This is how a `SerialCosync` stops its task.
pub proof fn law_dropping_running_tasks_leaves_the_queue<F>(state: CosyncState<F>, id: CosyncTaskId)
    ensures
        state.cleared_running().pool.len() == 0,
        state.cleared_running().queue.incoming == state.queue.incoming,
        state.cleared_running().queue.counter == state.queue.counter,
        state.cleared_running().queue.waits(id) == state.queue.waits(id),
        line(state.cleared_running()) == line(state).skip(state.pool.len() as int),
{
    assert(line(state.cleared_running()) =~= line(state).skip(state.pool.len() as int));
}

/// A `SerialCosync` whose task was stopped goes on with the task that had waited longest.
pub proof fn law_next_task_goes_on_after_a_stop<F>(state: CosyncState<F>)
    requires
        state.queue.incoming.len() > 0,
    ensures
        after(
            Kind::Serial,
            after(Kind::Serial, state, Event::Stop(CosyncTaskId(0))),
            Event::BeginRun,
        ).serial_step().1 == Action::Poll(state.queue.incoming[0]),
{
    let begun = after(
        Kind::Serial,
        after(Kind::Serial, state, Event::Stop(CosyncTaskId(0))),
        Event::BeginRun,
    );
    assert(begun.pool =~= Seq::empty());
    lemma_first_index(begun.pool, runnable());
}

/// To drop the tasks that wait leaves the running tasks as they were, with their work and what they
/// have asked for, so that each goes on as it would have. The identifiers go on where they were.
pub proof fn law_dropping_waiting_tasks_leaves_the_running<F>(
    kind: Kind,
    state: CosyncState<F>,
    id: CosyncTaskId,
    k: int,
)
    ensures
        state.cleared_queue().pool == state.pool,
        state.cleared_queue().queue.incoming.len() == 0,
        state.cleared_queue().queue.counter == state.queue.counter,
        !state.cleared_queue().queue.waits(id),
        line(state.cleared_queue()) == line(state).take(state.pool.len() as int),
        0 <= k < state.pool.len() && state.pool[k].ready && state.pool[k].body is Idle ==> due(
            after(kind, state.cleared_queue(), Event::BeginRun),
            state.pool[k].id,
        ),
{
    let next = state.cleared_queue();
    assert(line(next) =~= line(state).take(state.pool.len() as int));
    if 0 <= k < state.pool.len() && state.pool[k].ready && state.pool[k].body is Idle {
        assert(next.pool[k].id == state.pool[k].id);
        law_due_when_a_run_begins(kind, next, state.pool[k].id);
    }
}

/// To drop all tasks leaves none, and the identifiers go on where they were.
pub proof fn law_dropping_all_tasks_leaves_none<F>(state: CosyncState<F>, id: CosyncTaskId)
    ensures
        state.cleared().pool.len() == 0,
        state.cleared().queue.incoming.len() == 0,
        state.cleared().queue.counter == state.queue.counter,
        !line(state.cleared()).contains(id),
{
}

/// When a run of a `Cosync` begins, the tasks that waited come into the pool behind those that run,
/// in their order, each with its work and identifier, and asking to be polled. Those that run stay
/// as they were, but may be polled once more. No task waits any more.
pub proof fn law_run_begins_with_all_tasks<F>(state: CosyncState<F>, k: int)
    ensures
        ({
            let begun = after(Kind::Concurrent, state, Event::BeginRun);
            let n = state.pool.len();
            &&& begun.queue.incoming.len() == 0
            &&& begun.queue.counter == state.queue.counter
            &&& begun.pool.len() == n + state.queue.incoming.len()
            &&& 0 <= k < n ==> {
                &&& begun.pool[k].id == state.pool[k].id
                &&& begun.pool[k].body == state.pool[k].body
                &&& begun.pool[k].ready == state.pool[k].ready
                &&& !begun.pool[k].polled
            }
            &&& 0 <= k < state.queue.incoming.len() ==> {
                &&& begun.pool[n + k].id == state.queue.incoming[k].1
                &&& begun.pool[n + k].body == Body::Idle(state.queue.incoming[k].0)
                &&& begun.pool[n + k].ready
                &&& !begun.pool[n + k].polled
            }
        }),
{
}

/// When a run of a `SerialCosync` begins, the task that runs may be polled once more. All else
/// stays as it was.
pub proof fn law_serial_run_begins<F>(state: CosyncState<F>, k: int)
    ensures
        ({
            let begun = after(Kind::Serial, state, Event::BeginRun);
            &&& begun.queue == state.queue
            &&& begun.pool.len() == state.pool.len()
            &&& 0 <= k < state.pool.len() ==> {
                &&& begun.pool[k].id == state.pool[k].id
                &&& begun.pool[k].body == state.pool[k].body
                &&& begun.pool[k].ready == state.pool[k].ready
                &&& !begun.pool[k].polled
            }
        }),
{
}

/// When a task comes back from being polled, it leaves the pool if it is complete, and otherwise
/// its work is in its old place again, with what it has asked for meanwhile. All others stay as
/// they were, in their order, and so does the queue. Where no task is out, nothing changes.
pub proof fn law_only_the_task_that_is_out_comes_back<F>(
    state: CosyncState<F>,
    outcome: Outcome<F>,
    j: int,
)
    ensures
        ({
            let pool = state.pool;
            let next = state.finished(outcome);
            &&& next.queue == state.queue
            &&& !is_polling(pool) ==> next == state
            &&& is_polling(pool) ==> exists|i: int|
                {
                    &&& 0 <= i < pool.len()
                    &&& (#[trigger] pool[i]).body is Polling
                    &&& forall|k: int| 0 <= k < i ==> (#[trigger] pool[k]).body !is Polling
                    &&& match outcome {
                        Outcome::Ready => {
                            &&& next.pool.len() == pool.len() - 1
                            &&& 0 <= j < i ==> next.pool[j] == pool[j]
                            &&& i < j < pool.len() ==> next.pool[j - 1] == pool[j]
                        },
                        Outcome::Pending(work) => {
                            &&& next.pool.len() == pool.len()
                            &&& 0 <= j < pool.len() && j != i ==> next.pool[j] == pool[j]
                            &&& next.pool[i].body == Body::Idle(work)
                            &&& next.pool[i].id == pool[i].id
                            &&& next.pool[i].ready == pool[i].ready
                            &&& next.pool[i].polled == pool[i].polled
                        },
                    }
                }
        }),
{
    let pool = state.pool;
    lemma_first_index(pool, polling());
    let i = first_index(pool, polling()) as int;
    assert forall|k: int| 0 <= k < i implies (#[trigger] pool[k]).body !is Polling by {
        assert(!polling::<F>()(pool[k]));
    }
    if i < pool.len() {
        assert(pool[i].body is Polling);
    } else {
        assert(state.finished(outcome) =~= state);
    }
}

/// The entries whose turn it cannot be: those that stay when the turn passes them.
pub open spec fn passed<F>(pool: Seq<PoolEntry<F>>) -> Seq<PoolEntry<F>> {
    pool.filter(|entry: PoolEntry<F>| !(entry.ready && !entry.polled && entry.body !is Polling))
}

proof fn lemma_passed_splits<F>(a: Seq<PoolEntry<F>>, b: Seq<PoolEntry<F>>)
    ensures
        passed(a + b) == passed(a) + passed(b),
{
    Seq::filter_distributes_over_add(
        a,
        b,
        |entry: PoolEntry<F>| !(entry.ready && !entry.polled && entry.body !is Polling),
    );
}

/// The turn does not pass an entry whose turn it can be.
proof fn lemma_not_passed<F>(entry: PoolEntry<F>)
    requires
        is_runnable(entry),
    ensures
        passed(seq![entry]) == Seq::<PoolEntry<F>>::empty(),
{
    reveal_with_fuel(Seq::filter, 2);
    assert(seq![entry].drop_last() =~= Seq::empty());
    assert(seq![entry].last() == entry);
}

/// Where it can be nobody's turn, the turn passes all.
proof fn lemma_all_passed<F>(pool: Seq<PoolEntry<F>>)
    requires
        forall|k: int| 0 <= k < pool.len() ==> !is_runnable(#[trigger] pool[k]),
    ensures
        passed(pool) == pool,
    decreases pool.len(),
{
    reveal(Seq::filter);
    if pool.len() > 0 {
        let front = pool.drop_last();
        assert forall|k: int| 0 <= k < front.len() implies !is_runnable(#[trigger] front[k]) by {
            assert(front[k] == pool[k]);
        }
        assert(pool.last() == pool[pool.len() - 1]);
        lemma_all_passed(front);
        assert(pool =~= front.push(pool.last()));
    }
}

/// A turn changes one entry: the first task that asks to be polled, was not polled in the run, and
/// has its work in the pool, is handed out with its work. Before it, those tasks leave that were
/// stopped and have asked to be polled. All others stay as they were, in their order. Where there
/// is no task to be handed out, only the stopped ones leave.
pub proof fn law_turn_changes_one_entry<F>(pool: Seq<PoolEntry<F>>, i: int)
    requires
        0 <= i <= pool.len(),
        forall|k: int| 0 <= k < i ==> !can_be_polled(#[trigger] pool[k]),
        i < pool.len() ==> can_be_polled(pool[i]),
    ensures
        i == pool.len() ==> next_turn(pool) == (passed(pool), None::<FutureObject<F>>),
        i < pool.len() ==> {
            let out = PoolEntry {
                id: pool[i].id,
                body: Body::<F>::Polling,
                ready: false,
                polled: true,
            };
            &&& next_turn(pool).0 == passed(pool.take(i)) + seq![out] + pool.skip(i + 1)
            &&& next_turn(pool).1 == Some(FutureObject(pool[i].body->Idle_0, pool[i].id))
        },
    decreases pool.len(),
{
    lemma_first_index(pool, runnable());
    let f = first_index(pool, runnable()) as int;
    assert forall|k: int| 0 <= k < f implies !is_runnable(#[trigger] pool[k]) by {
        assert(!runnable::<F>()(pool[k]));
    }
    if f == pool.len() {
        lemma_all_passed(pool);
        if i < pool.len() {
            assert(is_runnable(pool[i]));
        }
    } else if pool[f].body is Idle {
        assert(can_be_polled(pool[f]));
        assert(f == i);
        let front = pool.take(i);
        assert forall|k: int| 0 <= k < front.len() implies !is_runnable(#[trigger] front[k]) by {
            assert(front[k] == pool[k]);
        }
        lemma_all_passed(front);
        let out = PoolEntry {
            id: pool[i].id,
            body: Body::<F>::Polling,
            ready: false,
            polled: true,
        };
        assert(next_turn(pool).0 =~= front + seq![out] + pool.skip(i + 1));
    } else {
        let rest = pool.remove(f);
        assert(f < i);
        assert forall|k: int| 0 <= k < i - 1 implies !can_be_polled(#[trigger] rest[k]) by {
            let m = if k < f { k } else { k + 1 };
            assert(rest[k] == pool[m]);
        }
        if i < pool.len() {
            assert(rest[i - 1] == pool[i]);
        }
        law_turn_changes_one_entry(rest, i - 1);
        let a = pool.take(f);
        let b = pool.subrange(f + 1, i);
        let gone = seq![pool[f]];
        assert(pool.take(i) =~= a + gone + b);
        assert(rest.take(i - 1) =~= a + b);
        if i < pool.len() {
            assert(rest.skip(i) =~= pool.skip(i + 1));
        }
        lemma_passed_splits(a + gone, b);
        lemma_passed_splits(a, gone);
        lemma_passed_splits(a, b);
        lemma_not_passed(pool[f]);
        assert(passed(a) + passed(gone) =~= passed(a));
        if i == pool.len() {
            assert(pool.take(i) =~= pool);
            assert(rest.take(i - 1) =~= rest);
        }
    }
}

/// A step of a run of a `Cosync` takes from the queue only where no running task can be polled, and
/// then all of it: the front of it is handed out, and the others stand behind it in their order.
/// Otherwise the queue stays as it was. The counter stays in any case.
pub proof fn law_step_takes_all_that_wait<F>(state: CosyncState<F>, k: int)
    ensures
        ({
            let (next, action) = state.concurrent_step();
            let (kept, turn) = next_turn(state.pool);
            let incoming = state.queue.incoming;
            &&& next.queue.counter == state.queue.counter
            &&& turn matches Some(task) ==> {
                &&& action == Action::Poll(task)
                &&& next.pool == kept
                &&& next.queue.incoming == incoming
            }
            &&& turn is None ==> {
                &&& next.queue.incoming.len() == 0
                &&& next.pool.len() == kept.len() + incoming.len()
                &&& 0 <= k < kept.len() ==> next.pool[k] == kept[k]
                &&& incoming.len() > 0 ==> {
                    &&& action == Action::Poll(incoming[0])
                    &&& next.pool[kept.len() as int] == PoolEntry {
                        id: incoming[0].1,
                        body: Body::<F>::Polling,
                        ready: false,
                        polled: true,
                    }
                }
                &&& 0 < k < incoming.len() ==> next.pool[kept.len() + k] == PoolEntry {
                    id: incoming[k].1,
                    body: Body::Idle(incoming[k].0),
                    ready: true,
                    polled: false,
                }
                &&& incoming.len() == 0 ==> action == Action::<F>::Return(
                    if kept.len() == 0 {
                        Poll::Ready
                    } else {
                        Poll::Pending
                    },
                )
            }
        }),
{
    let (kept, turn) = next_turn(state.pool);
    let incoming = state.queue.incoming;
    let joined = kept + all_entered(incoming);
    if turn is None {
        lemma_turn(state.pool);
        assert forall|m: int| 0 <= m < kept.len() implies !is_runnable(#[trigger] joined[m]) by {
            assert(joined[m] == kept[m]);
        }
        assert forall|m: int| 0 <= m < kept.len() implies !runnable::<F>()(
            #[trigger] joined[m],
        ) by {
            assert(!is_runnable(joined[m]));
        }
        lemma_first_index_is(joined, runnable(), kept.len() as int);
    }
}

/// A step of a serial run hands out the running task if it can be polled, and otherwise, if none
/// runs, the front of the queue; the task that is handed out is then the one that runs, and the
/// rest of the queue stays in its order. In all other cases nothing changes.
pub proof fn law_serial_step_starts_one_task<F>(state: CosyncState<F>)
    requires
        one_at_a_time(state),
    ensures
        ({
            let (next, action) = state.serial_step();
            let incoming = state.queue.incoming;
            &&& next.queue.counter == state.queue.counter
            &&& action matches Action::Poll(task) ==> next.pool == seq![
                PoolEntry { id: task.1, body: Body::<F>::Polling, ready: false, polled: true },
            ]
            &&& state.pool.len() == 1 ==> next.queue == state.queue
            &&& state.pool.len() == 0 && incoming.len() > 0 ==> {
                &&& action == Action::Poll(incoming[0])
                &&& next.queue.incoming == incoming.skip(1)
            }
            &&& action is Return ==> next == state
        }),
{
    let pool = state.pool;
    lemma_first_index(pool, runnable());
    let f = first_index(pool, runnable()) as int;
    if f < pool.len() {
        assert(is_runnable(pool[0]));
        assert(pool.update(0, started(pool[0])) =~= seq![started(pool[0])]);
    }
    assert(state.queue.incoming.len() > 0 ==> state.queue.incoming.drop_first()
        =~= state.queue.incoming.skip(1));
}

} // verus!
