//! A run from its beginning to its end.

use crate::pool::{
    all_entered, all_woken, entered, next_turn, one_returned, polling, returned, runnable, started,
    ticked, Body, Outcome, Poll, PoolEntry,
};
use crate::queue::{FutureObject, QueueState};
use crate::seqs::lemma_first_index_is;
use crate::state::{Action, CosyncState};
use vstd::prelude::*;

verus! {

/// What happens while a task is polled: the task may wake itself, and queue more tasks, and it
/// comes back in one way or the other.
pub struct Polled<F> {
    /// Whether the task asks to be polled again before it comes back.
    pub wakes: bool,
    /// The tasks that it queues, in their order.
    pub queues: Seq<F>,
    /// How the task comes back.
    pub outcome: Outcome<F>,
}

/// The queue once `tasks` have been put at its back, one after the other.
pub open spec fn all_queued<F>(queue: QueueState<F>, tasks: Seq<F>) -> QueueState<F>
    decreases tasks.len(),
{
    if tasks.len() == 0 {
        queue
    } else {
        all_queued(queue, tasks.drop_last()).queued(tasks.last())
    }
}

/// The state after one step of a run, with what happens while the task is polled that is handed
/// out.
pub open spec fn after_poll<F>(state: CosyncState<F>, polled: Polled<F>) -> CosyncState<F> {
    let (next, action) = state.concurrent_step();
    match action {
        Action::Poll(task) => {
            let woken = if polled.wakes {
                next.woken(task.1)
            } else {
                next
            };
            let at_return = CosyncState {
                pool: woken.pool,
                queue: all_queued(woken.queue, polled.queues),
            };
            at_return.finished(polled.outcome)
        },
        Action::Return(_) => next,
    }
}

/// The state after as many steps of a run as `polls` has elements.
pub open spec fn after_polls<F>(state: CosyncState<F>, polls: Seq<Polled<F>>) -> CosyncState<F>
    decreases polls.len(),
{
    if polls.len() == 0 {
        state
    } else {
        after_poll(after_polls(state, polls.drop_last()), polls.last())
    }
}

/// The task is in the pool and has asked to be polled.
pub open spec fn is_awake<F>(entry: PoolEntry<F>) -> bool {
    entry.ready && entry.body is Idle
}

/// All running tasks are in the pool and have asked to be polled.
pub open spec fn all_awake<F>(pool: Seq<PoolEntry<F>>) -> bool {
    forall|k: int| 0 <= k < pool.len() ==> is_awake(#[trigger] pool[k])
}

/// The task of an entry whose work is in the pool.
pub open spec fn task_of<F>(entry: PoolEntry<F>) -> FutureObject<F> {
    FutureObject(entry.body->Idle_0, entry.id)
}

/// The tasks of a pool, with their work.
pub open spec fn tasks_of<F>(pool: Seq<PoolEntry<F>>) -> Seq<FutureObject<F>> {
    pool.map_values(|entry: PoolEntry<F>| task_of(entry))
}

/// All tasks in line: those that run, those that wait, and then those that are queued in the course
/// of the run, in the order in which that happens.
pub open spec fn whole_line<F>(state: CosyncState<F>, polls: Seq<Polled<F>>) -> QueueState<F>
    decreases polls.len(),
{
    if polls.len() == 0 {
        QueueState {
            incoming: tasks_of(state.pool) + state.queue.incoming,
            counter: state.queue.counter,
        }
    } else {
        all_queued(whole_line(state, polls.drop_last()), polls.last().queues)
    }
}

/// How many tasks come back with more to do.
pub open spec fn pending<F>(polls: Seq<Polled<F>>) -> nat
    decreases polls.len(),
{
    if polls.len() == 0 {
        0
    } else {
        pending(polls.drop_last()) + if polls.last().outcome is Pending {
            1nat
        } else {
            0nat
        }
    }
}

/// The queue without its first `n` tasks.
spec fn skipped<F>(queue: QueueState<F>, n: int) -> QueueState<F> {
    QueueState { incoming: queue.incoming.skip(n), counter: queue.counter }
}

/// The queue with `front` before all of its tasks.
spec fn fronted<F>(front: Seq<FutureObject<F>>, queue: QueueState<F>) -> QueueState<F> {
    QueueState { incoming: front + queue.incoming, counter: queue.counter }
}

/// What is queued does not depend on what stands before it.
proof fn lemma_queued_behind<F>(
    front: Seq<FutureObject<F>>,
    queue: QueueState<F>,
    tasks: Seq<F>,
)
    ensures
        all_queued(fronted(front, queue), tasks) == fronted(front, all_queued(queue, tasks)),
    decreases tasks.len(),
{
    if tasks.len() > 0 {
        lemma_queued_behind(front, queue, tasks.drop_last());
        assert(all_queued(fronted(front, queue), tasks) =~= fronted(
            front,
            all_queued(queue, tasks),
        ));
    }
}

proof fn lemma_queued_longer<F>(queue: QueueState<F>, tasks: Seq<F>)
    ensures
        queue.incoming.len() <= all_queued(queue, tasks).incoming.len(),
    decreases tasks.len(),
{
    if tasks.len() > 0 {
        lemma_queued_longer(queue, tasks.drop_last());
    }
}

/// Tasks that have had their turn.
spec fn all_had_turn<F>(pool: Seq<PoolEntry<F>>) -> bool {
    forall|k: int| 0 <= k < pool.len() ==> (#[trigger] pool[k]).polled && pool[k].body is Idle
}

/// Tasks that have not had their turn, and will.
spec fn all_have_turn<F>(pool: Seq<PoolEntry<F>>) -> bool {
    forall|k: int| 0 <= k < pool.len() ==> is_awake(#[trigger] pool[k]) && !pool[k].polled
}

/// In a pool in which `done` have had their turn and `rest` have not, the first of the rest has the
/// next one.
proof fn lemma_next_turn<F>(done: Seq<PoolEntry<F>>, rest: Seq<PoolEntry<F>>)
    requires
        all_had_turn(done),
        all_have_turn(rest),
    ensures
        next_turn(done + rest) == (if rest.len() > 0 {
            (
                (done + rest).update(done.len() as int, started(rest[0])),
                Some(task_of(rest[0])),
            )
        } else {
            (done + rest, None)
        }),
{
    let pool = done + rest;
    let n = done.len() as int;
    assert forall|k: int| 0 <= k < n implies !runnable()(#[trigger] pool[k]) by {
        assert(pool[k] == done[k]);
    }
    if rest.len() > 0 {
        assert(pool[n] == rest[0]);
    }
    lemma_first_index_is(pool, runnable(), n);
}

/// The pool after the first of the rest was out and has come back.
proof fn lemma_returns<F>(
    done: Seq<PoolEntry<F>>,
    rest: Seq<PoolEntry<F>>,
    polled: Polled<F>,
) -> (next_done: Seq<PoolEntry<F>>)
    requires
        all_had_turn(done),
        all_have_turn(rest),
        rest.len() > 0,
    ensures
        all_had_turn(next_done),
        ({
            let out = (done + rest).update(done.len() as int, started(rest[0]));
            let woken = if polled.wakes {
                all_woken(out, rest[0].id)
            } else {
                out
            };
            one_returned(woken, polled.outcome) == next_done + rest.drop_first()
        }),
        next_done.len() == done.len() + if polled.outcome is Pending {
            1int
        } else {
            0int
        },
{
    let n = done.len() as int;
    let out = (done + rest).update(n, started(rest[0]));
    let woken = if polled.wakes {
        all_woken(out, rest[0].id)
    } else {
        out
    };
    assert forall|k: int| 0 <= k < n implies (#[trigger] woken[k]).polled
        && woken[k].body is Idle by {
        assert(out[k] == done[k]);
    }
    assert(woken[n].polled && woken[n].body is Polling);
    assert forall|k: int| n < k < woken.len() implies #[trigger] woken[k] == rest[k - n] by {
        assert(out[k] == rest[k - n]);
        assert(is_awake(rest[k - n]));
    }
    lemma_first_index_is(woken, polling(), n);
    let next_done = match polled.outcome {
        Outcome::Ready => woken.take(n),
        Outcome::Pending(work) => woken.take(n).push(returned(woken[n], work)),
    };
    assert(one_returned(woken, polled.outcome) =~= next_done + rest.drop_first());
    next_done
}

/// In the course of a run: `done` have had their turn, `rest` have not, and all of `rest` and of
/// the queue are what is left of `line` after its first `m` tasks.
spec fn mid_run<F>(
    state: CosyncState<F>,
    done: Seq<PoolEntry<F>>,
    rest: Seq<PoolEntry<F>>,
    line: QueueState<F>,
    m: int,
) -> bool {
    &&& all_had_turn(done)
    &&& all_have_turn(rest)
    &&& state.pool == done + rest
    &&& 0 <= m <= line.incoming.len()
    &&& skipped(line, m) == fronted(tasks_of(rest), state.queue)
}

proof fn lemma_entered_have_turn<F>(tasks: Seq<FutureObject<F>>)
    ensures
        all_have_turn(all_entered(tasks)),
        tasks_of(all_entered(tasks)) == tasks,
{
    assert forall|k: int| 0 <= k < tasks.len() implies is_awake(#[trigger] all_entered(tasks)[k])
        && !all_entered(tasks)[k].polled && task_of(all_entered(tasks)[k]) == tasks[k] by {
        assert(all_entered(tasks)[k] == entered(tasks[k]));
    }
    assert(tasks_of(all_entered(tasks)) =~= tasks);
}

/// In the course of a run, the next task in line has the next turn.
proof fn lemma_mid_run<F>(
    state: CosyncState<F>,
    done: Seq<PoolEntry<F>>,
    rest: Seq<PoolEntry<F>>,
    line: QueueState<F>,
    m: int,
)
    requires
        mid_run(state, done, rest, line, m),
    ensures
        m < line.incoming.len() ==> state.concurrent_step().1 == Action::Poll(line.incoming[m]),
        m < line.incoming.len() ==> state.concurrent_step().0 == (if rest.len() > 0 {
            CosyncState {
                pool: (done + rest).update(done.len() as int, started(rest[0])),
                queue: state.queue,
            }
        } else {
            let late = all_entered(state.queue.incoming);
            CosyncState {
                pool: (done + late).update(done.len() as int, started(late[0])),
                queue: state.queue.cleared(),
            }
        }),
        m == line.incoming.len() ==> state.concurrent_step() == (
            state,
            Action::<F>::Return(
                if done.len() == 0 {
                    Poll::Ready
                } else {
                    Poll::Pending
                },
            ),
        ),
{
    let late = all_entered(state.queue.incoming);
    lemma_next_turn(done, rest);
    lemma_entered_have_turn(state.queue.incoming);
    lemma_next_turn(done, late);
    let left = skipped(line, m).incoming;
    if m < line.incoming.len() {
        assert(left[0] == line.incoming[m]);
        if rest.len() > 0 {
            assert((tasks_of(rest) + state.queue.incoming)[0] == task_of(rest[0]));
        } else {
            assert(tasks_of(rest) + state.queue.incoming =~= state.queue.incoming);
            assert(done + rest =~= done);
        }
    } else {
        assert(left.len() == 0);
        assert(rest.len() == 0 && state.queue.incoming.len() == 0);
        assert(done + rest =~= done);
        assert(done + late =~= done);
        assert(state.queue.cleared() =~= state.queue);
    }
}

/// One more turn in the course of a run.
proof fn lemma_mid_run_goes_on<F>(
    state: CosyncState<F>,
    done: Seq<PoolEntry<F>>,
    rest: Seq<PoolEntry<F>>,
    line: QueueState<F>,
    m: int,
    polled: Polled<F>,
) -> (r: (Seq<PoolEntry<F>>, Seq<PoolEntry<F>>))
    requires
        mid_run(state, done, rest, line, m),
        m < line.incoming.len(),
    ensures
        mid_run(after_poll(state, polled), r.0, r.1, all_queued(line, polled.queues), m + 1),
        r.0.len() == done.len() + if polled.outcome is Pending {
            1int
        } else {
            0int
        },
{
    lemma_mid_run(state, done, rest, line, m);
    lemma_queued_longer(line, polled.queues);
    let late = all_entered(state.queue.incoming);
    lemma_entered_have_turn(state.queue.incoming);
    let before = line.incoming.take(m);
    assert(line =~= fronted(before, skipped(line, m)));
    let new_line = all_queued(line, polled.queues);
    lemma_queued_behind(before, skipped(line, m), polled.queues);
    let next = after_poll(state, polled);
    let (turn, queue) = if rest.len() > 0 {
        (rest, state.queue)
    } else {
        assert(done + rest =~= done);
        assert(tasks_of(rest) + state.queue.incoming =~= state.queue.incoming);
        (late, state.queue.cleared())
    };
    assert(skipped(line, m) =~= fronted(tasks_of(turn), queue));
    assert(turn.len() > 0) by {
        assert(skipped(line, m).incoming.len() > 0);
    }
    lemma_queued_behind(tasks_of(turn), queue, polled.queues);
    let next_done = lemma_returns(done, turn, polled);
    let next_rest = turn.drop_first();
    assert(next.pool == next_done + next_rest);
    assert(next.queue == all_queued(queue, polled.queues));
    assert(all_have_turn(next_rest)) by {
        assert forall|k: int| 0 <= k < next_rest.len() implies is_awake(#[trigger] next_rest[k])
            && !next_rest[k].polled by {
            assert(next_rest[k] == turn[k + 1]);
        }
    }
    assert(tasks_of(next_rest) =~= tasks_of(turn).skip(1));
    assert(skipped(new_line, m + 1) =~= fronted(tasks_of(next_rest), next.queue));
    (next_done, next_rest)
}

proof fn lemma_part_of_run<F>(begun: CosyncState<F>, polls: Seq<Polled<F>>) -> (r: (
    Seq<PoolEntry<F>>,
    Seq<PoolEntry<F>>,
))
    requires
        all_have_turn(begun.pool),
        begun.queue.incoming.len() == 0,
        forall|k: int|
            0 <= k < polls.len() ==> k < (#[trigger] whole_line(
                begun,
                polls.take(k),
            )).incoming.len(),
    ensures
        mid_run(
            after_polls(begun, polls),
            r.0,
            r.1,
            whole_line(begun, polls),
            polls.len() as int,
        ),
        r.0.len() == pending(polls),
    decreases polls.len(),
{
    if polls.len() == 0 {
        assert(Seq::<PoolEntry<F>>::empty() + begun.pool =~= begun.pool);
        assert(skipped(whole_line(begun, polls), 0) =~= fronted(tasks_of(begun.pool), begun.queue));
        (Seq::empty(), begun.pool)
    } else {
        let most = polls.drop_last();
        assert forall|k: int| 0 <= k < most.len() implies k < (#[trigger] whole_line(
            begun,
            most.take(k),
        )).incoming.len() by {
            assert(most.take(k) =~= polls.take(k));
        }
        let (done, rest) = lemma_part_of_run(begun, most);
        assert(polls.take(most.len() as int) =~= most);
        lemma_mid_run_goes_on(
            after_polls(begun, most),
            done,
            rest,
            whole_line(begun, most),
            most.len() as int,
            polls.last(),
        )
    }
}

/// In a run every task is polled that has asked for it, in the order of the line: first those that
/// run, then those that were waiting when the run began, then those that are queued in the course
/// of the run. It does not matter whether the tasks before it complete. When all have had their
/// turn the run ends, and it tells that all is done if and only if every task is complete.
///
/// `polls` is what has happened so far in the run, poll by poll. At its beginning all running tasks
/// have asked to be polled.
pub proof fn law_run_polls_all_in_order<F>(state: CosyncState<F>, polls: Seq<Polled<F>>)
    requires
        all_awake(state.pool),
        forall|k: int|
            0 <= k < polls.len() ==> k < (#[trigger] whole_line(
                state,
                polls.take(k),
            )).incoming.len(),
    ensures
        ({
            let now = after_polls(state.drained().ticked(), polls);
            let line = whole_line(state, polls).incoming;
            &&& polls.len() <= line.len()
            &&& polls.len() < line.len() ==> now.concurrent_step().1 == Action::Poll(
                line[polls.len() as int],
            )
            &&& polls.len() == line.len() ==> now.concurrent_step() == (
                now,
                Action::<F>::Return(
                    if pending(polls) == 0 {
                        Poll::Ready
                    } else {
                        Poll::Pending
                    },
                ),
            )
        }),
{
    let begun = state.drained().ticked();
    assert forall|k: int| 0 <= k < begun.pool.len() implies is_awake(#[trigger] begun.pool[k])
        && !begun.pool[k].polled by {
        if k < state.pool.len() {
            assert(begun.pool[k] == ticked(state.pool[k]));
            assert(is_awake(state.pool[k]));
        } else {
            assert(begun.pool[k] == ticked(entered(state.queue.incoming[k - state.pool.len()])));
        }
    }
    lemma_same_line(state, polls);
    assert forall|k: int| 0 <= k < polls.len() implies k < (#[trigger] whole_line(
        begun,
        polls.take(k),
    )).incoming.len() by {
        lemma_same_line(state, polls.take(k));
        assert(k < whole_line(state, polls.take(k)).incoming.len());
    }
    let (done, rest) = lemma_part_of_run(begun, polls);
    lemma_mid_run(
        after_polls(begun, polls),
        done,
        rest,
        whole_line(begun, polls),
        polls.len() as int,
    );
}

/// The beginning of a run moves nobody in line.
proof fn lemma_same_line<F>(state: CosyncState<F>, polls: Seq<Polled<F>>)
    ensures
        whole_line(state.drained().ticked(), polls) == whole_line(state, polls),
    decreases polls.len(),
{
    let begun = state.drained().ticked();
    if polls.len() == 0 {
        assert forall|k: int| 0 <= k < begun.pool.len() implies task_of(#[trigger] begun.pool[k])
            == (tasks_of(state.pool) + state.queue.incoming)[k] by {
            if k < state.pool.len() {
                assert(begun.pool[k] == ticked(state.pool[k]));
            } else {
                assert(begun.pool[k] == ticked(
                    entered(state.queue.incoming[k - state.pool.len()]),
                ));
            }
        }
        assert(whole_line(begun, polls) =~= whole_line(state, polls));
    } else {
        lemma_same_line(state, polls.drop_last());
    }
}

/// The state after one step of a serial run, with what happens while the task is polled that is
/// handed out.
pub open spec fn serial_after_poll<F>(state: CosyncState<F>, polled: Polled<F>) -> CosyncState<F> {
    let (next, action) = state.serial_step();
    match action {
        Action::Poll(task) => {
            let woken = if polled.wakes {
                next.woken(task.1)
            } else {
                next
            };
            let at_return = CosyncState {
                pool: woken.pool,
                queue: all_queued(woken.queue, polled.queues),
            };
            at_return.finished(polled.outcome)
        },
        Action::Return(_) => next,
    }
}

/// The state after as many steps of a serial run as `polls` has elements.
pub open spec fn serial_after_polls<F>(
    state: CosyncState<F>,
    polls: Seq<Polled<F>>,
) -> CosyncState<F>
    decreases polls.len(),
{
    if polls.len() == 0 {
        state
    } else {
        serial_after_poll(serial_after_polls(state, polls.drop_last()), polls.last())
    }
}

/// The pool after the only task in it was out and has come back.
proof fn lemma_only_returns<F>(entry: PoolEntry<F>, wakes: bool, outcome: Outcome<F>)
    ensures
        ({
            let out = seq![started(entry)];
            let woken = if wakes {
                all_woken(out, entry.id)
            } else {
                out
            };
            match outcome {
                Outcome::Ready => one_returned(woken, outcome) == Seq::<PoolEntry<F>>::empty(),
                Outcome::Pending(work) => {
                    let pool = one_returned(woken, outcome);
                    &&& pool.len() == 1
                    &&& pool[0].polled
                    &&& pool[0].body == Body::Idle(work)
                    &&& pool[0].id == entry.id
                    &&& pool[0].ready == wakes
                },
            }
        }),
{
    let out = seq![started(entry)];
    let woken = if wakes {
        all_woken(out, entry.id)
    } else {
        out
    };
    assert(woken.len() == 1 && woken[0].body is Polling);
    lemma_first_index_is(woken, polling(), 0);
    assert(woken.remove(0) =~= Seq::empty());
}

/// What a step of a serial run is if no task has had its turn.
proof fn lemma_serial_turn<F>(state: CosyncState<F>)
    requires
        state.pool.len() <= 1,
        all_have_turn(state.pool),
    ensures
        next_turn(state.pool) == (if state.pool.len() == 1 {
            (seq![started(state.pool[0])], Some(task_of(state.pool[0])))
        } else {
            (state.pool, None)
        }),
{
    let none = Seq::<PoolEntry<F>>::empty();
    lemma_next_turn(none, state.pool);
    assert(none + state.pool =~= state.pool);
    if state.pool.len() == 1 {
        assert(state.pool.update(0, started(state.pool[0])) =~= seq![started(state.pool[0])]);
    }
}

proof fn lemma_part_of_serial_run<F>(begun: CosyncState<F>, polls: Seq<Polled<F>>)
    requires
        begun.pool.len() <= 1,
        all_have_turn(begun.pool),
        forall|k: int| 0 <= k < polls.len() ==> (#[trigger] polls[k]).outcome is Ready,
        forall|k: int|
            0 <= k < polls.len() ==> k < (#[trigger] whole_line(
                begun,
                polls.take(k),
            )).incoming.len(),
    ensures
        ({
            let now = serial_after_polls(begun, polls);
            &&& now.pool.len() <= 1
            &&& all_have_turn(now.pool)
            &&& polls.len() <= whole_line(begun, polls).incoming.len()
            &&& fronted(tasks_of(now.pool), now.queue) == skipped(
                whole_line(begun, polls),
                polls.len() as int,
            )
        }),
    decreases polls.len(),
{
    if polls.len() == 0 {
        assert(skipped(whole_line(begun, polls), 0) =~= fronted(tasks_of(begun.pool), begun.queue));
    } else {
        let most = polls.drop_last();
        let m = most.len() as int;
        assert forall|k: int| 0 <= k < most.len() implies k < (#[trigger] whole_line(
            begun,
            most.take(k),
        )).incoming.len() by {
            assert(most.take(k) =~= polls.take(k));
        }
        assert(polls.take(m) =~= most);
        assert forall|k: int| 0 <= k < most.len() implies (#[trigger] most[k]).outcome is Ready by {
            assert(most[k] == polls[k]);
        }
        lemma_part_of_serial_run(begun, most);
        let before = serial_after_polls(begun, most);
        let now = serial_after_polls(begun, polls);
        let line = whole_line(begun, most);
        let last = polls.last();
        assert(last == polls[m]);
        lemma_serial_turn(before);
        lemma_queued_longer(line, last.queues);
        assert(line =~= fronted(line.incoming.take(m), skipped(line, m)));
        lemma_queued_behind(line.incoming.take(m), skipped(line, m), last.queues);
        let left = skipped(line, m);
        assert(left.incoming.len() > 0);
        let front = left.incoming[0];
        let entry = if before.pool.len() == 1 {
            before.pool[0]
        } else {
            entered(front)
        };
        let queue = QueueState {
            incoming: left.incoming.drop_first(),
            counter: before.queue.counter,
        };
        if before.pool.len() == 1 {
            assert(queue.incoming =~= before.queue.incoming);
        } else {
            assert(before.queue.incoming =~= left.incoming);
        }
        assert(before.serial_step().0 =~= CosyncState { pool: seq![started(entry)], queue });
        assert(before.serial_step().1 is Poll);
        lemma_only_returns(entry, last.wakes, last.outcome);
        assert(now.pool =~= Seq::empty());
        assert(now.queue == all_queued(queue, last.queues));
        assert(left =~= fronted(seq![front], queue));
        lemma_queued_behind(seq![front], queue, last.queues);
        assert(fronted(tasks_of(now.pool), now.queue) =~= skipped(
            whole_line(begun, polls),
            m + 1,
        ));
    }
}

/// In a serial run the tasks complete one after the other, in the order of the line: first the one
/// that runs, then those that wait, then those that are queued in the course of the run. The next
/// one is polled as soon as the one before it is complete. When all are complete the run ends.
///
/// `polls` is what has happened so far in the run, poll by poll. At its beginning the running task
/// has asked to be polled, if there is one.
pub proof fn law_serial_run_completes_in_order<F>(state: CosyncState<F>, polls: Seq<Polled<F>>)
    requires
        state.pool.len() <= 1,
        all_awake(state.pool),
        forall|k: int| 0 <= k < polls.len() ==> (#[trigger] polls[k]).outcome is Ready,
        forall|k: int|
            0 <= k < polls.len() ==> k < (#[trigger] whole_line(
                state,
                polls.take(k),
            )).incoming.len(),
    ensures
        ({
            let now = serial_after_polls(state.ticked(), polls);
            let line = whole_line(state, polls).incoming;
            &&& polls.len() <= line.len()
            &&& polls.len() < line.len() ==> now.serial_step().1 == Action::Poll(
                line[polls.len() as int],
            )
            &&& polls.len() == line.len() ==> now.serial_step() == (
                now,
                Action::<F>::Return(Poll::Ready),
            )
        }),
{
    lemma_serial_mid_run(state, polls);
}

/// In a serial run, the first task that comes back with more to do ends the run, even if it woke
/// itself. It is the one that runs then, and all behind it wait.
pub proof fn law_serial_run_stops_at_pending<F>(
    state: CosyncState<F>,
    polls: Seq<Polled<F>>,
    last: Polled<F>,
)
    requires
        state.pool.len() <= 1,
        all_awake(state.pool),
        forall|k: int| 0 <= k < polls.len() ==> (#[trigger] polls[k]).outcome is Ready,
        forall|k: int|
            0 <= k <= polls.len() ==> k < (#[trigger] whole_line(
                state,
                polls.take(k),
            )).incoming.len(),
        last.outcome is Pending,
    ensures
        ({
            let now = serial_after_polls(state.ticked(), polls.push(last));
            let line = whole_line(state, polls.push(last)).incoming;
            let n = polls.len() as int;
            &&& now.serial_step() == (now, Action::<F>::Return(Poll::Pending))
            &&& now.pool.len() == 1
            &&& now.pool[0].id == line[n].1
            &&& now.pool[0].body == Body::Idle(last.outcome->Pending_0)
            &&& now.pool[0].ready == last.wakes
            &&& now.queue.incoming == line.skip(n + 1)
        }),
{
    let n = polls.len() as int;
    let all = polls.push(last);
    assert(all.drop_last() =~= polls);
    assert(polls.take(n) =~= polls);
    let begun = state.ticked();
    lemma_serial_mid_run(state, polls);
    let before = serial_after_polls(begun, polls);
    let now = serial_after_polls(begun, all);
    let line = whole_line(state, polls);
    let left = skipped(line, n);
    assert(left.incoming.len() > 0);
    let front = left.incoming[0];
    let entry = if before.pool.len() == 1 {
        before.pool[0]
    } else {
        entered(front)
    };
    let queue = QueueState { incoming: left.incoming.drop_first(), counter: before.queue.counter };
    if before.pool.len() == 1 {
        assert(queue.incoming =~= before.queue.incoming);
        assert(left.incoming[0] == task_of(before.pool[0]));
    } else {
        assert(before.queue.incoming =~= left.incoming);
    }
    lemma_serial_turn(before);
    assert(before.serial_step().0 =~= CosyncState { pool: seq![started(entry)], queue });
    lemma_only_returns(entry, last.wakes, last.outcome);
    assert(now.queue == all_queued(queue, last.queues));
    assert(!runnable()(now.pool[0]));
    lemma_first_index_is(now.pool, runnable(), 1);
    assert(now.serial_step() == (now, Action::<F>::Return(Poll::Pending)));
    let head = line.incoming.take(n + 1);
    assert(line =~= fronted(head, queue));
    lemma_queued_behind(head, queue, last.queues);
    assert(whole_line(state, all) == fronted(head, now.queue));
    assert(whole_line(state, all).incoming.skip(n + 1) =~= now.queue.incoming);
    assert(whole_line(state, all).incoming[n] == head[n]);
}

/// What is left in the course of a serial run in which all tasks so far have completed.
proof fn lemma_serial_mid_run<F>(state: CosyncState<F>, polls: Seq<Polled<F>>)
    requires
        state.pool.len() <= 1,
        all_awake(state.pool),
        forall|k: int| 0 <= k < polls.len() ==> (#[trigger] polls[k]).outcome is Ready,
        forall|k: int|
            0 <= k < polls.len() ==> k < (#[trigger] whole_line(
                state,
                polls.take(k),
            )).incoming.len(),
    ensures
        ({
            let now = serial_after_polls(state.ticked(), polls);
            let line = whole_line(state, polls);
            &&& now.pool.len() <= 1
            &&& all_have_turn(now.pool)
            &&& polls.len() <= line.incoming.len()
            &&& fronted(tasks_of(now.pool), now.queue) == skipped(line, polls.len() as int)
            &&& polls.len() < line.incoming.len() ==> now.serial_step().1 == Action::Poll(
                line.incoming[polls.len() as int],
            )
            &&& polls.len() == line.incoming.len() ==> now.serial_step() == (
                now,
                Action::<F>::Return(Poll::Ready),
            )
        }),
{
    let begun = state.ticked();
    assert forall|k: int| 0 <= k < begun.pool.len() implies is_awake(#[trigger] begun.pool[k])
        && !begun.pool[k].polled by {
        assert(begun.pool[k] == ticked(state.pool[k]));
        assert(is_awake(state.pool[k]));
    }
    lemma_same_serial_line(state, polls);
    assert forall|k: int| 0 <= k < polls.len() implies k < (#[trigger] whole_line(
        begun,
        polls.take(k),
    )).incoming.len() by {
        lemma_same_serial_line(state, polls.take(k));
        assert(k < whole_line(state, polls.take(k)).incoming.len());
    }
    lemma_part_of_serial_run(begun, polls);
    let now = serial_after_polls(begun, polls);
    let line = whole_line(state, polls);
    let n = polls.len() as int;
    lemma_serial_turn(now);
    let left = skipped(line, n).incoming;
    if n < line.incoming.len() {
        assert(left[0] == line.incoming[n]);
        if now.pool.len() == 1 {
            assert((tasks_of(now.pool) + now.queue.incoming)[0] == task_of(now.pool[0]));
        } else {
            assert(tasks_of(now.pool) + now.queue.incoming =~= now.queue.incoming);
        }
    } else {
        assert(left.len() == 0);
        assert(now.pool.len() == 0 && now.queue.incoming.len() == 0);
    }
}

/// The beginning of a serial run moves nobody in line.
proof fn lemma_same_serial_line<F>(state: CosyncState<F>, polls: Seq<Polled<F>>)
    ensures
        whole_line(state.ticked(), polls) == whole_line(state, polls),
    decreases polls.len(),
{
    let begun = state.ticked();
    if polls.len() == 0 {
        assert forall|k: int| 0 <= k < begun.pool.len() implies task_of(#[trigger] begun.pool[k])
            == task_of(state.pool[k]) by {
            assert(begun.pool[k] == ticked(state.pool[k]));
        }
        assert(tasks_of(begun.pool) =~= tasks_of(state.pool));
    } else {
        lemma_same_serial_line(state, polls.drop_last());
    }
}

} // verus!
