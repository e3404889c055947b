//! Whose turn it is in a run.

use crate::laws::events::{after_all, Event, Kind};
use crate::pool::{
    all_entered, entered, is_runnable, next_turn, polling, runnable, started, Body, Poll, PoolEntry,
};
use crate::queue::FutureObject;
use crate::seqs::{first_index, lemma_first_index, lemma_first_index_is};
use crate::state::{Action, CosyncState};
use vstd::prelude::*;

verus! {

/// The entry can have a turn in which it is polled.
pub open spec fn can_be_polled<F>(entry: PoolEntry<F>) -> bool {
    is_runnable(entry) && entry.body is Idle
}

/// What a turn is: the first task that can be polled is handed out, with its work and identifier.
/// Nobody's turn is nobody's only if no task can be polled.
pub proof fn lemma_turn<F>(pool: Seq<PoolEntry<F>>)
    ensures
        match next_turn(pool).1 {
            Some(task) => exists|i: int|
                {
                    &&& 0 <= i < pool.len()
                    &&& can_be_polled(#[trigger] pool[i])
                    &&& pool[i].id == task.1
                    &&& pool[i].body == Body::Idle(task.0)
                    &&& forall|k: int| 0 <= k < i ==> !can_be_polled(#[trigger] pool[k])
                },
            None => forall|k: int| 0 <= k < pool.len() ==> !can_be_polled(#[trigger] pool[k]),
        },
        next_turn(pool).1 is None ==> forall|k: int|
            0 <= k < next_turn(pool).0.len() ==> !is_runnable(#[trigger] next_turn(pool).0[k]),
    decreases pool.len(),
{
    lemma_first_index(pool, runnable());
    let i = first_index(pool, runnable()) as int;
    if i < pool.len() {
        match pool[i].body {
            Body::Idle(_) => {
                assert(can_be_polled(pool[i]));
            },
            _ => {
                let rest = pool.remove(i);
                lemma_turn(rest);
                match next_turn(rest).1 {
                    Some(task) => {
                        let j = choose|j: int|
                            {
                                &&& 0 <= j < rest.len()
                                &&& can_be_polled(#[trigger] rest[j])
                                &&& rest[j].id == task.1
                                &&& rest[j].body == Body::Idle(task.0)
                                &&& forall|k: int| 0 <= k < j ==> !can_be_polled(#[trigger] rest[k])
                            };
                        let m = if j < i { j } else { j + 1 };
                        assert(pool[m] == rest[j]);
                        assert forall|k: int| 0 <= k < m implies !can_be_polled(
                            #[trigger] pool[k],
                        ) by {
                            if k < i {
                                assert(pool[k] == rest[k]);
                            } else if k > i {
                                assert(pool[k] == rest[k - 1]);
                            }
                        }
                    },
                    None => {
                        assert forall|k: int| 0 <= k < pool.len() implies !can_be_polled(
                            #[trigger] pool[k],
                        ) by {
                            if k < i {
                                assert(pool[k] == rest[k]);
                            } else if k > i {
                                assert(pool[k] == rest[k - 1]);
                            }
                        }
                    },
                }
            },
        }
    }
}

/// It is the turn of `task`: it stands in the pool and can be polled, and nobody before it can.
pub open spec fn has_turn<F>(pool: Seq<PoolEntry<F>>, task: FutureObject<F>) -> bool {
    exists|i: int|
        {
            &&& 0 <= i < pool.len()
            &&& can_be_polled(#[trigger] pool[i])
            &&& pool[i].id == task.1
            &&& pool[i].body == Body::Idle(task.0)
            &&& forall|k: int| 0 <= k < i ==> !can_be_polled(#[trigger] pool[k])
        }
}

/// No running task can be polled.
pub open spec fn nobodys_turn<F>(pool: Seq<PoolEntry<F>>) -> bool {
    forall|k: int| 0 <= k < pool.len() ==> !can_be_polled(#[trigger] pool[k])
}

proof fn lemma_entered_turn<F>(pool: Seq<PoolEntry<F>>, tasks: Seq<FutureObject<F>>)
    requires
        next_turn(pool).1 is None,
        tasks.len() > 0,
    ensures
        next_turn(next_turn(pool).0 + all_entered(tasks)).1 == Some(tasks[0]),
        next_turn(next_turn(pool).0 + all_entered(tasks)).0 == (next_turn(pool).0 + all_entered(
            tasks,
        )).update(next_turn(pool).0.len() as int, started(entered(tasks[0]))),
{
    let kept = next_turn(pool).0;
    let joined = kept + all_entered(tasks);
    lemma_turn(pool);
    assert forall|k: int| 0 <= k < kept.len() implies !runnable()(#[trigger] joined[k]) by {
        assert(joined[k] == kept[k]);
    }
    assert(joined[kept.len() as int] == entered(tasks[0]));
    lemma_first_index_is(joined, runnable(), kept.len() as int);
}

proof fn lemma_nobodys_turn<F>(pool: Seq<PoolEntry<F>>)
    requires
        next_turn(pool).1 is None,
    ensures
        next_turn(next_turn(pool).0) == (next_turn(pool).0, None::<FutureObject<F>>),
{
    let kept = next_turn(pool).0;
    lemma_turn(pool);
    lemma_first_index_is(kept, runnable(), kept.len() as int);
}

/// Tasks have their turns in the order in which they were queued: a task is polled only if no task
/// before it can be, and the tasks that wait come after all that run.
pub proof fn law_first_in_line_is_polled<F>(state: CosyncState<F>)
    ensures
        state.concurrent_step().1 matches Action::Poll(task) ==> {
            ||| has_turn(state.pool, task)
            ||| {
                &&& nobodys_turn(state.pool)
                &&& state.queue.incoming.len() > 0
                &&& task == state.queue.incoming[0]
            }
        },
{
    lemma_turn(state.pool);
    let incoming = state.queue.incoming;
    if next_turn(state.pool).1 is None {
        if incoming.len() > 0 {
            lemma_entered_turn(state.pool, incoming);
        } else {
            assert(next_turn(state.pool).0 + all_entered(incoming) =~= next_turn(state.pool).0);
            lemma_nobodys_turn(state.pool);
        }
    }
}

/// A run does not end while a running task can be polled or a task waits; so a task that is queued
/// in the course of a run has its turn within that run.
pub proof fn law_run_goes_on<F>(state: CosyncState<F>)
    requires
        !nobodys_turn(state.pool) || state.queue.incoming.len() > 0,
    ensures
        state.concurrent_step().1 is Poll,
{
    lemma_turn(state.pool);
    if next_turn(state.pool).1 is None {
        lemma_entered_turn(state.pool, state.queue.incoming);
    }
}

/// When a run ends, no task waits, and each task that still runs was polled in the run already, is
/// out, or has not asked to be polled. The run tells that all is done if and only if no task is
/// left.
pub proof fn law_run_ends<F>(state: CosyncState<F>)
    ensures
        state.concurrent_step().1 matches Action::Return(poll) ==> {
            let end = state.concurrent_step().0;
            &&& nobodys_turn(state.pool)
            &&& state.queue.incoming.len() == 0
            &&& end.queue == state.queue
            &&& forall|k: int|
                0 <= k < end.pool.len() ==> (#[trigger] end.pool[k]).polled || !end.pool[k].ready
                    || end.pool[k].body is Polling
            &&& poll == Poll::Ready <==> end.pool.len() == 0
        },
{
    lemma_turn(state.pool);
    if state.concurrent_step().1 is Return {
        let incoming = state.queue.incoming;
        if incoming.len() > 0 {
            law_run_goes_on(state);
        }
        assert(next_turn(state.pool).0 + all_entered(incoming) =~= next_turn(state.pool).0);
        lemma_nobodys_turn(state.pool);
        assert(state.queue.cleared() =~= state.queue);
        let end = state.concurrent_step().0;
        assert forall|k: int| 0 <= k < end.pool.len() implies (#[trigger] end.pool[k]).polled
            || !end.pool[k].ready || end.pool[k].body is Polling by {
            assert(!is_runnable(end.pool[k]));
        }
    }
}

/// At most one task runs, and none that was stopped is left over.
pub open spec fn one_at_a_time<F>(state: CosyncState<F>) -> bool {
    &&& state.pool.len() <= 1
    &&& state.pool.len() == 1 ==> state.pool[0].body !is Stopped
}

/// A `SerialCosync` never runs more than one task at a time, whatever is done to it.
pub proof fn law_serial_runs_one_task<F>(state: CosyncState<F>, events: Seq<Event<F>>)
    requires
        one_at_a_time(state),
    ensures
        one_at_a_time(after_all(Kind::Serial, state, events)),
    decreases events.len(),
{
    if events.len() > 0 {
        let before = after_all(Kind::Serial, state, events.drop_last());
        law_serial_runs_one_task(state, events.drop_last());
        lemma_serial_step(before);
        lemma_first_index(before.pool, polling());
    }
}

/// What a step of a serial run is, when at most one task runs.
proof fn lemma_serial_step<F>(state: CosyncState<F>)
    requires
        one_at_a_time(state),
    ensures
        next_turn(state.pool) == (if state.pool.len() == 1 && can_be_polled(state.pool[0]) {
            (
                seq![started(state.pool[0])],
                Some(FutureObject(state.pool[0].body->Idle_0, state.pool[0].id)),
            )
        } else {
            (state.pool, None)
        }),
{
    lemma_first_index(state.pool, runnable());
    let i = first_index(state.pool, runnable()) as int;
    if i == 0 && state.pool.len() == 1 {
        assert(state.pool.update(0, started(state.pool[0])) =~= seq![started(state.pool[0])]);
    } else if state.pool.len() == 1 {
        assert(!runnable()(state.pool[0]));
    }
}

/// In a serial run the running task goes on if it can, and if it cannot, nothing happens: the run
/// ends, and the queue stays as it is. Another task starts only when none runs, and then it is the
/// front of the queue; so a task is complete before the next one begins. The run tells that all is
/// done if and only if no task is left at all.
pub proof fn law_serial_tasks_take_turns<F>(state: CosyncState<F>)
    requires
        one_at_a_time(state),
    ensures
        state.pool.len() == 1 && can_be_polled(state.pool[0]) ==> {
            let (next, action) = state.serial_step();
            &&& action == Action::Poll(
                FutureObject(state.pool[0].body->Idle_0, state.pool[0].id),
            )
            &&& next.queue == state.queue
        },
        state.pool.len() == 1 && !can_be_polled(state.pool[0]) ==> state.serial_step() == (
            state,
            Action::<F>::Return(Poll::Pending),
        ),
        state.pool.len() == 0 && state.queue.incoming.len() > 0 ==> {
            let (next, action) = state.serial_step();
            &&& action == Action::Poll(state.queue.incoming[0])
            &&& next.queue.incoming == state.queue.incoming.drop_first()
            &&& next.queue.counter == state.queue.counter
        },
        state.pool.len() == 0 && state.queue.incoming.len() == 0 ==> state.serial_step() == (
            state,
            Action::<F>::Return(Poll::Ready),
        ),
{
    lemma_serial_step(state);
    assert(state.pool.len() == 0 ==> state.pool =~= Seq::empty());
}

} // verus!
