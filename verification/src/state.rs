//! What a cosync holds, and what each of its operations makes of it.

use crate::pool::{
    all_entered, all_ticked, all_woken, entered, next_turn, one_returned, one_stopped, started,
    Outcome, Poll, PoolEntry,
};
use crate::queue::{FutureObject, QueueState};
use crate::task_id::CosyncTaskId;
use vstd::prelude::*;

verus! {

/// The running tasks in the order in which they entered the pool, and the tasks that wait.
#[verifier::ext_equal]
pub struct CosyncState<F> {
    /// The running tasks.
    pub pool: Seq<PoolEntry<F>>,
    /// The tasks that wait, and the next task identifier.
    pub queue: QueueState<F>,
}

/// What the one who drives a cosync has to do next.
#[derive(Debug)]
pub enum Action<F> {
    /// To poll the task that is handed out, and to hand back what became of it.
    Poll(FutureObject<F>),
    /// To end the run. `Poll::Ready` tells that no task is left at all.
    Return(Poll),
}

impl<F> CosyncState<F> {
    /// No task at all.
    pub open spec fn initial() -> CosyncState<F> {
        CosyncState { pool: Seq::empty(), queue: QueueState { incoming: Seq::empty(), counter: 0 } }
    }

    /// The number of tasks, those that run and those that wait.
    pub open spec fn count(self) -> nat {
        self.pool.len() + self.queue.incoming.len()
    }

    /// Once `task` has been put at the back of the queue, under the next identifier.
    pub open spec fn queued_back(self, task: F) -> CosyncState<F> {
        CosyncState { pool: self.pool, queue: self.queue.queued(task) }
    }

    /// Once the first task that waits under `id` has been removed.
    pub open spec fn unqueued(self, id: CosyncTaskId) -> CosyncState<F> {
        CosyncState { pool: self.pool, queue: self.queue.unqueued(id) }
    }

    /// Once the first task that runs under `id` has been stopped.
    pub open spec fn stopped(self, id: CosyncTaskId) -> CosyncState<F> {
        CosyncState { pool: one_stopped(self.pool, id), queue: self.queue }
    }

    /// Once the task `id` has been woken.
    pub open spec fn woken(self, id: CosyncTaskId) -> CosyncState<F> {
        CosyncState { pool: all_woken(self.pool, id), queue: self.queue }
    }

    /// Without the running tasks.
    pub open spec fn cleared_running(self) -> CosyncState<F> {
        CosyncState { pool: Seq::empty(), queue: self.queue }
    }

    /// Without the tasks that wait.
    pub open spec fn cleared_queue(self) -> CosyncState<F> {
        CosyncState { pool: self.pool, queue: self.queue.cleared() }
    }

    /// Without any task.
    pub open spec fn cleared(self) -> CosyncState<F> {
        CosyncState { pool: Seq::empty(), queue: self.queue.cleared() }
    }

    /// Once every task that waits has been taken into the pool, in the order of the queue.
    pub open spec fn drained(self) -> CosyncState<F> {
        CosyncState {
            pool: self.pool + all_entered(self.queue.incoming),
            queue: self.queue.cleared(),
        }
    }

    /// At the beginning of a tick: every task may be polled once more.
    pub open spec fn ticked(self) -> CosyncState<F> {
        CosyncState { pool: all_ticked(self.pool), queue: self.queue }
    }

    /// Once the task that was handed out has come back.
    pub open spec fn finished(self, outcome: Outcome<F>) -> CosyncState<F> {
        CosyncState { pool: one_returned(self.pool, outcome), queue: self.queue }
    }

    /// The next step of a run in which all tasks run side by side. While it can be the turn of a
    /// running task, that task is polled. Then the tasks that wait come into the pool and have
    /// their turns. The run ends when there are none.
    pub open spec fn concurrent_step(self) -> (CosyncState<F>, Action<F>) {
        let (pool, turn) = next_turn(self.pool);
        match turn {
            Some(task) => (CosyncState { pool, queue: self.queue }, Action::Poll(task)),
            None => {
                let (more, late_turn) = next_turn(pool + all_entered(self.queue.incoming));
                (
                    CosyncState { pool: more, queue: self.queue.cleared() },
                    match late_turn {
                        Some(task) => Action::Poll(task),
                        None => Action::Return(
                            if more.len() == 0 {
                                Poll::Ready
                            } else {
                                Poll::Pending
                            },
                        ),
                    },
                )
            },
        }
    }

    /// The next step of a run in which a task only starts when no other runs. If it can be the
    /// turn of a running task, that task is polled. The run ends when a task runs whose turn it
    /// cannot be, and when there is no task left. Otherwise the front of the queue starts.
    pub open spec fn serial_step(self) -> (CosyncState<F>, Action<F>) {
        let (pool, turn) = next_turn(self.pool);
        match turn {
            Some(task) => (CosyncState { pool, queue: self.queue }, Action::Poll(task)),
            None => if pool.len() > 0 {
                (CosyncState { pool, queue: self.queue }, Action::Return(Poll::Pending))
            } else if self.queue.incoming.len() > 0 {
                let front = self.queue.incoming[0];
                (
                    CosyncState {
                        pool: seq![started(entered(front))],
                        queue: QueueState {
                            incoming: self.queue.incoming.drop_first(),
                            counter: self.queue.counter,
                        },
                    },
                    Action::Poll(front),
                )
            } else {
                (CosyncState { pool, queue: self.queue }, Action::Return(Poll::Ready))
            },
        }
    }
}

} // verus!
