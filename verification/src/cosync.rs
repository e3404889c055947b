//! The cosync that runs all of its tasks side by side.

use crate::handle::{CosyncQueueHandle, TaskQueue};
use crate::pool::{all_entered, is_polling, runs, FuturesUnordered, Outcome, Poll};
use crate::queue::{FutureObject, IncomingQueue};
use crate::state::{Action, CosyncState};
use crate::task_id::CosyncTaskId;
use parking_lot::Mutex;
use std::sync::Arc;
use vstd::prelude::*;

verus! {

/// A single-threaded, parameterized task queue, which runs all of its tasks concurrently.
///
/// Tasks can be queued in sequence, and within other tasks. Tasks are polled in the order in which
/// they are queued.
///
/// A cosync decides which task has its turn; the one who drives it does the polling. A run begins
/// with [begin_run](Cosync::begin_run). After that, [next_action](Cosync::next_action) tells what
/// to do, until it tells to return.
#[derive(Debug)]
pub struct Cosync<F> {
    pool: FuturesUnordered<F>,
    queue: IncomingQueue<F>,
}

impl<F> View for Cosync<F> {
    type V = CosyncState<F>;

    closed spec fn view(&self) -> CosyncState<F> {
        CosyncState { pool: self.pool@, queue: self.queue@ }
    }
}

impl<F> Cosync<F> {
    /// Creates a new, empty cosync.
    pub fn new() -> (cosync: Self)
        ensures
            cosync@ == CosyncState::<F>::initial(),
    {
        Cosync { pool: FuturesUnordered::new(), queue: IncomingQueue::new() }
    }

    /// Returns the number of tasks, those that run and those that wait. The sum is never too great
    /// for a `usize` where memory can hold the tasks; beyond that it would be `usize::MAX`.
    pub fn len(&self) -> (n: usize)
        ensures
            n == (if self@.count() <= usize::MAX {
                self@.count() as usize
            } else {
                usize::MAX
            }),
    {
        self.pool.len().saturating_add(self.queue.len())
    }

    /// Returns true if no task runs *and* no task waits.
    pub fn is_empty(&self) -> (empty: bool)
        ensures
            empty == (self@.pool.len() == 0 && self@.queue.incoming.len() == 0),
    {
        !self.is_running_any() && self.queue.is_empty()
    }

    /// Returns true if a task runs, that is, if a run has begun since it was queued and it is not
    /// complete. It is possible that none does while tasks still wait.
    pub fn is_running_any(&self) -> (running: bool)
        ensures
            running == (self@.pool.len() > 0),
    {
        !self.pool.is_empty()
    }

    /// Returns true if the task `task_id` runs. A task that was queued since the last run only
    /// waits.
    pub fn is_running(&self, task_id: CosyncTaskId) -> (running: bool)
        ensures
            running == runs(self@.pool, task_id),
    {
        self.pool.is_running(task_id)
    }

    /// Takes a task that waits out of the queue.
    ///
    /// A task that already runs is stopped by [stop_running_task](Cosync::stop_running_task)
    /// instead.
    ///
    /// This returns `true` on success and `false` on failure.
    pub fn unqueue_task(&mut self, task_id: CosyncTaskId) -> (found: bool)
        ensures
            found == old(self)@.queue.waits(task_id),
            final(self)@ == old(self)@.unqueued(task_id),
    {
        self.queue.unqueue_task(task_id)
    }

    /// Stops the running task of the given id. Its work is dropped at once; the task itself
    /// leaves the pool as if it had completed, the next time that it is its turn.
    ///
    /// A task that only waits is removed by [unqueue_task](Cosync::unqueue_task) instead.
    ///
    /// This returns `true` on success and `false` on failure.
    pub fn stop_running_task(&mut self, task_id: CosyncTaskId) -> (found: bool)
        ensures
            found == runs(old(self)@.pool, task_id),
            final(self)@ == old(self)@.stopped(task_id),
    {
        self.pool.stop(task_id)
    }

    /// Drops all running tasks. The tasks that wait are unaffected.
    pub fn clear_running(&mut self)
        ensures
            final(self)@ == old(self)@.cleared_running(),
    {
        self.pool.clear();
    }

    /// Drops all tasks that wait. The running tasks are unaffected.
    pub fn clear_queue(&mut self)
        ensures
            final(self)@ == old(self)@.cleared_queue(),
    {
        self.queue.clear();
    }

    /// Drops all running tasks and all tasks that wait.
    pub fn clear(&mut self)
        ensures
            final(self)@ == old(self)@.cleared(),
    {
        self.pool.clear();
        self.queue.clear();
    }

    /// Adds a new task to the back of the queue, behind every task that was queued before, by
    /// whichever way. It comes into the pool when a run begins, and only waits until then.
    pub fn queue(&mut self, task: F) -> (id: CosyncTaskId)
        ensures
            id == old(self)@.queue.next_id(),
            final(self)@ == old(self)@.queued_back(task),
    {
        self.queue.push_back(task)
    }

    /// Creates a queue handle, which can be used to spawn tasks in the cosync that the slot holds.
    pub fn create_queue_handle(shared: &Arc<Mutex<Option<Self>>>) -> (handle: CosyncQueueHandle<
        Self,
    >)
        ensures
            handle.shared() == *shared,
        opens_invariants none
    {
        CosyncQueueHandle::new(shared)
    }

    /// Takes every task that waits into the pool.
    fn drain(&mut self)
        ensures
            final(self)@ == old(self)@.drained(),
    {
        let ghost before = self@;
        let ghost mut taken: int = 0;
        loop
            invariant_except_break
                0 <= taken <= before.queue.incoming.len(),
                self@.pool == before.pool + all_entered(before.queue.incoming.take(taken)),
                self@.queue.incoming == before.queue.incoming.skip(taken),
                self@.queue.counter == before.queue.counter,
            ensures
                self@ == before.drained(),
            decreases before.queue.incoming.len() - taken,
        {
            match self.queue.pop_front() {
                Some(task) => {
                    self.pool.push(task);
                    proof {
                        let incoming = before.queue.incoming;
                        assert(incoming.take(taken + 1) =~= incoming.take(taken).push(task));
                        assert(self@.pool =~= before.pool + all_entered(
                            incoming.take(taken + 1),
                        ));
                        assert(self@.queue.incoming =~= incoming.skip(taken + 1));
                        taken = taken + 1;
                    }
                },
                None => {
                    proof {
                        assert(before.queue.incoming.take(taken) =~= before.queue.incoming);
                    }
                    break;
                },
            }
        }
    }

    /// Begins a run: every task that waits comes into the pool, and a tick begins.
    pub fn begin_run(&mut self)
        ensures
            final(self)@ == old(self)@.drained().ticked(),
    {
        self.drain();
        self.pool.increment_counter();
    }

    /// Tells what to do next in a run. A task that it tells to poll is handed out with that; it is
    /// taken back by [finish_poll](Cosync::finish_poll).
    pub fn next_action(&mut self) -> (action: Action<F>)
        ensures
            (final(self)@, action) == old(self)@.concurrent_step(),
    {
        match self.pool.start_next() {
            Some(task) => Action::Poll(task),
            None => {
                self.drain();
                match self.pool.start_next() {
                    Some(task) => Action::Poll(task),
                    None => {
                        if self.pool.is_empty() {
                            Action::Return(Poll::Ready)
                        } else {
                            Action::Return(Poll::Pending)
                        }
                    },
                }
            },
        }
    }

    /// Takes back the task that was handed out to be polled: a complete task leaves the pool, one
    /// that is pending stays in its place. Returns whether any task was out. A task that was
    /// stopped while it was out, or dropped, is out no longer.
    pub fn finish_poll(&mut self, outcome: Outcome<F>) -> (found: bool)
        ensures
            found == is_polling(old(self)@.pool),
            final(self)@ == old(self)@.finished(outcome),
    {
        self.pool.finish(outcome)
    }
}

impl<F> TaskQueue for Cosync<F> {
    type Task = F;

    open spec fn state(&self) -> CosyncState<F> {
        self@
    }

    fn queue_back(&mut self, task: F) -> (id: CosyncTaskId) {
        self.queue.push_back(task)
    }

    fn unqueue(&mut self, task_id: CosyncTaskId) -> (task: Option<FutureObject<F>>) {
        self.queue.take_task(task_id)
    }

    fn wake(&mut self, task_id: CosyncTaskId) {
        self.pool.wake(task_id);
    }
}

impl<F> Default for Cosync<F> {
    fn default() -> (cosync: Self)
        ensures
            cosync@ == CosyncState::<F>::initial(),
    {
        Self::new()
    }
}

} // verus!
