//! The cosync that runs one task at a time.

use crate::handle::{CosyncQueueHandle, TaskQueue};
use crate::pool::{is_polling, FuturesUnordered, Outcome, Poll};
use crate::queue::{FutureObject, IncomingQueue};
use crate::state::{Action, CosyncState};
use crate::task_id::CosyncTaskId;
use parking_lot::Mutex;
use std::sync::Arc;
use vstd::prelude::*;

verus! {

/// A `SerialCosync` is like a [Cosync](crate::Cosync), but *only* runs one task at a time, unlike
/// `Cosync`, which runs all tasks concurrently. A task must fully complete before the next task in
/// the queue starts, and so on and so on.
#[derive(Debug)]
pub struct SerialCosync<F> {
    pool: FuturesUnordered<F>,
    queue: IncomingQueue<F>,
}

impl<F> View for SerialCosync<F> {
    type V = CosyncState<F>;

    closed spec fn view(&self) -> CosyncState<F> {
        CosyncState { pool: self.pool@, queue: self.queue@ }
    }
}

impl<F> SerialCosync<F> {
    /// Creates a new, empty [SerialCosync].
    pub fn new() -> (cosync: Self)
        ensures
            cosync@ == CosyncState::<F>::initial(),
    {
        SerialCosync { pool: FuturesUnordered::new(), queue: IncomingQueue::new() }
    }

    /// Returns the number of tasks that wait, plus 1 if a task runs. The sum is never too great
    /// for a `usize` where memory can hold the tasks; beyond that it would be `usize::MAX`.
    pub fn len(&self) -> (n: usize)
        ensures
            n == ({
                let running: int = if self@.pool.len() > 0 {
                    1
                } else {
                    0
                };
                if running + self@.queue.incoming.len() <= usize::MAX {
                    (running + self@.queue.incoming.len()) as usize
                } else {
                    usize::MAX
                }
            }),
    {
        let running: usize = if self.is_running_any() {
            1
        } else {
            0
        };
        running.saturating_add(self.queue.len())
    }

    /// Returns true if no task runs and the queue is empty.
    pub fn is_empty(&self) -> (empty: bool)
        ensures
            empty == (self@.pool.len() == 0 && self@.queue.incoming.len() == 0),
    {
        !self.is_running_any() && self.queue.is_empty()
    }

    /// Returns true if a task runs. In general, that means that the task was pending at least
    /// once.
    pub fn is_running_any(&self) -> (running: bool)
        ensures
            running == (self@.pool.len() > 0),
    {
        !self.pool.is_empty()
    }

    /// Returns the id of the current task, if one runs.
    pub fn current_task_id(&self) -> (id: Option<CosyncTaskId>)
        ensures
            id == (if self@.pool.len() > 0 {
                Some(self@.pool[0].id)
            } else {
                None
            }),
    {
        self.pool.first_id()
    }

    /// Creates a queue handle, which can be used to spawn tasks in the cosync that the slot holds.
    pub fn create_queue_handle(shared: &Arc<Mutex<Option<Self>>>) -> (handle: CosyncQueueHandle<
        Self,
    >)
        ensures
            handle.shared() == *shared,
        opens_invariants none
    {
        CosyncQueueHandle::new(shared)
    }

    /// Takes a task that waits out of the queue.
    ///
    /// This returns `true` on success and `false` on failure.
    pub fn unqueue_task(&mut self, task_id: CosyncTaskId) -> (found: bool)
        ensures
            found == old(self)@.queue.waits(task_id),
            final(self)@ == old(self)@.unqueued(task_id),
    {
        self.queue.unqueue_task(task_id)
    }

    /// Stops the current running task.
    pub fn stop_running_task(&mut self)
        ensures
            final(self)@ == old(self)@.cleared_running(),
    {
        self.pool.clear();
    }

    /// Drops all tasks that wait. The running task is unaffected.
    pub fn clear_queue(&mut self)
        ensures
            final(self)@ == old(self)@.cleared_queue(),
    {
        self.queue.clear();
    }

    /// Drops the running task and all tasks that wait.
    pub fn clear(&mut self)
        ensures
            final(self)@ == old(self)@.cleared(),
    {
        self.pool.clear();
        self.queue.clear();
    }

    /// Adds a new task to the queue. It starts once no other task runs and all tasks that were
    /// queued before have left the queue.
    pub fn queue(&mut self, task: F) -> (id: CosyncTaskId)
        ensures
            id == old(self)@.queue.next_id(),
            final(self)@ == old(self)@.queued_back(task),
    {
        self.queue.push_back(task)
    }

    /// Begins a run, and a tick with it.
    pub fn begin_run(&mut self)
        ensures
            final(self)@ == old(self)@.ticked(),
    {
        self.pool.increment_counter();
    }

    /// Tells what to do next in a run. A task that it tells to poll is handed out with that; it is
    /// taken back by [finish_poll](SerialCosync::finish_poll).
    pub fn next_action(&mut self) -> (action: Action<F>)
        ensures
            (final(self)@, action) == old(self)@.serial_step(),
    {
        match self.pool.start_next() {
            Some(task) => Action::Poll(task),
            None => {
                if !self.pool.is_empty() {
                    return Action::Return(Poll::Pending);
                }
                match self.queue.pop_front() {
                    Some(front) => {
                        self.pool.push(front);
                        match self.pool.start_next() {
                            Some(task) => Action::Poll(task),
                            None => Action::Return(Poll::Pending),
                        }
                    },
                    None => Action::Return(Poll::Ready),
                }
            },
        }
    }

    /// Takes back the task that was handed out to be polled: a complete task leaves the pool, one
    /// that is pending stays. Returns whether any task was out.
    pub fn finish_poll(&mut self, outcome: Outcome<F>) -> (found: bool)
        ensures
            found == is_polling(old(self)@.pool),
            final(self)@ == old(self)@.finished(outcome),
    {
        self.pool.finish(outcome)
    }
}

impl<F> TaskQueue for SerialCosync<F> {
    type Task = F;

    open spec fn state(&self) -> CosyncState<F> {
        self@
    }

    fn queue_back(&mut self, task: F) -> (id: CosyncTaskId) {
        self.queue.push_back(task)
    }

    fn unqueue(&mut self, task_id: CosyncTaskId) -> (task: Option<FutureObject<F>>) {
        self.queue.take_task(task_id)
    }

    fn wake(&mut self, task_id: CosyncTaskId) {
        self.pool.wake(task_id);
    }
}

impl<F> Default for SerialCosync<F> {
    fn default() -> (cosync: Self)
        ensures
            cosync@ == CosyncState::<F>::initial(),
    {
        Self::new()
    }
}

} // verus!
