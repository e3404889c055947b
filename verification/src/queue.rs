//! The queue of tasks that wait to be taken into the pool.

use crate::seqs::{first_index, lemma_first_index_is};
use crate::task_id::CosyncTaskId;
use std::collections::VecDeque;
use vstd::prelude::*;

verus! {

/// A task, with the identifier that it was given when it was queued.
#[derive(Debug)]
pub struct FutureObject<F>(pub F, pub CosyncTaskId);

/// Tasks in the order in which they were queued, and the number that the next task gets.
#[derive(Debug)]
pub struct IncomingQueue<F> {
    incoming: VecDeque<FutureObject<F>>,
    counter: u64,
}

/// What an [IncomingQueue] holds.
#[verifier::ext_equal]
pub struct QueueState<F> {
    /// The tasks that wait, the one queued first at index 0.
    pub incoming: Seq<FutureObject<F>>,
    /// The number of the next task identifier.
    pub counter: u64,
}

/// The condition that a waiting task has the identifier `id`.
pub open spec fn waits_as<F>(id: CosyncTaskId) -> spec_fn(FutureObject<F>) -> bool {
    |task: FutureObject<F>| task.1 == id
}

impl<F> QueueState<F> {
    /// The identifier that the next task gets.
    pub open spec fn next_id(self) -> CosyncTaskId {
        CosyncTaskId(self.counter)
    }

    /// The queue once its next identifier has been handed out.
    pub open spec fn counted(self) -> QueueState<F> {
        QueueState {
            incoming: self.incoming,
            counter: if self.counter < u64::MAX {
                (self.counter + 1) as u64
            } else {
                0
            },
        }
    }

    /// The queue once `task` has been put at its back under the next identifier.
    pub open spec fn queued(self, task: F) -> QueueState<F> {
        QueueState {
            incoming: self.incoming.push(FutureObject(task, self.next_id())),
            counter: self.counted().counter,
        }
    }

    /// Whether some task waits under the identifier `id`.
    pub open spec fn waits(self, id: CosyncTaskId) -> bool {
        exists|i: int| 0 <= i < self.incoming.len() && (#[trigger] self.incoming[i]).1 == id
    }

    /// The first task that waits under `id`, if there is one.
    pub open spec fn waiting(self, id: CosyncTaskId) -> Option<FutureObject<F>> {
        let i = first_index(self.incoming, waits_as(id));
        if i < self.incoming.len() {
            Some(self.incoming[i as int])
        } else {
            None
        }
    }

    /// The queue without the first task that waits under `id`.
    pub open spec fn unqueued(self, id: CosyncTaskId) -> QueueState<F> {
        let i = first_index(self.incoming, waits_as(id));
        if i < self.incoming.len() {
            QueueState { incoming: self.incoming.remove(i as int), counter: self.counter }
        } else {
            self
        }
    }

    /// The queue without any task. The identifiers go on where they were.
    pub open spec fn cleared(self) -> QueueState<F> {
        QueueState { incoming: Seq::empty(), counter: self.counter }
    }
}

impl<F> View for IncomingQueue<F> {
    type V = QueueState<F>;

    closed spec fn view(&self) -> QueueState<F> {
        QueueState { incoming: self.incoming@, counter: self.counter }
    }
}

impl<F> IncomingQueue<F> {
    /// An empty queue, whose first task gets the number 0.
    pub fn new() -> (queue: Self)
        ensures
            queue@ == (QueueState::<F> { incoming: Seq::empty(), counter: 0 }),
    {
        IncomingQueue { incoming: VecDeque::new(), counter: 0 }
    }

    /// The number of tasks that wait.
    pub fn len(&self) -> (n: usize)
        ensures
            n == self@.incoming.len(),
    {
        self.incoming.len()
    }

    /// Whether no task waits.
    pub fn is_empty(&self) -> (empty: bool)
        ensures
            empty == (self@.incoming.len() == 0),
    {
        self.incoming.len() == 0
    }

    /// Hands out the next task identifier.
    pub fn next_cosync_task_id(&mut self) -> (id: CosyncTaskId)
        ensures
            id == old(self)@.next_id(),
            final(self)@ == old(self)@.counted(),
    {
        let id = CosyncTaskId(self.counter);
        self.counter = self.counter.wrapping_add(1);
        id
    }

    /// Puts `task` at the back of the queue, and returns the identifier that it got.
    pub fn push_back(&mut self, task: F) -> (id: CosyncTaskId)
        ensures
            id == old(self)@.next_id(),
            final(self)@ == old(self)@.queued(task),
    {
        let id = self.next_cosync_task_id();
        self.incoming.push_back(FutureObject(task, id));
        id
    }

    /// Takes the task at the front of the queue, if there is one.
    pub fn pop_front(&mut self) -> (task: Option<FutureObject<F>>)
        ensures
            final(self)@.counter == old(self)@.counter,
            match task {
                Some(front) => {
                    &&& old(self)@.incoming.len() > 0
                    &&& front == old(self)@.incoming[0]
                    &&& final(self)@.incoming == old(self)@.incoming.drop_first()
                },
                None => old(self)@.incoming.len() == 0 && final(self)@ == old(self)@,
            },
    {
        self.incoming.pop_front()
    }

    /// Removes the first task that waits under `task_id`, and hands it out. Returns `None` if
    /// there is no such task.
    pub fn take_task(&mut self, task_id: CosyncTaskId) -> (task: Option<FutureObject<F>>)
        ensures
            task == old(self)@.waiting(task_id),
            task is Some == old(self)@.waits(task_id),
            final(self)@ == old(self)@.unqueued(task_id),
    {
        let mut i: usize = 0;
        while i < self.incoming.len()
            invariant
                i <= self.incoming@.len(),
                self@ == old(self)@,
                forall|k: int| 0 <= k < i ==> (#[trigger] self.incoming@[k]).1 != task_id,
            decreases self.incoming@.len() - i,
        {
            if self.incoming[i].1 == task_id {
                proof {
                    lemma_first_index_is(self.incoming@, waits_as(task_id), i as int);
                    assert(old(self)@.incoming[i as int].1 == task_id);
                }
                return self.incoming.remove(i);
            }
            i = i + 1;
        }
        proof {
            lemma_first_index_is(self.incoming@, waits_as(task_id), i as int);
        }
        None
    }

    /// Removes the first task that waits under `task_id`. Returns whether there was one.
    pub fn unqueue_task(&mut self, task_id: CosyncTaskId) -> (found: bool)
        ensures
            found == old(self)@.waits(task_id),
            final(self)@ == old(self)@.unqueued(task_id),
    {
        self.take_task(task_id).is_some()
    }

    /// Removes every task. The identifiers go on where they were.
    pub fn clear(&mut self)
        ensures
            final(self)@ == old(self)@.cleared(),
    {
        self.incoming.clear();
    }
}

} // verus!
