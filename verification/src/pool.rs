//! The pool of running tasks.
//!
//! Tasks stand in the pool in the order in which they entered it. In one tick a task is polled at
//! most once, and only if it is ready: a task is ready when it enters the pool, and again each
//! time it is woken.

use crate::queue::FutureObject;
use crate::seqs::{first_index, lemma_first_index_is};
use crate::task_id::CosyncTaskId;
use vstd::prelude::*;

verus! {

/// What polling told: whether all work is done, or some of it is still pending.
#[derive(Debug, Clone, Copy, PartialEq, Eq, Structural)]
pub enum Poll {
    /// There is nothing left to do.
    Ready,
    /// There is work left that cannot go on now.
    Pending,
}

/// What became of a task that was handed out to be polled.
#[derive(Debug)]
pub enum Outcome<F> {
    /// The task is complete.
    Ready,
    /// The task goes on later. It is handed back to be kept.
    Pending(F),
}

/// Where the work of a running task is.
#[derive(Debug)]
pub enum Body<F> {
    /// In the pool.
    Idle(F),
    /// Handed out to be polled.
    Polling,
    /// Nowhere: the task was stopped, and completes as soon as it is its turn.
    Stopped,
}

/// A running task.
#[derive(Debug)]
pub struct PoolEntry<F> {
    /// The identifier that the task got when it was queued.
    pub id: CosyncTaskId,
    /// The work of the task.
    pub body: Body<F>,
    /// Whether the task has asked to be polled since it was last polled.
    pub ready: bool,
    /// Whether the task has been polled in this tick.
    pub polled: bool,
}

/// A set of running tasks.
#[derive(Debug)]
pub struct FuturesUnordered<F> {
    entries: Vec<PoolEntry<F>>,
}

/// The entry of a task that has just come into the pool.
pub open spec fn entered<F>(task: FutureObject<F>) -> PoolEntry<F> {
    PoolEntry { id: task.1, body: Body::Idle(task.0), ready: true, polled: false }
}

/// The entry of a task that has just been handed out to be polled.
pub open spec fn started<F>(entry: PoolEntry<F>) -> PoolEntry<F> {
    PoolEntry { id: entry.id, body: Body::Polling, ready: false, polled: true }
}

/// The entry of a task at the beginning of a tick.
pub open spec fn ticked<F>(entry: PoolEntry<F>) -> PoolEntry<F> {
    PoolEntry { id: entry.id, body: entry.body, ready: entry.ready, polled: false }
}

/// The entry once the task `id` has been woken.
pub open spec fn woken<F>(entry: PoolEntry<F>, id: CosyncTaskId) -> PoolEntry<F> {
    PoolEntry {
        id: entry.id,
        body: entry.body,
        ready: entry.ready || entry.id == id,
        polled: entry.polled,
    }
}

/// The entry of a task that has just been stopped.
pub open spec fn stopped<F>(entry: PoolEntry<F>) -> PoolEntry<F> {
    PoolEntry { id: entry.id, body: Body::Stopped, ready: entry.ready, polled: entry.polled }
}

/// The entry of a task that came back from being polled with more to do.
pub open spec fn returned<F>(entry: PoolEntry<F>, work: F) -> PoolEntry<F> {
    PoolEntry { id: entry.id, body: Body::Idle(work), ready: entry.ready, polled: entry.polled }
}

/// Whether it can be the turn of a task in this tick.
pub open spec fn is_runnable<F>(entry: PoolEntry<F>) -> bool {
    entry.ready && !entry.polled && entry.body !is Polling
}

/// The condition that it can be the turn of a task in this tick.
pub open spec fn runnable<F>() -> spec_fn(PoolEntry<F>) -> bool {
    |entry: PoolEntry<F>| is_runnable(entry)
}

/// The condition that a task is handed out.
pub open spec fn polling<F>() -> spec_fn(PoolEntry<F>) -> bool {
    |entry: PoolEntry<F>| entry.body is Polling
}

/// The condition that a running task has the identifier `id`.
pub open spec fn runs_as<F>(id: CosyncTaskId) -> spec_fn(PoolEntry<F>) -> bool {
    |entry: PoolEntry<F>| entry.id == id
}

/// Whether a task runs under the identifier `id`.
pub open spec fn runs<F>(pool: Seq<PoolEntry<F>>, id: CosyncTaskId) -> bool {
    exists|i: int| 0 <= i < pool.len() && (#[trigger] pool[i]).id == id
}

/// Whether some task is handed out.
pub open spec fn is_polling<F>(pool: Seq<PoolEntry<F>>) -> bool {
    exists|i: int| 0 <= i < pool.len() && (#[trigger] pool[i]).body is Polling
}

/// The entries of tasks that have just come into the pool, in their order.
pub open spec fn all_entered<F>(tasks: Seq<FutureObject<F>>) -> Seq<PoolEntry<F>> {
    tasks.map_values(|task: FutureObject<F>| entered(task))
}

/// The pool at the beginning of a tick.
pub open spec fn all_ticked<F>(pool: Seq<PoolEntry<F>>) -> Seq<PoolEntry<F>> {
    pool.map_values(|entry: PoolEntry<F>| ticked(entry))
}

/// The pool once the task `id` has been woken.
pub open spec fn all_woken<F>(pool: Seq<PoolEntry<F>>, id: CosyncTaskId) -> Seq<PoolEntry<F>> {
    pool.map_values(|entry: PoolEntry<F>| woken(entry, id))
}

/// The pool once the first task under `id` has been stopped.
pub open spec fn one_stopped<F>(pool: Seq<PoolEntry<F>>, id: CosyncTaskId) -> Seq<PoolEntry<F>> {
    let i = first_index(pool, runs_as(id)) as int;
    if i < pool.len() {
        pool.update(i, stopped(pool[i]))
    } else {
        pool
    }
}

/// The turn of the next task: always of the first one in the pool that can have it. A stopped
/// task just leaves when it is its turn, and the turn passes on. The result is the pool
/// afterwards, and the task that is handed out, or none if it can be nobody's turn.
pub open spec fn next_turn<F>(pool: Seq<PoolEntry<F>>) -> (
    Seq<PoolEntry<F>>,
    Option<FutureObject<F>>,
)
    decreases pool.len(),
{
    let i = first_index(pool, runnable()) as int;
    if 0 <= i < pool.len() {
        match pool[i].body {
            Body::Idle(work) => (
                pool.update(i, started(pool[i])),
                Some(FutureObject(work, pool[i].id)),
            ),
            _ => next_turn(pool.remove(i)),
        }
    } else {
        (pool, None)
    }
}

/// The pool once the task that was handed out has come back.
pub open spec fn one_returned<F>(pool: Seq<PoolEntry<F>>, outcome: Outcome<F>) -> Seq<
    PoolEntry<F>,
> {
    let i = first_index(pool, polling()) as int;
    if i < pool.len() {
        match outcome {
            Outcome::Ready => pool.remove(i),
            Outcome::Pending(work) => pool.update(i, returned(pool[i], work)),
        }
    } else {
        pool
    }
}

impl<F> View for FuturesUnordered<F> {
    type V = Seq<PoolEntry<F>>;

    closed spec fn view(&self) -> Seq<PoolEntry<F>> {
        self.entries@
    }
}

impl<F> FuturesUnordered<F> {
    /// An empty pool.
    pub fn new() -> (pool: Self)
        ensures
            pool@ == Seq::<PoolEntry<F>>::empty(),
    {
        FuturesUnordered { entries: Vec::new() }
    }

    /// The number of running tasks.
    pub fn len(&self) -> (n: usize)
        ensures
            n == self@.len(),
    {
        self.entries.len()
    }

    /// Whether no task runs.
    pub fn is_empty(&self) -> (empty: bool)
        ensures
            empty == (self@.len() == 0),
    {
        self.entries.len() == 0
    }

    /// The identifier of the first running task, if any runs.
    pub fn first_id(&self) -> (id: Option<CosyncTaskId>)
        ensures
            id == (if self@.len() > 0 {
                Some(self@[0].id)
            } else {
                None
            }),
    {
        if self.entries.len() > 0 {
            Some(self.entries[0].id)
        } else {
            None
        }
    }

    /// Whether a task runs under the identifier `task_id`.
    pub fn is_running(&self, task_id: CosyncTaskId) -> (running: bool)
        ensures
            running == runs(self@, task_id),
    {
        let mut i: usize = 0;
        while i < self.entries.len()
            invariant
                i <= self.entries@.len(),
                forall|k: int| 0 <= k < i ==> (#[trigger] self@[k]).id != task_id,
            decreases self.entries@.len() - i,
        {
            if self.entries[i].id == task_id {
                assert(self@[i as int].id == task_id);
                return true;
            }
            i = i + 1;
        }
        false
    }

    /// Takes a task into the pool, behind all others.
    pub fn push(&mut self, task: FutureObject<F>)
        ensures
            final(self)@ == old(self)@.push(entered(task)),
    {
        let FutureObject(work, id) = task;
        self.entries.push(PoolEntry { id, body: Body::Idle(work), ready: true, polled: false });
    }

    /// Drops every task.
    pub fn clear(&mut self)
        ensures
            final(self)@ == Seq::<PoolEntry<F>>::empty(),
    {
        self.entries.clear();
    }

    /// Begins a tick: every task may be polled once more.
    pub fn increment_counter(&mut self)
        ensures
            final(self)@ == all_ticked(old(self)@),
    {
        let mut i: usize = 0;
        while i < self.entries.len()
            invariant
                i <= self.entries@.len(),
                self.entries@.len() == old(self)@.len(),
                forall|k: int|
                    0 <= k < i ==> #[trigger] self.entries@[k] == ticked(old(self)@[k]),
                forall|k: int|
                    i <= k < self.entries@.len() ==> #[trigger] self.entries@[k] == old(self)@[k],
            decreases self.entries@.len() - i,
        {
            self.entries[i].polled = false;
            i = i + 1;
        }
    }

    /// Wakes the task `task_id`: it has its turn in this tick, if it was not polled in it yet, or
    /// else in the next.
    pub fn wake(&mut self, task_id: CosyncTaskId)
        ensures
            final(self)@ == all_woken(old(self)@, task_id),
    {
        let mut i: usize = 0;
        while i < self.entries.len()
            invariant
                i <= self.entries@.len(),
                self.entries@.len() == old(self)@.len(),
                forall|k: int|
                    0 <= k < i ==> #[trigger] self.entries@[k] == woken(old(self)@[k], task_id),
                forall|k: int|
                    i <= k < self.entries@.len() ==> #[trigger] self.entries@[k] == old(self)@[k],
            decreases self.entries@.len() - i,
        {
            if self.entries[i].id == task_id {
                self.entries[i].ready = true;
            }
            i = i + 1;
        }
    }

    /// Stops the first task under `task_id`: its work is dropped, and it completes as soon as it
    /// is its turn. Returns whether there was such a task.
    pub fn stop(&mut self, task_id: CosyncTaskId) -> (found: bool)
        ensures
            found == runs(old(self)@, task_id),
            final(self)@ == one_stopped(old(self)@, task_id),
    {
        let mut i: usize = 0;
        while i < self.entries.len()
            invariant
                i <= self.entries@.len(),
                self@ == old(self)@,
                forall|k: int| 0 <= k < i ==> (#[trigger] self@[k]).id != task_id,
            decreases self.entries@.len() - i,
        {
            if self.entries[i].id == task_id {
                proof {
                    lemma_first_index_is(self@, runs_as(task_id), i as int);
                    assert(old(self)@[i as int].id == task_id);
                }
                self.entries[i].body = Body::Stopped;
                return true;
            }
            i = i + 1;
        }
        proof {
            lemma_first_index_is(self@, runs_as(task_id), i as int);
        }
        false
    }

    /// Hands out the task whose turn it is, if it is anybody's.
    pub fn start_next(&mut self) -> (task: Option<FutureObject<F>>)
        ensures
            (final(self)@, task) == next_turn(old(self)@),
    {
        let mut i: usize = 0;
        while i < self.entries.len()
            invariant
                i <= self.entries@.len(),
                next_turn(self@) == next_turn(old(self)@),
                forall|k: int| 0 <= k < i ==> !is_runnable(#[trigger] self@[k]),
            decreases self.entries@.len() - i,
        {
            let ghost before = self@;
            if self.entries[i].ready && !self.entries[i].polled {
                let mut body: Body<F> = Body::Polling;
                core::mem::swap(&mut self.entries[i].body, &mut body);
                match body {
                    Body::Idle(work) => {
                        self.entries[i].ready = false;
                        self.entries[i].polled = true;
                        proof {
                            lemma_first_index_is(before, runnable(), i as int);
                            assert(self@ =~= before.update(i as int, started(before[i as int])));
                        }
                        return Some(FutureObject(work, self.entries[i].id));
                    },
                    Body::Stopped => {
                        let _ = self.entries.remove(i);
                        proof {
                            lemma_first_index_is(before, runnable(), i as int);
                            assert(self@ =~= before.remove(i as int));
                        }
                    },
                    Body::Polling => {
                        assert(self@ =~= before);
                        i = i + 1;
                    },
                }
            } else {
                i = i + 1;
            }
        }
        proof {
            lemma_first_index_is(self@, runnable(), i as int);
        }
        None
    }

    /// Takes back the task that was handed out. Returns whether one was.
    pub fn finish(&mut self, outcome: Outcome<F>) -> (found: bool)
        ensures
            found == is_polling(old(self)@),
            final(self)@ == one_returned(old(self)@, outcome),
    {
        let mut i: usize = 0;
        while i < self.entries.len()
            invariant
                i <= self.entries@.len(),
                self@ == old(self)@,
                forall|k: int| 0 <= k < i ==> (#[trigger] self@[k]).body !is Polling,
            decreases self.entries@.len() - i,
        {
            if matches!(self.entries[i].body, Body::Polling) {
                proof {
                    lemma_first_index_is(self@, polling(), i as int);
                    assert(old(self)@[i as int].body is Polling);
                }
                match outcome {
                    Outcome::Ready => {
                        let _ = self.entries.remove(i);
                    },
                    Outcome::Pending(work) => {
                        self.entries[i].body = Body::Idle(work);
                    },
                }
                return true;
            }
            i = i + 1;
        }
        proof {
            lemma_first_index_is(self@, polling(), i as int);
        }
        false
    }
}

} // verus!
