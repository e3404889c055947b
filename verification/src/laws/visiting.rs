//! What is done to a cosync through its handles and wakers, under the lock.

use crate::handle::{
    law_visit_leaves_what_it_does, only, queued_in, queued_through, unqueued_in, unqueued_through,
    visited, woken_in, Looking, Queueing, TaskQueue, TaskWaker, Unqueueing, Visit, Waking,
};
use crate::laws::operations::{
    law_queueing_adds_one_task, law_unqueueing_takes_the_first, law_waking_changes_one_task,
};
use crate::queue::FutureObject;
use crate::task_id::CosyncTaskId;
use crate::wake::ArcWake;
use parking_lot::Mutex;
use vstd::prelude::*;

verus! {

/// Different visits have different numbers: a function that may make one of them may not make
/// another.
pub proof fn law_visits_are_told_apart<C: TaskQueue>(
    task: C::Task,
    a: CosyncTaskId,
    b: CosyncTaskId,
)
    ensures
        ({
            let looking = <Looking as Visit<Option<C>>>::number(Looking);
            let queueing = Queueing::<C>(task).number();
            let unqueueing = <Unqueueing as Visit<Option<C>>>::number(Unqueueing(a));
            let waking = <Waking as Visit<Option<C>>>::number(Waking(b));
            &&& looking != queueing
            &&& looking != unqueueing
            &&& looking != waking
            &&& queueing != unqueueing
            &&& queueing != waking
            &&& unqueueing != waking
            &&& a != b ==> unqueueing != <Unqueueing as Visit<Option<C>>>::number(Unqueueing(b))
            &&& a != b ==> waking != <Waking as Visit<Option<C>>>::number(Waking(a))
        }),
{
}

/// The waker of a task makes no other visits than to wake that task.
pub proof fn law_waker_only_wakes<C: TaskQueue + Send>(waker: TaskWaker<C>, n: int)
    ensures
        waker.visits().contains(n) == (n == <Waking as Visit<Option<C>>>::number(
            Waking(waker.id()),
        )),
{
}

/// A section that can give what the visit does not is not taken for the visit, nor for any other.
pub proof fn law_other_sections_are_told_apart<
    T,
    A: Visit<T>,
    S: FnOnce(&mut T, A) -> A::Out,
    B: Visit<T>,
>(visit: A, section: S, value: &mut T, out: A::Out, other: B)
    requires
        section.ensures((value, visit), out),
        !call_ensures(A::run, (value, visit), out),
    ensures
        only::<T, A, S>(visit, section) != other.number(),
{
}

/// A visit to queue a task leaves in the slot the cosync that it found, with the same running
/// tasks, all tasks that waited, in their order, and the new one behind them. Where there is no
/// cosync, there is none afterwards, and the task is handed back.
pub proof fn law_queueing_visit<C: TaskQueue>(
    before: Option<C>,
    task: C::Task,
    after: Option<C>,
    out: Result<CosyncTaskId, C::Task>,
    i: int,
)
    requires
        Queueing::<C>(task).done(before, after, out),
    ensures
        before is Some == after is Some,
        before is None ==> out == Err::<CosyncTaskId, C::Task>(task),
        before is Some ==> {
            let was = before->0.state();
            let is = after->0.state();
            let n = was.queue.incoming.len();
            &&& out == Ok::<CosyncTaskId, C::Task>(CosyncTaskId(was.queue.counter))
            &&& is.pool == was.pool
            &&& is.queue.incoming.len() == n + 1
            &&& 0 <= i < n ==> is.queue.incoming[i] == was.queue.incoming[i]
            &&& is.queue.incoming[n as int] == FutureObject(task, out->Ok_0)
        },
{
    if let Some(cosync) = before {
        law_queueing_adds_one_task(cosync.state(), task, i);
    }
}

/// A visit to unqueue a task leaves in the slot the cosync that it found, with the same running
/// tasks and the same tasks in the queue, but for the first that waited under the identifier.
pub proof fn law_unqueueing_visit<C: TaskQueue>(
    before: Option<C>,
    task_id: CosyncTaskId,
    after: Option<C>,
    out: Option<Option<FutureObject<C::Task>>>,
    j: int,
)
    requires
        <Unqueueing as Visit<Option<C>>>::done(Unqueueing(task_id), before, after, out),
    ensures
        before is Some == after is Some,
        before is Some == out is Some,
        before is Some ==> {
            let was = before->0.state();
            let is = after->0.state();
            let incoming = was.queue.incoming;
            &&& is.pool == was.pool
            &&& is.queue.counter == was.queue.counter
            &&& out->0 is Some == was.queue.waits(task_id)
            &&& out->0 is None ==> is == was
            &&& out->0 is Some ==> exists|i: int|
                {
                    &&& 0 <= i < incoming.len()
                    &&& (#[trigger] incoming[i]).1 == task_id
                    &&& out->0 == Some(incoming[i])
                    &&& is.queue.incoming.len() == incoming.len() - 1
                    &&& 0 <= j < i ==> is.queue.incoming[j] == incoming[j]
                    &&& i < j < incoming.len() ==> is.queue.incoming[j - 1] == incoming[j]
                }
        },
{
    if let Some(cosync) = before {
        law_unqueueing_takes_the_first(cosync.state(), task_id, j);
    }
}

/// A visit to wake a task leaves in the slot the cosync that it found, in which the task asks to be
/// polled, and all else is as it was.
pub proof fn law_waking_visit<C: TaskQueue>(
    before: Option<C>,
    task_id: CosyncTaskId,
    after: Option<C>,
    k: int,
)
    requires
        <Waking as Visit<Option<C>>>::done(Waking(task_id), before, after, ()),
    ensures
        before is Some == after is Some,
        before is Some ==> {
            let was = before->0.state();
            let is = after->0.state();
            &&& is.queue == was.queue
            &&& is.pool.len() == was.pool.len()
            &&& 0 <= k < was.pool.len() ==> {
                &&& is.pool[k].id == was.pool[k].id
                &&& is.pool[k].body == was.pool[k].body
                &&& is.pool[k].polled == was.pool[k].polled
                &&& is.pool[k].ready == (was.pool[k].ready || was.pool[k].id == task_id)
            }
        },
{
    if let Some(cosync) = before {
        if 0 <= k < cosync.state().pool.len() {
            law_waking_changes_one_task(cosync.state(), task_id, k);
        }
    }
}

/// A visit to look leaves the slot as it was, and tells whether it holds a cosync.
pub proof fn law_looking_visit<C>(before: Option<C>, after: Option<C>, out: bool)
    requires
        <Looking as Visit<Option<C>>>::done(Looking, before, after, out),
    ensures
        after == before,
        out == (before is Some),
{
}

/// What a handle gave when a task was queued through it came from a visit to its own slot, in which
/// the task was put behind all that waited there, and nothing was taken away.
pub proof fn law_queueing_through_a_handle<C: TaskQueue>(
    mutex: Mutex<Option<C>>,
    task: C::Task,
    id: Option<CosyncTaskId>,
)
    requires
        queued_through(mutex, task, id),
    ensures
        exists|before: Option<C>, after: Option<C>, given: Result<CosyncTaskId, C::Task>|
            {
                &&& visited(mutex, Queueing::<C>(task), given)
                &&& #[trigger] queued_in(before, task, after, given)
                &&& id is Some == before is Some
                &&& id is Some ==> given == Ok::<CosyncTaskId, C::Task>(id->0)
            },
{
    let given = choose|given: Result<CosyncTaskId, C::Task>| #[trigger]
        visited(mutex, Queueing::<C>(task), given) && id == match given {
            Ok(new) => Some(new),
            Err(_) => None,
        };
    law_visit_leaves_what_it_does(mutex, Queueing::<C>(task), given);
    let (before, after) = choose|before: Option<C>, after: Option<C>| #[trigger]
        Queueing::<C>(task).done(before, after, given);
    assert(queued_in(before, task, after, given));
}

/// What a handle gave when a task was unqueued through it came from a visit to its own slot, in
/// which that task was taken out, if it waited there, and nothing else was done.
pub proof fn law_unqueueing_through_a_handle<C: TaskQueue>(
    mutex: Mutex<Option<C>>,
    task_id: CosyncTaskId,
    found: Option<bool>,
)
    requires
        unqueued_through(mutex, task_id, found),
    ensures
        exists|before: Option<C>, after: Option<C>, taken: Option<Option<FutureObject<C::Task>>>|
            {
                &&& visited(mutex, Unqueueing(task_id), taken)
                &&& #[trigger] unqueued_in(before, task_id, after, taken)
                &&& found is Some == before is Some
                &&& found is Some ==> found->0 == before->0.state().queue.waits(task_id)
            },
{
    let taken = choose|taken: Option<Option<FutureObject<C::Task>>>| #[trigger]
        visited(mutex, Unqueueing(task_id), taken) && found == match taken {
            Some(task) => Some(task is Some),
            None => None,
        };
    law_visit_leaves_what_it_does(mutex, Unqueueing(task_id), taken);
    let (before, after) = choose|before: Option<C>, after: Option<C>| #[trigger]
        <Unqueueing as Visit<Option<C>>>::done(Unqueueing(task_id), before, after, taken);
    assert(unqueued_in(before, task_id, after, taken));
}

/// Once the waker of a task was called, its own slot was visited, and the task was woken there.
pub proof fn law_waking_through_a_waker<C: TaskQueue>(
    mutex: Mutex<Option<C>>,
    task_id: CosyncTaskId,
)
    requires
        visited(mutex, Waking(task_id), ()),
    ensures
        exists|before: Option<C>, after: Option<C>| #[trigger] woken_in(before, task_id, after),
{
    law_visit_leaves_what_it_does(mutex, Waking(task_id), ());
    let (before, after) = choose|before: Option<C>, after: Option<C>| #[trigger]
        <Waking as Visit<Option<C>>>::done(Waking(task_id), before, after, ());
    assert(woken_in(before, task_id, after));
}

} // verus!
