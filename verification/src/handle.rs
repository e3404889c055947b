//! Queueing tasks from outside of a cosync: from other threads, and from within tasks.
//!
//! The owner of a cosync and its handles share a slot that holds the cosync. Dropping the cosync
//! empties the slot; from then on every handle reports that there is nothing to queue into.

use crate::queue::FutureObject;
use crate::state::CosyncState;
use crate::task_id::CosyncTaskId;
use crate::wake::ArcWake;
use parking_lot::Mutex;
use std::marker::PhantomData;
use std::rc::Rc;
use std::sync::Arc;
use vstd::prelude::*;

verus! {

/// `parking_lot::lock_api::Mutex`, the type behind `parking_lot::Mutex`: a value that only the
/// thread that holds the lock can reach.
#[verifier::external_type_specification]
#[verifier::external_body]
#[verifier::reject_recursive_types(R)]
#[verifier::reject_recursive_types(T)]
pub struct ExMutex<R, T: ?Sized>(parking_lot::lock_api::Mutex<R, T>);

/// `parking_lot::RawMutex`, the lock that a `parking_lot::Mutex` is made with.
#[verifier::external_type_specification]
#[verifier::external_body]
pub struct ExRawMutex(parking_lot::RawMutex);

/// Something to be done to a value that is shared behind a lock, while the lock is held.
///
/// Every visit has a number. A function that names the numbers of some visits in its
/// `opens_invariants` clause, by [only](only), makes no other visits, neither itself nor through
/// what it calls.
pub trait Visit<T>: Sized {
    /// What comes out of the visit.
    type Out;

    /// The number of the visit.
    spec fn number(self) -> nat;

    /// Whether the visit can find `before`, leave `after`, and give `out`.
    spec fn done(self, before: T, after: T, out: Self::Out) -> bool;

    /// Does it.
    fn run(value: &mut T, visit: Self) -> (out: Self::Out)
        ensures
            visit.done(*old(value), *final(value), out),
    ;
}

/// The section does what the visit is, and nothing else.
pub open spec fn runs_visit<T, A: Visit<T>, S: FnOnce(&mut T, A) -> A::Out>(
    visit: A,
    section: S,
) -> bool {
    forall|value: &mut T, out: A::Out| #[trigger]
        section.ensures((value, visit), out) ==> call_ensures(A::run, (value, visit), out)
}

/// What is done under the lock when `section` runs for `visit`: the visit, or, by a number that no
/// visit has, anything.
pub open spec fn only<T, A: Visit<T>, S: FnOnce(&mut T, A) -> A::Out>(
    visit: A,
    section: S,
) -> int {
    if runs_visit::<T, A, S>(visit, section) {
        visit.number() as int
    } else {
        -1
    }
}

/// Calls `parking_lot::Mutex::lock` and hands the locked value to `section`, which runs with the
/// lock held, once. The result is what `section` gave back for the value that was found. Which
/// value that is depends on what other threads did with the lock before, so nothing is said of it.
///
/// The calling thread must not hold the lock already: it would wait for itself.
#[verifier::external_body]
fn with_lock<T, A: Visit<T>, S: FnOnce(&mut T, A) -> A::Out>(
    mutex: &Mutex<T>,
    visit: A,
    section: S,
) -> (result: A::Out)
    requires
        forall|value: &mut T| #[trigger] section.requires((value, visit)),
    ensures
        exists|value: &mut T| #[trigger] section.ensures((value, visit), result),
    opens_invariants [only::<T, A, S>(visit, section)]
{
    section(&mut *mutex.lock(), visit)
}

/// The value behind `mutex` was visited, and the visit gave `out`.
pub closed spec fn visited<T, A: Visit<T>>(mutex: Mutex<T>, visit: A, out: A::Out) -> bool {
    call_ensures(with_lock::<T, A, _>, (&mutex, visit, A::run), out)
}

/// To have been visited is to have been locked, with the lock held while the visit was made, and
/// nothing less.
proof fn law_visited_was_locked<T, A: Visit<T>>(mutex: Mutex<T>, visit: A, out: A::Out)
    ensures
        visited(mutex, visit, out) == call_ensures(
            with_lock::<T, A, _>,
            (&mutex, visit, A::run),
            out,
        ),
{
}

/// What a section gave was given for some value.
proof fn lemma_section_ran<T, A: Visit<T>, S: FnOnce(&mut T, A) -> A::Out>(
    mutex: &Mutex<T>,
    visit: A,
    section: S,
    out: A::Out,
)
    requires
        call_ensures(with_lock::<T, A, S>, (mutex, visit, section), out),
    ensures
        exists|value: &mut T| #[trigger] section.ensures((value, visit), out),
{
}

/// What a visit gave, it gave for a value that it left as it says.
proof fn lemma_visit_ran<T, A: Visit<T>>(value: &mut T, visit: A, out: A::Out)
    requires
        call_ensures(A::run, (value, visit), out),
    ensures
        visit.done(*old(value), *final(value), out),
{
}

/// A visit found some value behind the lock, and left in its place what the visit makes of it.
pub proof fn law_visit_leaves_what_it_does<T, A: Visit<T>>(
    mutex: Mutex<T>,
    visit: A,
    out: A::Out,
)
    requires
        visited(mutex, visit, out),
    ensures
        exists|before: T, after: T| #[trigger] visit.done(before, after, out),
{
    lemma_section_ran(&mutex, visit, A::run, out);
    let value = choose|value: &mut T| #[trigger] call_ensures(A::run, (value, visit), out);
    lemma_visit_ran(value, visit, out);
    assert(visit.done(*value, *final(value), out));
}

/// What can be done to a cosync from outside.
pub trait TaskQueue: Sized {
    /// The work of a task.
    type Task;

    /// What the cosync holds.
    spec fn state(&self) -> CosyncState<Self::Task>;

    /// Puts a task at the back of the queue.
    fn queue_back(&mut self, task: Self::Task) -> (id: CosyncTaskId)
        ensures
            id == old(self).state().queue.next_id(),
            final(self).state() == old(self).state().queued_back(task),
    ;

    /// Takes the first task that waits under `task_id` out of the queue, and hands it out. Returns
    /// `None` if there is no such task.
    fn unqueue(&mut self, task_id: CosyncTaskId) -> (task: Option<
        FutureObject<Self::Task>,
    >)
        ensures
            task == old(self).state().queue.waiting(task_id),
            task is Some == old(self).state().queue.waits(task_id),
            final(self).state() == old(self).state().unqueued(task_id),
    ;

    /// Wakes the task `task_id`, so that it is polled again.
    fn wake(&mut self, task_id: CosyncTaskId)
        ensures
            final(self).state() == old(self).state().woken(task_id),
    ;
}

/// Queueing `task` into a slot that held `before` leaves `after` in it, and gives `id`. Where there
/// is no cosync, the task is handed back.
pub open spec fn queued_in<C: TaskQueue>(
    before: Option<C>,
    task: C::Task,
    after: Option<C>,
    id: Result<CosyncTaskId, C::Task>,
) -> bool {
    match before {
        Some(cosync) => {
            &&& id == Ok::<CosyncTaskId, C::Task>(cosync.state().queue.next_id())
            &&& after is Some
            &&& after->0.state() == cosync.state().queued_back(task)
        },
        None => id == Err::<CosyncTaskId, C::Task>(task) && after is None,
    }
}

/// Unqueueing `task_id` from a slot that held `before` leaves `after` in it, and gives `taken`:
/// the task if one waited, or that there is no cosync.
pub open spec fn unqueued_in<C: TaskQueue>(
    before: Option<C>,
    task_id: CosyncTaskId,
    after: Option<C>,
    taken: Option<Option<FutureObject<C::Task>>>,
) -> bool {
    match before {
        Some(cosync) => {
            &&& taken == Some(cosync.state().queue.waiting(task_id))
            &&& taken->0 is Some == cosync.state().queue.waits(task_id)
            &&& after is Some
            &&& after->0.state() == cosync.state().unqueued(task_id)
        },
        None => taken is None && after is None,
    }
}

/// There is a slot into which queueing `task` gives `id`.
pub open spec fn some_slot_queues<C: TaskQueue>(
    task: C::Task,
    id: Option<CosyncTaskId>,
) -> bool {
    exists|before: Option<C>, after: Option<C>, given: Result<CosyncTaskId, C::Task>| #[trigger]
        queued_in(before, task, after, given) && id == match given {
            Ok(new) => Some(new),
            Err(_) => None,
        }
}

/// There is a slot from which unqueueing `task_id` gives `found`.
pub open spec fn some_slot_unqueues<C: TaskQueue>(
    task_id: CosyncTaskId,
    found: Option<bool>,
) -> bool {
    exists|before: Option<C>, after: Option<C>, taken: Option<Option<FutureObject<C::Task>>>|
        #[trigger] unqueued_in(before, task_id, after, taken) && found == match taken {
            Some(task) => Some(task is Some),
            None => None,
        }
}

/// The cosync behind `mutex` was visited to queue `task`, and that gave `id`.
pub open spec fn queued_through<C: TaskQueue>(
    mutex: Mutex<Option<C>>,
    task: C::Task,
    id: Option<CosyncTaskId>,
) -> bool {
    exists|given: Result<CosyncTaskId, C::Task>| #[trigger]
        visited(mutex, Queueing::<C>(task), given) && id == match given {
            Ok(new) => Some(new),
            Err(_) => None,
        }
}

/// The cosync behind `mutex` was visited to unqueue `task_id`, and that gave `found`.
pub open spec fn unqueued_through<C: TaskQueue>(
    mutex: Mutex<Option<C>>,
    task_id: CosyncTaskId,
    found: Option<bool>,
) -> bool {
    exists|taken: Option<Option<FutureObject<C::Task>>>| #[trigger]
        visited(mutex, Unqueueing(task_id), taken) && found == match taken {
            Some(task) => Some(task is Some),
            None => None,
        }
}

/// The number of the visit that unqueues `task_id`.
pub open spec fn unqueueing<C: TaskQueue>(task_id: CosyncTaskId) -> int {
    <Unqueueing as Visit<Option<C>>>::number(Unqueueing(task_id)) as int
}

/// Waking `task_id` in a slot that held `before` leaves `after` in it.
pub open spec fn woken_in<C: TaskQueue>(
    before: Option<C>,
    task_id: CosyncTaskId,
    after: Option<C>,
) -> bool {
    match before {
        Some(cosync) => after is Some && after->0.state() == cosync.state().woken(task_id),
        None => after is None,
    }
}

/// Puts a task at the back of the queue of the cosync in `slot`, or hands it back if there is no
/// cosync.
pub fn queue_in<C: TaskQueue>(slot: &mut Option<C>, task: C::Task) -> (id: Result<
    CosyncTaskId,
    C::Task,
>)
    ensures
        queued_in(*old(slot), task, *final(slot), id),
{
    match slot {
        Some(cosync) => Ok(cosync.queue_back(task)),
        None => Err(task),
    }
}

/// Takes a task out of the queue of the cosync in `slot`, if there is one, and hands it out.
pub fn unqueue_in<C: TaskQueue>(slot: &mut Option<C>, task_id: CosyncTaskId) -> (taken: Option<
    Option<FutureObject<C::Task>>,
>)
    ensures
        unqueued_in(*old(slot), task_id, *final(slot), taken),
{
    match slot {
        Some(cosync) => Some(cosync.unqueue(task_id)),
        None => None,
    }
}

/// Wakes a task of the cosync in `slot`, if there is one.
pub fn wake_in<C: TaskQueue>(slot: &mut Option<C>, task_id: CosyncTaskId)
    ensures
        woken_in(*old(slot), task_id, *final(slot)),
{
    match slot {
        Some(cosync) => cosync.wake(task_id),
        None => {},
    }
}

/// To put a task at the back of the queue.
#[verifier::reject_recursive_types(C)]
pub struct Queueing<C: TaskQueue>(pub C::Task);

impl<C: TaskQueue> Visit<Option<C>> for Queueing<C> {
    type Out = Result<CosyncTaskId, C::Task>;

    open spec fn number(self) -> nat {
        1
    }

    open spec fn done(self, before: Option<C>, after: Option<C>, out: Self::Out) -> bool {
        queued_in(before, self.0, after, out)
    }

    fn run(value: &mut Option<C>, visit: Self) -> (out: Self::Out) {
        queue_in(value, visit.0)
    }
}

/// To take a task out of the queue.
pub struct Unqueueing(pub CosyncTaskId);

impl<C: TaskQueue> Visit<Option<C>> for Unqueueing {
    type Out = Option<Option<FutureObject<C::Task>>>;

    open spec fn number(self) -> nat {
        2 + 2 * self.0.0 as nat
    }

    open spec fn done(self, before: Option<C>, after: Option<C>, out: Self::Out) -> bool {
        unqueued_in(before, self.0, after, out)
    }

    fn run(value: &mut Option<C>, visit: Self) -> (out: Self::Out) {
        unqueue_in(value, visit.0)
    }
}

/// To wake a task.
pub struct Waking(pub CosyncTaskId);

impl<C: TaskQueue> Visit<Option<C>> for Waking {
    type Out = ();

    open spec fn number(self) -> nat {
        3 + 2 * self.0.0 as nat
    }

    open spec fn done(self, before: Option<C>, after: Option<C>, out: ()) -> bool {
        woken_in(before, self.0, after)
    }

    fn run(value: &mut Option<C>, visit: Self) -> (out: ()) {
        wake_in(value, visit.0)
    }
}

/// To see whether there is a cosync.
pub struct Looking;

impl<C> Visit<Option<C>> for Looking {
    type Out = bool;

    open spec fn number(self) -> nat {
        0
    }

    open spec fn done(self, before: Option<C>, after: Option<C>, out: bool) -> bool {
        out == (before is Some) && after == before
    }

    fn run(value: &mut Option<C>, visit: Self) -> (out: bool) {
        is_alive(value)
    }
}

/// A handle to spawn tasks.
#[derive(Debug)]
#[verifier::reject_recursive_types(C)]
pub struct CosyncQueueHandle<C> {
    shared: Arc<Mutex<Option<C>>>,
}

impl<C> CosyncQueueHandle<C> {
    /// The slot that the handle shares with the owner of the cosync.
    pub closed spec fn shared(self) -> Arc<Mutex<Option<C>>> {
        self.shared
    }

    /// A handle to the cosync in the given slot.
    pub fn new(shared: &Arc<Mutex<Option<C>>>) -> (handle: Self)
        ensures
            handle.shared() == *shared,
        opens_invariants none
    {
        CosyncQueueHandle { shared: Arc::clone(shared) }
    }
}

impl<C: TaskQueue> CosyncQueueHandle<C> {
    /// Adds a new task to the back of the queue.
    ///
    /// A return of `None` indicates that the task was not queued because the cosync has been
    /// dropped while a handle still exists. The task is dropped then, with the lock released.
    pub fn queue(&self, task: C::Task) -> (id: Option<CosyncTaskId>)
        ensures
            some_slot_queues::<C>(task, id),
            queued_through(*self.shared(), task, id),
        opens_invariants [Queueing::<C>(task).number() as int]
    {
        let given = with_lock(&self.shared, Queueing::<C>(task), Queueing::<C>::run);
        proof {
            assert(visited(*self.shared(), Queueing::<C>(task), given));
        }
        match given {
            Ok(id) => Some(id),
            Err(_) => None,
        }
    }

    /// Takes a task that waits out of the queue.
    ///
    /// A return of `None` indicates that the cosync has been dropped while a handle still exists.
    ///
    /// This returns `Some(true)` on success. The task is dropped then, with the lock released.
    pub fn unqueue_task(&mut self, task_id: CosyncTaskId) -> (found: Option<bool>)
        ensures
            final(self).shared() == old(self).shared(),
            some_slot_unqueues::<C>(task_id, found),
            unqueued_through(*old(self).shared(), task_id, found),
        opens_invariants [unqueueing::<C>(task_id)]
    {
        let taken = with_lock(
            &self.shared,
            Unqueueing(task_id),
            <Unqueueing as Visit<Option<C>>>::run,
        );
        proof {
            assert(visited(*self.shared(), Unqueueing(task_id), taken));
        }
        match taken {
            Some(Some(_)) => Some(true),
            Some(None) => Some(false),
            None => None,
        }
    }
}

impl<C> Clone for CosyncQueueHandle<C> {
    fn clone(&self) -> (handle: Self)
        ensures
            handle.shared() == self.shared(),
    {
        CosyncQueueHandle { shared: Arc::clone(&self.shared) }
    }
}

/// The waker of one task of a cosync.
#[verifier::reject_recursive_types(C)]
pub struct TaskWaker<C> {
    shared: Arc<Mutex<Option<C>>>,
    id: CosyncTaskId,
}

impl<C> TaskWaker<C> {
    /// The slot that holds the cosync.
    pub closed spec fn shared(self) -> Arc<Mutex<Option<C>>> {
        self.shared
    }

    /// The task that is woken.
    pub closed spec fn id(self) -> CosyncTaskId {
        self.id
    }

    /// A waker of the task `id` of the cosync in the given slot.
    pub fn new(shared: &Arc<Mutex<Option<C>>>, id: CosyncTaskId) -> (waker: Self)
        ensures
            waker.shared() == *shared,
            waker.id() == id,
        opens_invariants none
    {
        TaskWaker { shared: Arc::clone(shared), id }
    }
}

impl<C: TaskQueue> TaskWaker<C> {
    /// Wakes the task of the waker in the cosync that `slot` holds, if it holds one.
    pub fn wake_slot(&self, slot: &mut Option<C>)
        ensures
            woken_in(*old(slot), self.id(), *final(slot)),
    {
        wake_in(slot, self.id)
    }
}

impl<C: TaskQueue + Send> ArcWake for TaskWaker<C> {
    open spec fn visits(&self) -> Set<int> {
        set![<Waking as Visit<Option<C>>>::number(Waking(self.id())) as int]
    }

    /// Wakes the task in the cosync that the slot holds, as [wake_slot](TaskWaker::wake_slot) does.
    /// What the slot holds depends on what other threads did with it before.
    fn wake_by_ref(arc_self: &Arc<Self>)
        ensures
            visited(*arc_self.shared(), Waking(arc_self.id()), ()),
    {
        with_lock(&arc_self.shared, Waking(arc_self.id), <Waking as Visit<Option<C>>>::run)
    }
}

/// Why a task cannot get at the parameter of the run.
#[derive(Debug, Clone, Copy, PartialEq, Eq, Structural)]
pub enum GetError {
    /// The cosync was dropped.
    CosyncDropped,
    /// No run is going on.
    NotRunning,
}

impl GetError {
    /// The error in words.
    pub fn message(&self) -> (text: &'static str)
        ensures
            text@ == (match self {
                GetError::CosyncDropped => "cosync was dropped improperly"@,
                GetError::NotRunning => "cosync was not initialized this run correctly"@,
            }),
    {
        match self {
            GetError::CosyncDropped => "cosync was dropped improperly",
            GetError::NotRunning => "cosync was not initialized this run correctly",
        }
    }
}

/// A guarded reference to the parameter of the run.
///
/// This exists to prevent holding onto the parameter while a task waits. It is to be fetched again
/// from [CosyncInput] after that. It stays in the thread that it was made in.
pub struct CosyncInputGuard<'a, T: ?Sized>(&'a mut T, PhantomData<Rc<()>>);

impl<'a, T: ?Sized> CosyncInputGuard<'a, T> {
    /// The reference that is guarded.
    pub closed spec fn guarded(self) -> &'a mut T {
        self.0
    }
}

impl<'a, T: ?Sized> core::ops::Deref for CosyncInputGuard<'a, T> {
    type Target = T;

    fn deref(&self) -> (parameter: &T)
        ensures
            parameter == &*self.guarded(),
    {
        self.0
    }
}

impl<'a, T: ?Sized> core::ops::DerefMut for CosyncInputGuard<'a, T> {
    fn deref_mut(&mut self) -> (parameter: &mut T)
        ensures
            &*parameter == &*old(self).guarded(),
            &*final(self).guarded() == &*final(parameter),
            &*final(final(self).guarded()) == &*final(old(self).guarded()),
    {
        self.0
    }
}

/// What a guard shows when it is dropped is what it leaves behind for good.
pub proof fn law_guard_writes_through<'a, T: ?Sized>(guard: CosyncInputGuard<'a, T>)
    requires
        has_resolved(guard),
    ensures
        &*guard.guarded() == &*final(guard.guarded()),
{
}

/// What was written through a guard is what the parameter of the run is afterwards: `got` is the
/// guard as [get](CosyncInput::get) gave it for `parameter`, and `done` is the same guard when it
/// is dropped, after any number of writes through it.
pub proof fn law_parameter_holds_what_was_written<'a, T: ?Sized>(
    got: CosyncInputGuard<'a, T>,
    done: CosyncInputGuard<'a, T>,
    parameter: &'a mut T,
)
    requires
        &*final(got.guarded()) == &*final(parameter),
        &*final(done.guarded()) == &*final(got.guarded()),
        has_resolved(done),
    ensures
        &*final(parameter) == &*done.guarded(),
{
    law_guard_writes_through(done);
}

/// Each run has its own parameter: when a task gets at `first` in one run and at `second` in a
/// later one, each of the two is afterwards what was written through its own guard, whatever was
/// written through the other. `got` and `done` are a guard when it was given and when it is
/// dropped.
pub proof fn law_each_run_has_its_own_parameter<'a, 'b, T: ?Sized>(
    first: &'a mut T,
    first_got: CosyncInputGuard<'a, T>,
    first_done: CosyncInputGuard<'a, T>,
    second: &'b mut T,
    second_got: CosyncInputGuard<'b, T>,
    second_done: CosyncInputGuard<'b, T>,
)
    requires
        &*final(first_got.guarded()) == &*final(first),
        &*final(first_done.guarded()) == &*final(first_got.guarded()),
        has_resolved(first_done),
        &*final(second_got.guarded()) == &*final(second),
        &*final(second_done.guarded()) == &*final(second_got.guarded()),
        has_resolved(second_done),
    ensures
        &*final(first) == &*first_done.guarded(),
        &*final(second) == &*second_done.guarded(),
{
    law_parameter_holds_what_was_written(first_got, first_done, first);
    law_parameter_holds_what_was_written(second_got, second_done, second);
}

/// Lets a task at the parameter of the run. `alive` tells whether the cosync still exists, and
/// `parameter` is what the run that is going on has to offer.
pub fn guard_parameter<'a, T: ?Sized>(alive: bool, parameter: Option<&'a mut T>) -> (guard: Result<
    CosyncInputGuard<'a, T>,
    GetError,
>)
    ensures
        match guard {
            Ok(guard) => {
                &&& alive
                &&& parameter is Some
                &&& &*guard.guarded() == &*parameter->0
                &&& &*final(guard.guarded()) == &*final(parameter->0)
            },
            Err(GetError::CosyncDropped) => !alive,
            Err(GetError::NotRunning) => alive && parameter is None,
        },
        guard is Err && parameter is Some ==> &*final(parameter->0) == &*parameter->0,
    opens_invariants none
{
    if !alive {
        return Err(GetError::CosyncDropped);
    }
    match parameter {
        Some(parameter) => Ok(CosyncInputGuard(parameter, PhantomData)),
        None => Err(GetError::NotRunning),
    }
}

/// Whether the slot holds a cosync.
pub fn is_alive<C>(slot: &mut Option<C>) -> (alive: bool)
    ensures
        alive == (*old(slot) is Some),
        *final(slot) == *old(slot),
{
    slot.is_some()
}

/// What a task gets in order to fetch the parameter of the run by [get], and to queue more tasks
/// by [queue].
///
/// [queue]: Self::queue
/// [get]: Self::get
#[derive(Debug)]
#[verifier::reject_recursive_types(C)]
pub struct CosyncInput<C>(CosyncQueueHandle<C>);

impl<C> CosyncInput<C> {
    /// The slot that the input shares with the owner of the cosync.
    pub closed spec fn shared(self) -> Arc<Mutex<Option<C>>> {
        self.0.shared()
    }

    /// The input of a task of the cosync that `handle` belongs to.
    pub fn new(handle: CosyncQueueHandle<C>) -> (input: Self)
        ensures
            input.shared() == handle.shared(),
        opens_invariants none
    {
        CosyncInput(handle)
    }

    /// Lets the task at the parameter of the run; `parameter` is what the run that is going on has
    /// to offer.
    ///
    /// This fails if the input was moved out of its task, and is used when the cosync does not
    /// exist any more, or when no run is going on. Do not do that.
    pub fn get<'a, T: ?Sized>(&'a mut self, parameter: Option<&'a mut T>) -> (guard: Result<
        CosyncInputGuard<'a, T>,
        GetError,
    >)
        ensures
            final(self).shared() == old(self).shared(),
            match guard {
                Ok(guard) => {
                    &&& parameter is Some
                    &&& &*guard.guarded() == &*parameter->0
                    &&& &*final(guard.guarded()) == &*final(parameter->0)
                },
                Err(GetError::CosyncDropped) => true,
                Err(GetError::NotRunning) => parameter is None,
            },
            guard is Err && parameter is Some ==> &*final(parameter->0) == &*parameter->0,
            visited(
                *old(self).shared(),
                Looking,
                !(guard is Err && guard->Err_0 == GetError::CosyncDropped),
            ),
        opens_invariants [<Looking as Visit<Option<C>>>::number(Looking) as int]
    {
        let alive = with_lock(&self.0.shared, Looking, <Looking as Visit<Option<C>>>::run);
        guard_parameter(alive, parameter)
    }

    /// Creates a queue handle which can be used to spawn tasks.
    pub fn create_queue_handle(&self) -> (handle: CosyncQueueHandle<C>)
        ensures
            handle.shared() == self.shared(),
        opens_invariants none
    {
        CosyncQueueHandle::new(&self.0.shared)
    }
}

impl<C: TaskQueue> CosyncInput<C> {
    /// Queues a new task. This goes to the back of the queue.
    ///
    /// This fails if the input was moved out of its task, and is used when the cosync does not
    /// exist any more. Do not do that.
    pub fn queue(&self, task: C::Task) -> (id: Result<CosyncTaskId, GetError>)
        ensures
            match id {
                Ok(new) => some_slot_queues::<C>(task, Some(new)),
                Err(error) => error == GetError::CosyncDropped,
            },
            queued_through(
                *self.shared(),
                task,
                match id {
                    Ok(new) => Some(new),
                    Err(_) => None,
                },
            ),
        opens_invariants [Queueing::<C>(task).number() as int]
    {
        match self.0.queue(task) {
            Some(new) => Ok(new),
            None => Err(GetError::CosyncDropped),
        }
    }
}

} // verus!
