//! Any sequence of operations on a cosync.

use crate::pool::Outcome;
use crate::state::{Action, CosyncState};
use crate::task_id::CosyncTaskId;
use vstd::prelude::*;

verus! {

/// An operation on a cosync.
pub enum Event<F> {
    /// A task is queued, by the owner, through a handle, or by another task.
    Queue(F),
    /// A waiting task is taken out of the queue.
    Unqueue(CosyncTaskId),
    /// A running task is stopped.
    Stop(CosyncTaskId),
    /// A task is woken.
    Wake(CosyncTaskId),
    /// The running tasks are dropped.
    ClearRunning,
    /// The waiting tasks are dropped.
    ClearQueue,
    /// All tasks are dropped.
    Clear,
    /// A run begins.
    BeginRun,
    /// The next step of a run is asked for.
    NextAction,
    /// A task comes back from being polled.
    FinishPoll(Outcome<F>),
}

impl<F> Event<F> {
    /// Whether the operation gives out a task identifier.
    pub open spec fn names_task(self) -> bool {
        self is Queue
    }
}

/// The two kinds of a cosync.
pub enum Kind {
    /// A `Cosync`.
    Concurrent,
    /// A `SerialCosync`.
    Serial,
}

/// The next step of a run.
pub open spec fn step<F>(kind: Kind, state: CosyncState<F>) -> (CosyncState<F>, Action<F>) {
    match kind {
        Kind::Concurrent => state.concurrent_step(),
        Kind::Serial => state.serial_step(),
    }
}

/// What an operation makes of a cosync. In a `SerialCosync` stopping drops the running task,
/// and no task enters the pool when a run begins.
pub open spec fn after<F>(kind: Kind, state: CosyncState<F>, event: Event<F>) -> CosyncState<F> {
    match event {
        Event::Queue(task) => state.queued_back(task),
        Event::Unqueue(id) => state.unqueued(id),
        Event::Stop(id) => match kind {
            Kind::Concurrent => state.stopped(id),
            Kind::Serial => state.cleared_running(),
        },
        Event::Wake(id) => state.woken(id),
        Event::ClearRunning => state.cleared_running(),
        Event::ClearQueue => state.cleared_queue(),
        Event::Clear => state.cleared(),
        Event::BeginRun => match kind {
            Kind::Concurrent => state.drained().ticked(),
            Kind::Serial => state.ticked(),
        },
        Event::NextAction => step(kind, state).0,
        Event::FinishPoll(outcome) => state.finished(outcome),
    }
}

/// What a sequence of operations makes of a cosync.
pub open spec fn after_all<F>(
    kind: Kind,
    state: CosyncState<F>,
    events: Seq<Event<F>>,
) -> CosyncState<F>
    decreases events.len(),
{
    if events.len() == 0 {
        state
    } else {
        after(kind, after_all(kind, state, events.drop_last()), events.last())
    }
}

/// How many task identifiers a sequence of operations gives out.
pub open spec fn named<F>(events: Seq<Event<F>>) -> nat
    decreases events.len(),
{
    if events.len() == 0 {
        0
    } else {
        named(events.drop_last()) + if events.last().names_task() {
            1nat
        } else {
            0nat
        }
    }
}

} // verus!
