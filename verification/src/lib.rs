//! A single-threaded, parameterized task queue for coroutines.

pub mod cosync;
pub mod executor;
pub mod handle;
pub mod laws;
pub mod pool;
pub mod queue;
pub mod seqs;
pub mod serial;
pub mod sleep;
pub mod state;
pub mod task_id;
pub mod wake;

pub use cosync::Cosync;
pub use executor::{BlockingAction, Enter, EnterError, ThreadNotify};
pub use handle::{
    CosyncInput, CosyncInputGuard, CosyncQueueHandle, GetError, TaskQueue, TaskWaker,
};
pub use pool::{FuturesUnordered, Outcome, Poll};
pub use queue::{FutureObject, IncomingQueue};
pub use serial::SerialCosync;
pub use sleep::{sleep_ticks, yield_now, SleepForTick, Yield};
pub use state::Action;
pub use task_id::CosyncTaskId;
pub use wake::{waker_ref, ArcWake, Context, WakerRef};
