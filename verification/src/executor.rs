//! Driving a cosync from a thread.

use crate::pool::Poll;
use vstd::prelude::*;

verus! {

/// Whether a thread that drives a cosync was woken, so that a wake-up is not forgotten before the
/// thread parks the next time.
///
/// The code that is polled may park and unpark threads on its own, so the wake-up cannot be left
/// to the thread's own parking alone.
#[derive(Debug, Clone, Copy, PartialEq, Eq, Structural)]
pub struct ThreadNotify {
    /// Whether a wake-up came since the flag was last cleared.
    pub unparked: bool,
}

/// What a thread does that runs a cosync until all tasks are complete.
#[derive(Debug, Clone, Copy, PartialEq, Eq, Structural)]
pub enum BlockingAction {
    /// To end the run.
    Return,
    /// To poll again at once, as a wake-up came in the meantime.
    PollAgain,
    /// To park, and to poll again after that.
    Park,
}

impl ThreadNotify {
    /// Once a wake-up has come.
    pub open spec fn woken(self) -> ThreadNotify {
        ThreadNotify { unparked: true }
    }

    /// Whether the thread must be unparked on account of a wake-up that comes now.
    pub open spec fn must_unpark(self) -> bool {
        !self.unparked
    }

    /// What the thread does after a poll.
    pub open spec fn action(self, poll: Poll) -> BlockingAction {
        match poll {
            Poll::Ready => BlockingAction::Return,
            Poll::Pending => if self.unparked {
                BlockingAction::PollAgain
            } else {
                BlockingAction::Park
            },
        }
    }

    /// Once a poll has ended.
    pub open spec fn polled(self, poll: Poll) -> ThreadNotify {
        ThreadNotify { unparked: self.unparked && poll == Poll::Ready }
    }

    /// Once the thread has parked and goes on.
    pub open spec fn parked(self) -> ThreadNotify {
        ThreadNotify { unparked: false }
    }

    /// No wake-up came yet.
    pub fn new() -> (notify: Self)
        ensures
            !notify.unparked,
    {
        ThreadNotify { unparked: false }
    }

    /// Remembers a wake-up. Returns whether the thread must be unparked on its account: if one was
    /// remembered already, the thread has been unparked, or need not be.
    pub fn wake_by_ref(&mut self) -> (unpark: bool)
        ensures
            unpark == old(self).must_unpark(),
            *final(self) == old(self).woken(),
    {
        let unpark = !self.unparked;
        self.unparked = true;
        unpark
    }

    /// What to do after a poll. A wake-up that came during the poll is consumed.
    pub fn after_poll(&mut self, poll: Poll) -> (action: BlockingAction)
        ensures
            action == old(self).action(poll),
            *final(self) == old(self).polled(poll),
    {
        match poll {
            Poll::Ready => BlockingAction::Return,
            Poll::Pending => {
                let unparked = self.unparked;
                self.unparked = false;
                if unparked {
                    BlockingAction::PollAgain
                } else {
                    BlockingAction::Park
                }
            },
        }
    }

    /// To be called when the thread has parked and goes on: the poll that follows answers every
    /// wake-up that came until now.
    pub fn after_park(&mut self)
        ensures
            *final(self) == old(self).parked(),
    {
        self.unparked = false;
    }
}

/// Whether a thread is driving a cosync.
#[derive(Debug, Clone, Copy, PartialEq, Eq, Structural)]
pub struct Enter {
    /// Whether a run is going on in the thread.
    pub entered: bool,
}

/// A run was to begin within another run of the same thread.
#[derive(Debug, Clone, Copy, PartialEq, Eq, Structural)]
pub struct EnterError;

impl EnterError {
    /// The error in words.
    pub fn message(&self) -> (text: &'static str)
        ensures
            text@ == "cannot execute `LocalPool` executor from within another executor"@,
    {
        "cannot execute `LocalPool` executor from within another executor"
    }
}

impl Enter {
    /// A thread in which no run is going on.
    pub fn new() -> (enter: Self)
        ensures
            !enter.entered,
    {
        Enter { entered: false }
    }

    /// Begins a run, unless one is going on.
    pub fn enter(&mut self) -> (result: Result<(), EnterError>)
        ensures
            result == (if old(self).entered {
                Err(EnterError)
            } else {
                Ok(())
            }),
            final(self).entered,
    {
        if self.entered {
            Err(EnterError)
        } else {
            self.entered = true;
            Ok(())
        }
    }

    /// Ends the run.
    pub fn leave(&mut self)
        ensures
            !final(self).entered,
    {
        self.entered = false;
    }
}

} // verus!
