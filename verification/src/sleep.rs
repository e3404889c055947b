//! Tasks that just let time pass.

use crate::pool::Poll;
use crate::wake::{ArcWake, Context};
use vstd::prelude::*;

verus! {

/// Sleeps for a given number of runs.
///
/// If there is one run per tick in your main loop, then this sleeps for that number of ticks.
pub fn sleep_ticks(ticks: usize) -> (sleep: SleepForTick)
    ensures
        sleep.0 == ticks,
{
    SleepForTick::new(ticks)
}

/// A sleep for a given number of ticks: the number that is left.
#[must_use]
#[derive(Clone, Copy, Debug)]
pub struct SleepForTick(pub usize);

impl SleepForTick {
    /// What the next poll tells.
    pub open spec fn outcome(self) -> Poll {
        if self.0 == 0 {
            Poll::Ready
        } else {
            Poll::Pending
        }
    }

    /// The sleep after one more poll.
    pub open spec fn polled(self) -> SleepForTick {
        if self.0 == 0 {
            self
        } else {
            SleepForTick((self.0 - 1) as usize)
        }
    }

    /// How often the next poll wakes the task.
    pub open spec fn wakes(self) -> nat {
        if self.0 == 0 {
            0
        } else {
            1
        }
    }

    /// Sleeps for the number of ticks provided.
    pub fn new(ticks: usize) -> (sleep: Self)
        ensures
            sleep.0 == ticks,
    {
        SleepForTick(ticks)
    }

    /// Lets a tick pass, and asks to be polled again, while there is one left.
    pub fn poll<W: ArcWake>(&mut self, cx: &mut Context<'_, W>) -> (poll: Poll)
        ensures
            poll == old(self).outcome(),
            *final(self) == old(self).polled(),
            poll == Poll::Pending ==> call_ensures(W::wake_by_ref, (&old(cx).target(),), ()),
            final(cx).target() == old(cx).target(),
            final(cx).wakes() == old(cx).wakes() + old(self).wakes(),
        opens_invariants cx.target().visits()
    {
        if self.0 == 0 {
            Poll::Ready
        } else {
            self.0 = self.0 - 1;
            cx.wake_by_ref();
            Poll::Pending
        }
    }
}

/// Yields control back at once. The next time that it is polled, it is complete. This is
/// equivalent to sleeping for one tick.
pub fn yield_now() -> (this: Yield)
    ensures
        !this.yielded(),
{
    Yield(false)
}

/// A yield for one tick.
#[must_use]
#[derive(Clone, Copy, Debug)]
pub struct Yield(bool);

impl Yield {
    /// Whether control was yielded already.
    pub closed spec fn yielded(self) -> bool {
        self.0
    }

    /// What the next poll tells.
    pub open spec fn outcome(self) -> Poll {
        if self.yielded() {
            Poll::Ready
        } else {
            Poll::Pending
        }
    }

    /// How often the next poll wakes the task.
    pub open spec fn wakes(self) -> nat {
        if self.yielded() {
            0
        } else {
            1
        }
    }

    /// The yield after one more poll.
    pub closed spec fn polled(self) -> Yield {
        Yield(true)
    }

    /// A yield that has been polled has yielded.
    pub proof fn lemma_polled(self)
        ensures
            self.polled().yielded(),
    {
    }

    /// Yields, and asks to be polled again, the first time; is complete after that.
    pub fn poll<W: ArcWake>(&mut self, cx: &mut Context<'_, W>) -> (poll: Poll)
        ensures
            poll == old(self).outcome(),
            *final(self) == old(self).polled(),
            final(self).yielded(),
            poll == Poll::Pending ==> call_ensures(W::wake_by_ref, (&old(cx).target(),), ()),
            final(cx).target() == old(cx).target(),
            final(cx).wakes() == old(cx).wakes() + old(self).wakes(),
        opens_invariants cx.target().visits()
    {
        if !self.0 {
            self.0 = true;
            cx.wake_by_ref();
            Poll::Pending
        } else {
            Poll::Ready
        }
    }
}

} // verus!
