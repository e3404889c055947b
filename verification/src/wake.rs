//! Waking tasks.

use std::sync::Arc;
use vstd::prelude::*;

verus! {

/// A way of waking up a specific task.
///
/// By implementing it, a type that is wrapped in an `Arc` can be used to signal the one who drives
/// a cosync that a task is ready to be polled again.
pub trait ArcWake: Send + Sync + Sized {
    /// The numbers of the visits that waking may make to what is shared behind locks.
    open spec fn visits(&self) -> Set<int> {
        Set::full()
    }

    /// Indicates that the associated task is ready to make progress and should be polled.
    ///
    /// This function can be called from an arbitrary thread.
    fn wake(self: Arc<Self>)
        default_ensures
            call_ensures(Self::wake_by_ref, (&self,), ()),
        opens_invariants self.visits()
    {
        Self::wake_by_ref(&self)
    }

    /// Indicates that the associated task is ready to make progress and should be polled.
    ///
    /// This function is similar to [wake](ArcWake::wake), but does not consume the pointer.
    fn wake_by_ref(arc_self: &Arc<Self>)
        opens_invariants arc_self.visits()
    ;
}

/// A waker that is only valid for a given lifetime, and does not own what it points to.
pub struct WakerRef<'a, W> {
    waker: &'a Arc<W>,
}

impl<'a, W> WakerRef<'a, W> {
    /// What the waker points to.
    pub closed spec fn target(self) -> Arc<W> {
        *self.waker
    }

    /// Creates a new [WakerRef] that points to `waker`, and shares no ownership of it.
    pub fn new_unowned(waker: &'a Arc<W>) -> (this: Self)
        ensures
            this.target() == *waker,
    {
        WakerRef { waker }
    }
}

impl<'a, W> core::ops::Deref for WakerRef<'a, W> {
    type Target = Arc<W>;

    fn deref(&self) -> (waker: &Arc<W>)
        ensures
            *waker == self.target(),
    {
        self.waker
    }
}

/// A [WakerRef] that points to `this`.
pub fn waker_ref<W: ArcWake>(this: &Arc<W>) -> (waker: WakerRef<'_, W>)
    ensures
        waker.target() == *this,
{
    WakerRef::new_unowned(this)
}

/// What a task gets when it is polled: the waker by which it asks to be polled again. The waker is
/// not handed out, so every use of it is counted.
pub struct Context<'a, W> {
    waker: WakerRef<'a, W>,
    wakes: Ghost<nat>,
}

impl<'a, W: ArcWake> Context<'a, W> {
    /// What the waker of the context points to.
    pub closed spec fn target(self) -> Arc<W> {
        self.waker.target()
    }

    /// How often the waker was used since the context was made.
    pub closed spec fn wakes(self) -> nat {
        self.wakes@
    }

    /// A context with the given waker, which was not used yet.
    pub fn from_waker(waker: WakerRef<'a, W>) -> (cx: Self)
        ensures
            cx.target() == waker.target(),
            cx.wakes() == 0,
    {
        Context { waker, wakes: Ghost(0) }
    }

    /// Asks that the task be polled again, by waking what the waker points to.
    pub fn wake_by_ref(&mut self)
        ensures
            call_ensures(W::wake_by_ref, (&old(self).target(),), ()),
            final(self).target() == old(self).target(),
            final(self).wakes() == old(self).wakes() + 1,
        opens_invariants self.target().visits()
    {
        W::wake_by_ref(self.waker.waker);
        self.wakes = Ghost(self.wakes@ + 1);
    }
}

} // verus!
