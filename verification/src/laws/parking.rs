//! A thread that waits for its tasks stays until all are complete, and does not sleep through a
//! wake-up.

use crate::executor::{BlockingAction, ThreadNotify};
use crate::laws::events::{step, Kind};
use crate::laws::ids::line;
use crate::pool::Poll;
use crate::state::{Action, CosyncState};
use vstd::prelude::*;

verus! {

/// Where a thread is that runs a cosync until all tasks are complete.
pub enum Phase {
    /// It polls.
    Polling,
    /// It is about to park, or parked.
    Parking,
    /// It has parked, and is about to poll again.
    Unparked,
}

/// A thread that runs a cosync until all tasks are complete.
pub struct Waiting {
    /// Where the thread is.
    pub phase: Phase,
    /// What it knows of wake-ups.
    pub notify: ThreadNotify,
    /// The token of the thread: parking waits for it, and takes it.
    pub token: bool,
    /// How many threads have noted a wake-up, and are about to make the token available.
    pub unparkers: nat,
    /// Whether a wake-up came since the last poll began.
    pub wake_up_due: bool,
}

/// What can happen to such a thread.
pub enum Happening {
    /// A wake-up comes, from whatever thread, and is noted.
    Wake,
    /// A thread that has noted a wake-up makes the token available.
    Unpark,
    /// A poll ends, with tasks pending.
    PollEnds,
    /// The thread has found its token.
    ParkEnds,
    /// The thread goes on to poll again.
    GoesOn,
}

impl Waiting {
    /// At the beginning of the first poll. A token, and the note of a wake-up, may be left from
    /// before.
    pub open spec fn begins(notify: ThreadNotify, token: bool) -> Waiting {
        Waiting {
            phase: Phase::Polling,
            notify,
            token,
            unparkers: 0,
            wake_up_due: false,
        }
    }

    /// Whether something can happen now: polls end only while the thread polls, and parking ends
    /// only when the token is there.
    pub open spec fn can(self, happening: Happening) -> bool {
        match happening {
            Happening::Wake => true,
            Happening::Unpark => self.unparkers > 0,
            Happening::PollEnds => self.phase is Polling,
            Happening::ParkEnds => self.phase is Parking && self.token,
            Happening::GoesOn => self.phase is Unparked,
        }
    }

    /// The thread after something has happened. `ThreadNotify` decides whether the thread is
    /// unparked, which makes the token available, and whether it parks.
    pub open spec fn after(self, happening: Happening) -> Waiting {
        match happening {
            Happening::Wake => Waiting {
                phase: self.phase,
                notify: self.notify.woken(),
                token: self.token,
                unparkers: if self.notify.must_unpark() {
                    self.unparkers + 1
                } else {
                    self.unparkers
                },
                wake_up_due: true,
            },
            Happening::Unpark => Waiting {
                phase: self.phase,
                notify: self.notify,
                token: true,
                unparkers: (self.unparkers - 1) as nat,
                wake_up_due: self.wake_up_due,
            },
            Happening::PollEnds => match self.notify.action(Poll::Pending) {
                BlockingAction::Park => Waiting {
                    phase: Phase::Parking,
                    notify: self.notify.polled(Poll::Pending),
                    token: self.token,
                    unparkers: self.unparkers,
                    wake_up_due: self.wake_up_due,
                },
                _ => Waiting {
                    phase: Phase::Polling,
                    notify: self.notify.polled(Poll::Pending),
                    token: self.token,
                    unparkers: self.unparkers,
                    wake_up_due: false,
                },
            },
            Happening::ParkEnds => Waiting {
                phase: Phase::Unparked,
                notify: self.notify,
                token: false,
                unparkers: self.unparkers,
                wake_up_due: self.wake_up_due,
            },
            Happening::GoesOn => Waiting {
                phase: Phase::Polling,
                notify: self.notify.parked(),
                token: self.token,
                unparkers: self.unparkers,
                wake_up_due: false,
            },
        }
    }
}

/// Whether all of it can happen, one after the other.
pub open spec fn possible(waiting: Waiting, happenings: Seq<Happening>) -> bool
    decreases happenings.len(),
{
    happenings.len() == 0 || {
        &&& possible(waiting, happenings.drop_last())
        &&& after_happenings(waiting, happenings.drop_last()).can(happenings.last())
    }
}

/// The thread after all of it has happened.
pub open spec fn after_happenings(waiting: Waiting, happenings: Seq<Happening>) -> Waiting
    decreases happenings.len(),
{
    if happenings.len() == 0 {
        waiting
    } else {
        after_happenings(waiting, happenings.drop_last()).after(happenings.last())
    }
}

/// What holds of the thread at any time.
spec fn alert(waiting: Waiting) -> bool {
    &&& waiting.phase is Polling && waiting.wake_up_due ==> waiting.notify.unparked
    &&& waiting.phase is Parking && waiting.wake_up_due ==> waiting.notify.unparked
    &&& waiting.phase is Parking && waiting.notify.unparked ==> waiting.token || waiting.unparkers
        > 0
}

proof fn lemma_alert(notify: ThreadNotify, token: bool, happenings: Seq<Happening>)
    requires
        possible(Waiting::begins(notify, token), happenings),
    ensures
        alert(after_happenings(Waiting::begins(notify, token), happenings)),
    decreases happenings.len(),
{
    if happenings.len() > 0 {
        lemma_alert(notify, token, happenings.drop_last());
    }
}

/// No wake-up is lost: if one came after the last poll began, the thread does not get stuck in
/// parking. Either it is polling and will poll again, or its token is there or about to be made
/// available, or it is about to poll.
pub proof fn law_no_wake_up_is_lost(
    notify: ThreadNotify,
    token: bool,
    happenings: Seq<Happening>,
)
    requires
        possible(Waiting::begins(notify, token), happenings),
    ensures
        ({
            let now = after_happenings(Waiting::begins(notify, token), happenings);
            now.wake_up_due ==> match now.phase {
                Phase::Polling => now.notify.action(Poll::Pending) == BlockingAction::PollAgain,
                Phase::Parking => now.can(Happening::ParkEnds) || now.can(Happening::Unpark),
                Phase::Unparked => now.can(Happening::GoesOn),
            }
        }),
{
    lemma_alert(notify, token, happenings);
}

/// A wake-up is remembered, and the thread is unparked on its account if and only if none was
/// remembered before; so a second one, before the first is consumed, has no further effect.
pub proof fn law_second_wake_up_has_no_effect(notify: ThreadNotify)
    ensures
        notify.woken().unparked,
        notify.must_unpark() == !notify.unparked,
        !notify.woken().must_unpark(),
        notify.woken().woken() == notify.woken(),
{
}

/// After a poll that left work undone, the thread polls again at once if a wake-up came since the
/// flag was last cleared, and parks if none did. Either way the wake-up is used up, and so it is by
/// parking: the thread parks after the next poll unless another one comes.
pub proof fn law_wake_up_is_used_once(notify: ThreadNotify)
    ensures
        notify.unparked ==> notify.action(Poll::Pending) == BlockingAction::PollAgain,
        !notify.unparked ==> notify.action(Poll::Pending) == BlockingAction::Park,
        notify.action(Poll::Ready) == BlockingAction::Return,
        notify.polled(Poll::Pending).action(Poll::Pending) == BlockingAction::Park,
        notify.parked().action(Poll::Pending) == BlockingAction::Park,
        notify.woken().action(Poll::Pending) == BlockingAction::PollAgain,
        notify.polled(Poll::Ready) == notify,
{
}

/// A thread that runs a cosync until all tasks are complete returns when a run ends with no task
/// left, neither running nor waiting, and not before. In particular, tasks that were queued in the
/// course of the run are complete then.
pub proof fn law_blocking_run_completes_all<F>(
    kind: Kind,
    state: CosyncState<F>,
    notify: ThreadNotify,
)
    ensures
        step(kind, state).1 matches Action::Return(poll) ==> {
            (notify.action(poll) == BlockingAction::Return) == (line(step(kind, state).0).len()
                == 0)
        },
{
}

} // verus!
