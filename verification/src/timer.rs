//! A single-shot suspend/resume primitive: a completion flag plus at most
//! one registered wake callback, the state a timer future shares with the
//! producer thread that completes it.
//!
//! The unverified shell keeps a value of this type under the future's lock.
//! Wake callbacks are named by tokens the executor chooses; the consumer
//! re-registers a fresh token on every poll, so the primitive stays correct
//! even if the future moves between executor tasks mid-wait, and the
//! producer takes the stored token out exactly once.

use vstd::prelude::*;

verus! {

/// What one poll reports to the executor.
#[derive(Debug, PartialEq, Eq, Structural)]
pub enum TimerPoll {
    /// The sleep is over; the future is complete.
    Ready,
    /// Still waiting; the fresh wake callback is registered.
    Pending,
}

/// The shared state of a single-shot timer future.
pub struct TimerFuture {
    completed: bool,
    waker: Option<u64>,
}

impl TimerFuture {
    /// Whether the producer has completed the timer.
    pub closed spec fn is_completed(&self) -> bool {
        self.completed
    }

    /// The registered wake callback, if any.
    pub closed spec fn registered(&self) -> Option<u64> {
        self.waker
    }

    /// A fresh timer: not completed, no callback registered.
    pub fn new() -> (t: Self)
        ensures
            !t.is_completed(),
            t.registered() is None,
    {
        TimerFuture { completed: false, waker: None }
    }

    /// One poll with the executor's current wake token.  A completed timer
    /// is ready.  Otherwise the fresh token replaces any older one — the
    /// older token may already name the wrong task, so every suspension
    /// attempt registers anew — and the poll reports pending.
    pub fn poll(&mut self, waker: u64) -> (r: TimerPoll)
        ensures
            final(self).is_completed() == old(self).is_completed(),
            old(self).is_completed() ==> (r == TimerPoll::Ready && final(self).registered()
                == old(self).registered()),
            !old(self).is_completed() ==> (r == TimerPoll::Pending && final(self).registered()
                == Some(waker)),
    {
        if self.completed {
            TimerPoll::Ready
        } else {
            self.waker = Some(waker);
            TimerPoll::Pending
        }
    }

    /// The producer's single completion step: set the flag and take the
    /// stored callback out, so the caller invokes it exactly once and a
    /// later poll finds the future ready.
    pub fn complete(&mut self) -> (r: Option<u64>)
        ensures
            final(self).is_completed(),
            final(self).registered() is None,
            r == old(self).registered(),
    {
        self.completed = true;
        let w = self.waker;
        self.waker = None;
        w
    }
}

} // verus!
