use crate::buffer::Entry;
use vstd::prelude::*;

verus! {

/// The one timer of a stream, as the stream last set it: at the instant
/// `armed_at` it was asked to run for `wait` ticks.
#[derive(Clone, Copy, Debug, PartialEq, Eq, Structural)]
pub struct Timer {
    pub armed_at: u64,
    pub wait: u64,
}

impl Timer {
    /// The instant at which the wait is over.
    pub open spec fn deadline(self) -> int {
        self.armed_at + self.wait
    }

    /// Whether the wait is over at the instant `now`.
    pub open spec fn due(self, now: u64) -> bool {
        now >= self.deadline()
    }

    /// Whether the wait is over at the instant `now`, by the clock alone.
    pub fn is_due(&self, now: u64) -> (due: bool)
        ensures
            due == self.due(now),
    {
        now >= self.armed_at && now - self.armed_at >= self.wait
    }
}

/// What the host has to do with its timer after a step of the stream.
#[derive(Clone, Copy, Debug, PartialEq, Eq, Structural)]
pub enum TimerOp {
    /// Leave the timer as it is.
    Keep,
    /// Drop the timer: nothing waits.
    Clear,
    /// Replace the timer by one that runs for this many ticks from now.
    Arm(u64),
}

/// How long an entry stamped `ts` still has to wait at the instant `now`: the
/// delay less the time it has waited, and nothing once that time exceeds the
/// delay. An entry stamped later than `now` has waited no time.
pub open spec fn wait_for(delay: u64, ts: u64, now: u64) -> u64 {
    let waited = if now >= ts {
        now - ts
    } else {
        0
    };
    if waited > delay {
        0
    } else {
        (delay - waited) as u64
    }
}

/// The timer that the entries ask for at the instant `now`: none where
/// nothing waits, else one for the rest of the wait of the entry at the front.
pub open spec fn timer_for(pending: Seq<Entry>, delay: u64, now: u64) -> Option<Timer> {
    if pending.len() == 0 {
        None
    } else {
        Some(Timer { armed_at: now, wait: wait_for(delay, pending[0].1.ts, now) })
    }
}

/// The order that hands a newly computed timer to the host.
pub open spec fn order_for(timer: Option<Timer>) -> TimerOp {
    match timer {
        Some(t) => TimerOp::Arm(t.wait),
        None => TimerOp::Clear,
    }
}

} // verus!
