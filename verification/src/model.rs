use crate::buffer::{distinct_keys, upsert, Entry};
use crate::key_value::KeyValue;
use crate::timer::{order_for, timer_for, wait_for, Timer, TimerOp};
use vstd::prelude::*;

verus! {

/// What polling the source gave.
pub enum SourcePoll<T> {
    /// The source handed over an item.
    Item(T),
    /// The source is exhausted.
    Finished,
    /// The source has nothing yet.
    Pending,
}

/// How an advance of the stream ends.
pub enum Advance<T> {
    /// One item leaves the stream.
    Item(T),
    /// Nothing is ready: the host comes back when the source or the timer
    /// wakes it.
    Pending,
    /// The source is exhausted and nothing waits: no item will follow.
    Finished,
}

/// What the source gave, with an item taken apart into its key and value.
pub open spec fn in_parts<T: KeyValue<u64, u64>>(polled: SourcePoll<T>) -> SourcePoll<(u64, u64)> {
    match polled {
        SourcePoll::Item(item) => SourcePoll::Item(item.parts()),
        SourcePoll::Finished => SourcePoll::Finished,
        SourcePoll::Pending => SourcePoll::Pending,
    }
}

/// The state of a stream as the contracts see it.
pub struct Model {
    /// The waiting entries, the one that has waited longest first.
    pub pending: Seq<Entry>,
    /// How long an entry waits after its arrival.
    pub delay: u64,
    /// The timer that is armed, if any.
    pub timer: Option<Timer>,
    /// Whether the source has reported that it is exhausted.
    pub input_finished: bool,
}

impl Model {
    /// A stream that has seen nothing yet.
    pub open spec fn fresh(delay: u64) -> Model {
        Model { pending: Seq::empty(), delay, timer: None, input_finished: false }
    }

    /// No key waits twice; a timer is armed exactly while something waits,
    /// and it was set to the rest of the wait of the entry at the front.
    pub open spec fn wf(self) -> bool {
        &&& distinct_keys(self.pending)
        &&& self.timer is Some <==> self.pending.len() > 0
        &&& self.timer matches Some(t) ==> t.wait == wait_for(self.delay, self.pending[0].1.ts, t.armed_at)
    }

    /// The state with the timer computed anew at the instant `now`.
    pub open spec fn rearmed(self, now: u64) -> Model {
        Model { timer: timer_for(self.pending, self.delay, now), ..self }
    }

    /// The state after `value` arrived for `key` at the instant `now`.
    pub open spec fn with_arrival(self, key: u64, value: u64, now: u64) -> Model {
        Model { pending: upsert(self.pending, key, value, now), ..self }.rearmed(now)
    }

    /// The state after the source was polled at the instant `now`.
    pub open spec fn after_source(self, polled: SourcePoll<(u64, u64)>, now: u64) -> Model {
        match polled {
            SourcePoll::Item((key, value)) => self.with_arrival(key, value, now),
            SourcePoll::Finished => Model { input_finished: true, ..self },
            SourcePoll::Pending => self,
        }
    }

    /// The order for the host's timer after the source was polled.
    pub open spec fn order_after_source(self, polled: SourcePoll<(u64, u64)>, now: u64) -> TimerOp {
        match polled {
            SourcePoll::Item(_) => order_for(self.after_source(polled, now).timer),
            _ => TimerOp::Keep,
        }
    }

    /// Whether an entry leaves when the timer reports `fired`: a timer must be
    /// armed, and it must have reported that its wait is over.
    pub open spec fn releases(self, fired: bool) -> bool {
        fired && self.timer is Some && self.pending.len() > 0
    }

    /// The entry that leaves when the timer reports `fired`, if any: the one
    /// at the front.
    pub open spec fn released(self, fired: bool) -> Option<Entry> {
        if self.releases(fired) {
            Some(self.pending[0])
        } else {
            None
        }
    }

    /// The state after the timer was polled at the instant `now` and reported
    /// `fired`.
    pub open spec fn after_timer(self, fired: bool, now: u64) -> Model {
        if self.releases(fired) {
            Model { pending: self.pending.drop_first(), ..self }.rearmed(now)
        } else {
            self
        }
    }

    /// The order for the host's timer after the timer was polled.
    pub open spec fn order_after_timer(self, fired: bool, now: u64) -> TimerOp {
        if self.releases(fired) {
            order_for(self.after_timer(fired, now).timer)
        } else {
            TimerOp::Keep
        }
    }

    /// The source is exhausted and no timer is armed.
    pub open spec fn is_finished(self) -> bool {
        self.input_finished && self.timer is None
    }

    /// How the advance ends when the timer reports `fired`: with the key and
    /// value of the entry that leaves, else with the end of the stream where
    /// the source is exhausted and no timer is armed, else with nothing yet.
    pub open spec fn outcome(self, fired: bool) -> Advance<(u64, u64)> {
        match self.released(fired) {
            Some(entry) => Advance::Item((entry.0, entry.1.value)),
            None => if self.is_finished() {
                Advance::Finished
            } else {
                Advance::Pending
            },
        }
    }
}

} // verus!
