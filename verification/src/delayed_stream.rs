use crate::buffer::Buffer;
use crate::key_value::KeyValue;
use crate::model::{in_parts, Advance, Model, SourcePoll};
use crate::timeline::{advance, outcome_of, Poll};
use crate::timer::{Timer, TimerOp};
use std::marker::PhantomData;
use vstd::prelude::*;

verus! {

/// The deciding half of a delayed stream.
///
/// A host owns the source and the timer. On each advance it polls the source
/// and hands the answer to [`DelayedStream::source_step`], carries out the
/// order for its timer, polls the timer if one is armed, and hands that answer
/// to [`DelayedStream::timer_step`], whose result ends the advance.
pub struct DelayedStream<T> {
    past_messages: Buffer,
    delay: u64,
    sleep: Option<Timer>,
    input_finished: bool,
    items: PhantomData<T>,
}

impl<T> View for DelayedStream<T> {
    type V = Model;

    closed spec fn view(&self) -> Model {
        Model {
            pending: self.past_messages@,
            delay: self.delay,
            timer: self.sleep,
            input_finished: self.input_finished,
        }
    }
}

impl<T: KeyValue<u64, u64>> DelayedStream<T> {
    /// The invariant of a stream: that of its state.
    pub open spec fn wf(&self) -> bool {
        self@.wf()
    }

    /// A stream that holds every entry back for `delay` ticks.
    pub fn new(delay: u64) -> (stream: Self)
        ensures
            stream.wf(),
            stream@ == Model::fresh(delay),
    {
        DelayedStream {
            past_messages: Buffer::new(),
            delay,
            sleep: None,
            input_finished: false,
            items: PhantomData,
        }
    }

    /// Computes the timer anew at the instant `now`: none where nothing
    /// waits, else one that runs for the rest of the wait of the entry at the
    /// front, and for no time where that entry is overdue.
    fn set_sleep(&mut self, now: u64)
        requires
            old(self).past_messages.wf(),
        ensures
            final(self)@ == old(self)@.rearmed(now),
            final(self).past_messages.wf(),
    {
        let time_to_wait = match self.past_messages.peek_front() {
            Some((_, item)) => {
                let time_to_first = if now >= item.ts {
                    now - item.ts
                } else {
                    0
                };
                let wait = if time_to_first > self.delay {
                    0
                } else {
                    self.delay - time_to_first
                };
                Some(Timer { armed_at: now, wait })
            },
            None => None,
        };
        self.sleep = time_to_wait;
    }

    /// Takes in what the source gave at the instant `now`, and says what to
    /// do with the timer. An item is split and put at the back of the buffer
    /// in place of an entry with its key, and the timer is computed anew. The
    /// end of the source is recorded for good. Nothing changes while the
    /// source has nothing.
    pub fn source_step(&mut self, polled: SourcePoll<T>, now: u64) -> (order: TimerOp)
        requires
            old(self).wf(),
        ensures
            final(self).wf(),
            final(self)@ == old(self)@.after_source(in_parts(polled), now),
            order == old(self)@.order_after_source(in_parts(polled), now),
    {
        match polled {
            SourcePoll::Item(item) => {
                let (k, v) = item.split();
                self.past_messages.upsert(k, v, now);
                self.set_sleep(now);
                match self.sleep {
                    Some(timer) => TimerOp::Arm(timer.wait),
                    None => TimerOp::Clear,
                }
            },
            SourcePoll::Finished => {
                self.input_finished = true;
                TimerOp::Keep
            },
            SourcePoll::Pending => TimerOp::Keep,
        }
    }

    /// Takes in what the timer reported at the instant `now` and ends the
    /// advance. `fired` says that the armed timer reported its wait over; it
    /// counts for nothing while no timer is armed. Where it fired, the entry
    /// at the front leaves as an item and the timer is computed anew for the
    /// next one. Else the advance ends with `Finished` where the source is
    /// exhausted and no timer is armed, and with `Pending` otherwise.
    pub fn timer_step(&mut self, fired: bool, now: u64) -> (end: (Advance<T>, TimerOp))
        requires
            old(self).wf(),
        ensures
            final(self).wf(),
            final(self)@ == old(self)@.after_timer(fired, now),
            end.1 == old(self)@.order_after_timer(fired, now),
            match end.0 {
                Advance::Item(item) => old(self)@.outcome(fired) == Advance::Item(item.parts()),
                Advance::Pending => old(self)@.outcome(fired) == Advance::<(u64, u64)>::Pending,
                Advance::Finished => old(self)@.outcome(fired) == Advance::<(u64, u64)>::Finished,
            },
    {
        if fired && self.sleep.is_some() {
            let item = self.past_messages.pop_front();
            self.set_sleep(now);
            if let Some((k, v)) = item {
                let order = match self.sleep {
                    Some(timer) => TimerOp::Arm(timer.wait),
                    None => TimerOp::Clear,
                };
                return (Advance::Item(T::unsplit(k, v.value)), order);
            }
        }
        if self.input_finished && self.sleep.is_none() {
            return (Advance::Finished, TimerOp::Keep);
        }
        (Advance::Pending, TimerOp::Keep)
    }

    /// One whole advance for a host whose timer is its clock: the source's
    /// answer is taken in, the timer that is armed after that counts as fired
    /// exactly if its wait is over at `now`, and the timer step ends the
    /// advance.
    pub fn advance(&mut self, polled: SourcePoll<T>, now: u64) -> (end: Advance<T>)
        requires
            old(self).wf(),
        ensures
            final(self).wf(),
            ({
                let mid = old(self)@.after_source(in_parts(polled), now);
                let poll = Poll {
                    source: in_parts(polled),
                    fired: mid.timer matches Some(t) && t.due(now),
                    now,
                };
                &&& final(self)@ == advance(old(self)@, poll)
                &&& match end {
                    Advance::Item(item) => outcome_of(old(self)@, poll) == Advance::Item(item.parts()),
                    Advance::Pending => outcome_of(old(self)@, poll) == Advance::<(u64, u64)>::Pending,
                    Advance::Finished => outcome_of(old(self)@, poll) == Advance::<(u64, u64)>::Finished,
                }
            }),
    {
        let _ = self.source_step(polled, now);
        let fired = match self.sleep {
            Some(timer) => timer.is_due(now),
            None => false,
        };
        let (end, _) = self.timer_step(fired, now);
        end
    }

    /// How long an entry waits after its arrival.
    pub fn delay(&self) -> (delay: u64)
        ensures
            delay == self@.delay,
    {
        self.delay
    }

    /// The timer that is armed, if any.
    pub fn timer(&self) -> (timer: Option<Timer>)
        ensures
            timer == self@.timer,
    {
        self.sleep
    }

    /// Whether the source has reported that it is exhausted.
    pub fn input_finished(&self) -> (finished: bool)
        ensures
            finished == self@.input_finished,
    {
        self.input_finished
    }

    /// Whether the stream is at its end: the source is exhausted and no
    /// timer is armed, so that nothing waits.
    pub fn is_finished(&self) -> (finished: bool)
        requires
            self.wf(),
        ensures
            finished == self@.is_finished(),
            finished ==> self@.pending.len() == 0,
    {
        self.input_finished && self.sleep.is_none()
    }
}

} // verus!
