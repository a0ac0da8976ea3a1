//! Whole runs of a stream: the advances of a host, one after another, from a
//! fresh stream on, and what they leave behind.

use crate::buffer::Entry;
use crate::model::{Advance, Model, SourcePoll};
use vstd::prelude::*;

verus! {

/// One advance as the host saw it: what the source gave, whether the timer
/// that was armed after that reported its wait over, and the clock.
pub struct Poll {
    pub source: SourcePoll<(u64, u64)>,
    pub fired: bool,
    pub now: u64,
}

impl Poll {
    /// The source handed over an item for `key`.
    pub open spec fn brings(self, key: u64) -> bool {
        self.source matches SourcePoll::Item(kv) && kv.0 == key
    }

    /// The source handed over an item.
    pub open spec fn brings_any(self) -> bool {
        self.source is Item
    }
}

/// The state between the two steps of an advance: the source's answer is
/// taken in, the timer is not polled yet.
pub open spec fn midway(state: Model, poll: Poll) -> Model {
    state.after_source(poll.source, poll.now)
}

/// The state after an advance.
pub open spec fn advance(state: Model, poll: Poll) -> Model {
    midway(state, poll).after_timer(poll.fired, poll.now)
}

/// The entry that leaves in an advance, if any.
pub open spec fn released_by(state: Model, poll: Poll) -> Option<Entry> {
    midway(state, poll).released(poll.fired)
}

/// How an advance ends.
pub open spec fn outcome_of(state: Model, poll: Poll) -> Advance<(u64, u64)> {
    midway(state, poll).outcome(poll.fired)
}

/// The state of a fresh stream after the first `n` advances of a run.
pub open spec fn state_after(delay: u64, polls: Seq<Poll>, n: nat) -> Model
    decreases n,
{
    if n == 0 {
        Model::fresh(delay)
    } else {
        advance(state_after(delay, polls, (n - 1) as nat), polls[n - 1])
    }
}

/// The state in which advance `i` of a run polls its timer.
pub open spec fn midway_at(delay: u64, polls: Seq<Poll>, i: int) -> Model {
    midway(state_after(delay, polls, i as nat), polls[i])
}

/// The entry that leaves in advance `i` of a run, if any.
pub open spec fn released_at(delay: u64, polls: Seq<Poll>, i: int) -> Option<Entry> {
    released_by(state_after(delay, polls, i as nat), polls[i])
}

/// How advance `i` of a run ends.
pub open spec fn outcome_at(delay: u64, polls: Seq<Poll>, i: int) -> Advance<(u64, u64)> {
    outcome_of(state_after(delay, polls, i as nat), polls[i])
}

/// The items that left the stream in the first `n` advances, in their order.
pub open spec fn outputs(delay: u64, polls: Seq<Poll>, n: nat) -> Seq<(u64, u64)>
    decreases n,
{
    if n == 0 {
        Seq::empty()
    } else {
        let before = outputs(delay, polls, (n - 1) as nat);
        match released_at(delay, polls, n - 1) {
            Some(entry) => before.push((entry.0, entry.1.value)),
            None => before,
        }
    }
}

/// The items that the source handed over in the first `n` advances, in their
/// order.
pub open spec fn arrivals(polls: Seq<Poll>, n: nat) -> Seq<(u64, u64)>
    decreases n,
{
    if n == 0 {
        Seq::empty()
    } else {
        let before = arrivals(polls, (n - 1) as nat);
        match polls[n - 1].source {
            SourcePoll::Item(kv) => before.push(kv),
            _ => before,
        }
    }
}

/// The advance, among the first `n`, in which an item for `key` last
/// arrived; -1 where none did.
pub open spec fn last_arrival(polls: Seq<Poll>, key: u64, n: nat) -> int
    decreases n,
{
    if n == 0 {
        -1
    } else if polls[n - 1].brings(key) {
        n - 1
    } else {
        last_arrival(polls, key, (n - 1) as nat)
    }
}

/// The test that an item has the key `key`.
pub open spec fn of_key(key: u64) -> spec_fn((u64, u64)) -> bool {
    |kv: (u64, u64)| kv.0 == key
}

/// The clock of a run never goes back.
pub open spec fn chronological(polls: Seq<Poll>) -> bool {
    forall|i: int, j: int| 0 <= i <= j < polls.len() ==> polls[i].now <= polls[j].now
}

/// The timer reports its wait over only when it is: whenever an armed timer
/// fired, the clock had reached its deadline.
pub open spec fn honest_timer(delay: u64, polls: Seq<Poll>) -> bool {
    forall|i: int|
        0 <= i < polls.len() && polls[i].fired ==> (#[trigger] midway_at(delay, polls, i).timer matches Some(t) ==> t.due(
            polls[i].now,
        ))
}

/// The timer reports its wait over as soon as it is: whenever the clock had
/// reached the deadline of the armed timer, it fired.
pub open spec fn prompt_timer(delay: u64, polls: Seq<Poll>) -> bool {
    forall|i: int|
        0 <= i < polls.len() ==> (#[trigger] midway_at(delay, polls, i).timer matches Some(t) && t.due(polls[i].now)
            ==> polls[i].fired)
}

/// Every item for `key` but the first arrives less than `delay` after the
/// one before it.
pub open spec fn closely_spaced(delay: u64, polls: Seq<Poll>, key: u64) -> bool {
    forall|j: int|
        0 <= j < polls.len() && (#[trigger] polls[j]).brings(key) && last_arrival(polls, key, j as nat) >= 0
            ==> polls[j].now - polls[last_arrival(polls, key, j as nat)].now < delay
}

/// Every item for `key` but the first arrives more than `delay` after the
/// one before it.
pub open spec fn widely_spaced(delay: u64, polls: Seq<Poll>, key: u64) -> bool {
    forall|j: int|
        0 <= j < polls.len() && (#[trigger] polls[j]).brings(key) && last_arrival(polls, key, j as nat) >= 0
            ==> polls[j].now - polls[last_arrival(polls, key, j as nat)].now > delay
}

/// The host answers its timer before it pulls the next item for `key`: no
/// such item arrives in an advance that starts with a timer whose wait is
/// over.
pub open spec fn timer_served_first(delay: u64, polls: Seq<Poll>, key: u64) -> bool {
    forall|j: int|
        0 <= j < polls.len() && (#[trigger] polls[j]).brings(key) ==> !(state_after(delay, polls, j as nat).timer matches Some(
            t,
        ) && t.due(polls[j].now))
}

/// No key arrives twice in a run.
pub open spec fn distinct_arrivals(polls: Seq<Poll>) -> bool {
    forall|i: int, j: int, key: u64|
        0 <= i < j < polls.len() ==> !(#[trigger] polls[i].brings(key) && #[trigger] polls[j].brings(key))
}

/// The items that the entries will give, in their order.
pub open spec fn as_items(pending: Seq<Entry>) -> Seq<(u64, u64)> {
    Seq::new(pending.len(), |i: int| (pending[i].0, pending[i].1.value))
}

/// The value that advance `i` of a run brought.
pub open spec fn value_at(polls: Seq<Poll>, i: int) -> u64 {
    match polls[i].source {
        SourcePoll::Item(kv) => kv.1,
        _ => 0,
    }
}

/// The keys of the items.
pub open spec fn keys_of(items: Seq<(u64, u64)>) -> Set<u64> {
    items.map_values(|kv: (u64, u64)| kv.0).to_set()
}

} // verus!
