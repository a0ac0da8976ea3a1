//! What every state of a run keeps, and how one advance carries it on. The
//! laws of the crate are proved from these.

use crate::buffer::{
    holds_key, lemma_upsert_keeps_keys_distinct, lemma_upsert_shape, lemma_without_key_is_clean, without_key,
    Entry,
};
use crate::model::{Model, SourcePoll};
use crate::timed_item::TimedItem;
use crate::timeline::{
    advance, arrivals, chronological, keys_of, last_arrival, midway, midway_at, of_key, outputs, released_at,
    state_after, value_at, Poll,
};
use crate::timer::wait_for;
use vstd::prelude::*;

verus! {

/// Both steps of an advance keep the invariant of the state and its delay.
pub proof fn lemma_advance_keeps_wf(state: Model, poll: Poll)
    requires
        state.wf(),
    ensures
        midway(state, poll).wf(),
        midway(state, poll).delay == state.delay,
        advance(state, poll).wf(),
        advance(state, poll).delay == state.delay,
{
    let mid = midway(state, poll);
    match poll.source {
        SourcePoll::Item((key, value)) => {
            lemma_upsert_keeps_keys_distinct(state.pending, key, value, poll.now);
        },
        _ => {},
    }
    assert(mid.wf());
    if mid.releases(poll.fired) {
        let rest = mid.pending.drop_first();
        assert forall|i: int, j: int| 0 <= i < j < rest.len() implies rest[i].0 != rest[j].0 by {
            assert(mid.pending[i + 1].0 != mid.pending[j + 1].0);
        }
    }
}

/// Every state of a run meets the invariant and has the delay of the stream.
pub proof fn lemma_run_keeps_wf(delay: u64, polls: Seq<Poll>, n: nat)
    ensures
        state_after(delay, polls, n).wf(),
        state_after(delay, polls, n).delay == delay,
    decreases n,
{
    if n > 0 {
        lemma_run_keeps_wf(delay, polls, (n - 1) as nat);
        lemma_advance_keeps_wf(state_after(delay, polls, (n - 1) as nat), polls[n - 1]);
    }
}

/// The entry carries the value and the instant of the item that last arrived
/// for its key among the first `n` advances.
pub open spec fn holds_latest(polls: Seq<Poll>, n: nat, entry: Entry) -> bool {
    let j = last_arrival(polls, entry.0, n);
    &&& 0 <= j < n
    &&& polls[j].source == SourcePoll::Item((entry.0, entry.1.value))
    &&& polls[j].now == entry.1.ts
}

/// Every one of the entries holds the latest arrival for its key.
pub open spec fn all_hold_latest(polls: Seq<Poll>, n: nat, pending: Seq<Entry>) -> bool {
    forall|a: int| 0 <= a < pending.len() ==> holds_latest(polls, n, #[trigger] pending[a])
}

/// The last arrival for a key lies among the advances looked at, brings the
/// key, and no later one of them brings it.
pub proof fn lemma_last_arrival(polls: Seq<Poll>, key: u64, n: nat)
    ensures
        -1 <= last_arrival(polls, key, n) < n,
        last_arrival(polls, key, n) >= 0 ==> polls[last_arrival(polls, key, n)].brings(key),
        forall|j: int| last_arrival(polls, key, n) < j < n ==> !(#[trigger] polls[j]).brings(key),
    decreases n,
{
    if n > 0 {
        lemma_last_arrival(polls, key, (n - 1) as nat);
    }
}

/// One advance keeps every waiting entry at the latest arrival for its key.
pub proof fn lemma_advance_keeps_latest(polls: Seq<Poll>, n: nat, state: Model)
    requires
        state.wf(),
        all_hold_latest(polls, n, state.pending),
    ensures
        all_hold_latest(polls, n + 1, midway(state, polls[n as int]).pending),
        all_hold_latest(polls, n + 1, advance(state, polls[n as int]).pending),
{
    let poll = polls[n as int];
    let mid = midway(state, poll);
    assert forall|a: int| 0 <= a < mid.pending.len() implies holds_latest(polls, n + 1, #[trigger] mid.pending[a]) by {
        match poll.source {
            SourcePoll::Item((key, value)) => {
                let at = lemma_upsert_shape(state.pending, key, value, poll.now);
                lemma_without_key_is_clean(state.pending, key);
                if a < mid.pending.len() - 1 {
                    let b = if at < 0 || a < at {
                        a
                    } else {
                        a + 1
                    };
                    assert(mid.pending[a] == state.pending[b]);
                    assert(holds_latest(polls, n, state.pending[b]));
                    assert(without_key(state.pending, key)[a] == mid.pending[a]);
                    assert(mid.pending[a].0 != key) by {
                        if mid.pending[a].0 == key {
                            assert(holds_key(without_key(state.pending, key), key));
                        }
                    }
                }
            },
            _ => {
                assert(holds_latest(polls, n, state.pending[a]));
            },
        }
    }
    let end = advance(state, poll);
    assert forall|a: int| 0 <= a < end.pending.len() implies holds_latest(polls, n + 1, #[trigger] end.pending[a]) by {
        if mid.releases(poll.fired) {
            assert(end.pending[a] == mid.pending[a + 1]);
        }
    }
}

/// The clock after the first `n` advances of a run: the instant of the last
/// of them, and 0 before the first.
pub open spec fn clock(polls: Seq<Poll>, n: nat) -> int {
    if n == 0 {
        0
    } else {
        polls[n - 1].now as int
    }
}

/// The state is in step with the clock: the entries are stamped in the order
/// in which they wait, none later than the clock, and the timer was armed no
/// later than the clock and no earlier than the stamp of the entry at the
/// front.
pub open spec fn in_step(state: Model, clock: int) -> bool {
    &&& forall|a: int, b: int|
        0 <= a <= b < state.pending.len() ==> state.pending[a].1.ts <= state.pending[b].1.ts
    &&& forall|a: int| 0 <= a < state.pending.len() ==> (#[trigger] state.pending[a]).1.ts <= clock
    &&& state.timer matches Some(t) ==> state.pending.len() > 0 && state.pending[0].1.ts <= t.armed_at <= clock
}

/// An advance at an instant that the clock has not passed keeps the state in
/// step with the clock.
pub proof fn lemma_advance_keeps_step(state: Model, poll: Poll, clock: int)
    requires
        state.wf(),
        in_step(state, clock),
        clock <= poll.now,
    ensures
        in_step(midway(state, poll), poll.now as int),
        in_step(advance(state, poll), poll.now as int),
{
    let mid = midway(state, poll);
    match poll.source {
        SourcePoll::Item((key, value)) => {
            let at = lemma_upsert_shape(state.pending, key, value, poll.now);
            let last = mid.pending.len() - 1;
            assert forall|a: int| 0 <= a < mid.pending.len() implies (#[trigger] mid.pending[a]).1.ts <= poll.now by {
                if a < last {
                    let b = if at < 0 || a < at {
                        a
                    } else {
                        a + 1
                    };
                    assert(mid.pending[a] == state.pending[b]);
                }
            }
            assert forall|a: int, b: int| 0 <= a <= b < mid.pending.len() implies mid.pending[a].1.ts
                <= mid.pending[b].1.ts by {
                if b < last {
                    let a0 = if at < 0 || a < at {
                        a
                    } else {
                        a + 1
                    };
                    let b0 = if at < 0 || b < at {
                        b
                    } else {
                        b + 1
                    };
                    assert(mid.pending[a] == state.pending[a0]);
                    assert(mid.pending[b] == state.pending[b0]);
                }
            }
        },
        _ => {},
    }
    assert(in_step(mid, poll.now as int));
    if mid.releases(poll.fired) {
        let end = advance(state, poll);
        assert forall|a: int| 0 <= a < end.pending.len() implies (#[trigger] end.pending[a]).1.ts <= poll.now by {
            assert(end.pending[a] == mid.pending[a + 1]);
        }
        assert forall|a: int, b: int| 0 <= a <= b < end.pending.len() implies end.pending[a].1.ts
            <= end.pending[b].1.ts by {
            assert(end.pending[a] == mid.pending[a + 1]);
            assert(end.pending[b] == mid.pending[b + 1]);
        }
    }
}

/// While the clock never goes back, every state of a run is in step with it.
pub proof fn lemma_run_keeps_step(delay: u64, polls: Seq<Poll>, n: nat)
    requires
        chronological(polls),
        n <= polls.len(),
    ensures
        in_step(state_after(delay, polls, n), clock(polls, n)),
        n < polls.len() ==> in_step(midway_at(delay, polls, n as int), polls[n as int].now as int),
    decreases n,
{
    if n > 0 {
        let m = (n - 1) as nat;
        lemma_run_keeps_step(delay, polls, m);
        lemma_run_keeps_wf(delay, polls, m);
        if m > 0 {
            assert(polls[m - 1].now <= polls[m as int].now);
        }
        lemma_advance_keeps_step(state_after(delay, polls, m), polls[m as int], clock(polls, m));
    }
    if n < polls.len() {
        lemma_run_keeps_wf(delay, polls, n);
        if n > 0 {
            assert(polls[n - 1].now <= polls[n as int].now);
        }
        lemma_advance_keeps_step(state_after(delay, polls, n), polls[n as int], clock(polls, n));
    }
}

/// A timer that was armed no earlier than the stamp of the entry at the front
/// ends exactly when that entry has waited the delay, or at once where the
/// entry was overdue when the timer was armed.
pub proof fn lemma_deadline(delay: u64, ts: u64, armed_at: u64)
    requires
        ts <= armed_at,
    ensures
        armed_at + wait_for(delay, ts, armed_at) == if armed_at - ts > delay {
            armed_at as int
        } else {
            ts + delay
        },
{
}

/// While the clock never goes back, the entries that wait after an entry has
/// left, then or at any later point of the run, are stamped no earlier than
/// that entry.
pub proof fn lemma_later_entries_are_younger(delay: u64, polls: Seq<Poll>, i: int, n: nat)
    requires
        chronological(polls),
        0 <= i < n <= polls.len(),
        released_at(delay, polls, i) is Some,
    ensures
        forall|a: int|
            0 <= a < state_after(delay, polls, n).pending.len() ==> (#[trigger] state_after(
                delay,
                polls,
                n,
            ).pending[a]).1.ts >= (released_at(delay, polls, i)->0).1.ts,
        n < polls.len() ==> forall|a: int|
            0 <= a < midway_at(delay, polls, n as int).pending.len() ==> (#[trigger] midway_at(
                delay,
                polls,
                n as int,
            ).pending[a]).1.ts >= (released_at(delay, polls, i)->0).1.ts,
    decreases n,
{
    let floor = (released_at(delay, polls, i)->0).1.ts;
    let m = (n - 1) as nat;
    let before = state_after(delay, polls, m);
    let mid = midway(before, polls[m as int]);
    let state = state_after(delay, polls, n);
    lemma_run_keeps_step(delay, polls, i as nat);
    assert(floor <= polls[i].now);
    if m == i {
        assert forall|a: int| 0 <= a < state.pending.len() implies (#[trigger] state.pending[a]).1.ts >= floor by {
            assert(state.pending[a] == mid.pending[a + 1]);
        }
    } else {
        lemma_later_entries_are_younger(delay, polls, i, m);
        assert forall|a: int| 0 <= a < state.pending.len() implies (#[trigger] state.pending[a]).1.ts >= floor by {
            if mid.releases(polls[m as int].fired) {
                assert(state.pending[a] == mid.pending[a + 1]);
            }
        }
    }
    if n < polls.len() {
        let poll = polls[n as int];
        let next = midway(state, poll);
        lemma_run_keeps_wf(delay, polls, n);
        assert(polls[i].now <= poll.now);
        assert forall|a: int| 0 <= a < next.pending.len() implies (#[trigger] next.pending[a]).1.ts >= floor by {
            match poll.source {
                SourcePoll::Item((key, value)) => {
                    let at = lemma_upsert_shape(state.pending, key, value, poll.now);
                    if a < next.pending.len() - 1 {
                        let b = if at < 0 || a < at {
                            a
                        } else {
                            a + 1
                        };
                        assert(next.pending[a] == state.pending[b]);
                    }
                },
                _ => {},
            }
        }
    }
}

/// After the source step an entry waits for a key exactly if the advance
/// brought the key or an entry waited for it before.
pub proof fn lemma_midway_holds_key(state: Model, poll: Poll, key: u64)
    requires
        state.wf(),
    ensures
        holds_key(midway(state, poll).pending, key) <==> poll.brings(key) || holds_key(state.pending, key),
        poll.brings(key) ==> midway(state, poll).pending.last() == (
            key,
            TimedItem { ts: poll.now, value: poll.source->Item_0.1 },
        ),
{
    let mid = midway(state, poll);
    match poll.source {
        SourcePoll::Item((k, v)) => {
            let at = lemma_upsert_shape(state.pending, k, v, poll.now);
            lemma_upsert_keeps_keys_distinct(state.pending, k, v, poll.now);
            let last = mid.pending.len() - 1;
            if holds_key(mid.pending, key) && key != k {
                let a = choose|a: int| 0 <= a < mid.pending.len() && mid.pending[a].0 == key;
                let b = if at < 0 || a < at {
                    a
                } else {
                    a + 1
                };
                assert(state.pending[b].0 == key);
            }
            if holds_key(state.pending, key) && key != k {
                let b = choose|b: int| 0 <= b < state.pending.len() && state.pending[b].0 == key;
                let a = if at < 0 || b < at {
                    b
                } else {
                    b - 1
                };
                assert(mid.pending[a].0 == key);
            }
        },
        _ => {},
    }
}

/// After the timer step an entry waits for a key exactly if one waited for it
/// before and was not the one that left.
pub proof fn lemma_release_holds_key(mid: Model, fired: bool, now: u64, key: u64)
    requires
        mid.wf(),
    ensures
        holds_key(mid.after_timer(fired, now).pending, key) <==> holds_key(mid.pending, key) && !(mid.releases(fired)
            && mid.pending[0].0 == key),
{
    let end = mid.after_timer(fired, now);
    if mid.releases(fired) {
        if holds_key(end.pending, key) {
            let a = choose|a: int| 0 <= a < end.pending.len() && end.pending[a].0 == key;
            assert(mid.pending[a + 1].0 == key);
            assert(mid.pending[0].0 != mid.pending[a + 1].0);
        }
        if holds_key(mid.pending, key) && mid.pending[0].0 != key {
            let b = choose|b: int| 0 <= b < mid.pending.len() && mid.pending[b].0 == key;
            assert(end.pending[b - 1].0 == key);
        }
    }
}

/// The items for a key that left in advance `m` join those that left before.
pub proof fn lemma_outputs_of_key_step(delay: u64, polls: Seq<Poll>, m: nat, key: u64)
    ensures
        outputs(delay, polls, m + 1).filter(of_key(key)) == match released_at(delay, polls, m as int) {
            Some(entry) => if entry.0 == key {
                outputs(delay, polls, m).filter(of_key(key)).push((key, entry.1.value))
            } else {
                outputs(delay, polls, m).filter(of_key(key))
            },
            None => outputs(delay, polls, m).filter(of_key(key)),
        },
{
    match released_at(delay, polls, m as int) {
        Some(entry) => {
            outputs(delay, polls, m).lemma_filter_push((entry.0, entry.1.value), of_key(key));
        },
        None => {},
    }
}

/// The item for a key that arrived in advance `m` joins those that arrived
/// before.
pub proof fn lemma_arrivals_of_key_step(polls: Seq<Poll>, m: nat, key: u64)
    ensures
        arrivals(polls, m + 1).filter(of_key(key)) == if polls[m as int].brings(key) {
            arrivals(polls, m).filter(of_key(key)).push((key, value_at(polls, m as int)))
        } else {
            arrivals(polls, m).filter(of_key(key))
        },
{
    match polls[m as int].source {
        SourcePoll::Item(kv) => {
            arrivals(polls, m).lemma_filter_push(kv, of_key(key));
        },
        _ => {},
    }
}

/// The keys that arrived among the first `n` advances are those with a last
/// arrival.
pub proof fn lemma_arrival_keys(polls: Seq<Poll>, n: nat, key: u64)
    ensures
        keys_of(arrivals(polls, n)).contains(key) <==> last_arrival(polls, key, n) >= 0,
    decreases n,
{
    let take_key = |kv: (u64, u64)| kv.0;
    let keys = arrivals(polls, n).map_values(take_key);
    if n > 0 {
        let m = (n - 1) as nat;
        lemma_arrival_keys(polls, m, key);
        let before = arrivals(polls, m).map_values(take_key);
        match polls[m as int].source {
            SourcePoll::Item(kv) => {
                assert(keys =~= before.push(kv.0));
                if before.contains(key) {
                    let i = choose|i: int| 0 <= i < before.len() && before[i] == key;
                    assert(keys[i] == key);
                }
                if kv.0 == key {
                    assert(keys[keys.len() - 1] == key);
                }
                if keys.contains(key) && kv.0 != key {
                    let i = choose|i: int| 0 <= i < keys.len() && keys[i] == key;
                    assert(before[i] == key);
                }
            },
            _ => {},
        }
    }
}

} // verus!
