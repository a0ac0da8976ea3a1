//! What holds of every run of a stream.

use crate::buffer::{holds_key, lemma_without_absent_key, other_key};
use crate::invariants::{
    all_hold_latest, clock, holds_latest, lemma_advance_keeps_latest, lemma_advance_keeps_wf,
    lemma_arrival_keys, lemma_arrivals_of_key_step, lemma_deadline, lemma_last_arrival,
    lemma_later_entries_are_younger, lemma_midway_holds_key, lemma_outputs_of_key_step, lemma_release_holds_key,
    lemma_run_keeps_step, lemma_run_keeps_wf,
};
use crate::model::{Advance, Model, SourcePoll};
use crate::timeline::{
    advance, arrivals, as_items, chronological, closely_spaced, distinct_arrivals, honest_timer, keys_of,
    last_arrival, midway, midway_at, of_key, outcome_at, outcome_of, outputs, prompt_timer, released_at,
    released_by, state_after, timer_served_first, value_at, widely_spaced, Poll,
};
use crate::timer::wait_for;
use vstd::prelude::*;

verus! {

/// Every entry that waits after `n` advances carries the value and the
/// instant of the item that last arrived for its key.
pub proof fn law_entries_hold_latest_arrival(delay: u64, polls: Seq<Poll>, n: nat)
    ensures
        all_hold_latest(polls, n, state_after(delay, polls, n).pending),
    decreases n,
{
    if n > 0 {
        let m = (n - 1) as nat;
        law_entries_hold_latest_arrival(delay, polls, m);
        lemma_run_keeps_wf(delay, polls, m);
        lemma_advance_keeps_latest(polls, m, state_after(delay, polls, m));
    }
}

/// An entry that is overdue when the timer is computed gets a wait of zero,
/// and no entry gets a longer wait than the delay.
pub proof fn law_overdue_entry_waits_no_longer(delay: u64, ts: u64, now: u64)
    ensures
        now - ts >= delay ==> wait_for(delay, ts, now) == 0,
        ts <= now && now - ts <= delay ==> wait_for(delay, ts, now) == delay - (now - ts),
        wait_for(delay, ts, now) <= delay,
{
}

/// Nothing leaves early. While the clock never goes back and the timer fires
/// only when its wait is over, an entry that leaves in advance `i` has waited
/// the whole delay since the last arrival for its key, and it carries the
/// value of that arrival.
pub proof fn law_no_early_release(delay: u64, polls: Seq<Poll>, i: int)
    requires
        chronological(polls),
        honest_timer(delay, polls),
        0 <= i < polls.len(),
        released_at(delay, polls, i) is Some,
    ensures
        ({
            let entry = released_at(delay, polls, i)->0;
            let j = last_arrival(polls, entry.0, (i + 1) as nat);
            &&& 0 <= j <= i
            &&& polls[j].source == SourcePoll::Item((entry.0, entry.1.value))
            &&& polls[j].now == entry.1.ts
            &&& polls[i].now >= polls[j].now + delay
        }),
{
    let n = i as nat;
    let state = state_after(delay, polls, n);
    let mid = midway_at(delay, polls, i);
    lemma_run_keeps_wf(delay, polls, n);
    lemma_advance_keeps_wf(state, polls[i]);
    lemma_run_keeps_step(delay, polls, n);
    law_entries_hold_latest_arrival(delay, polls, n);
    lemma_advance_keeps_latest(polls, n, state);
    let entry = mid.pending[0];
    assert(holds_latest(polls, n + 1, entry));
    let t = mid.timer->0;
    assert(t.due(polls[i].now));
    lemma_deadline(delay, entry.1.ts, t.armed_at);
}

/// Nothing is put off. While the clock never goes back and the timer fires
/// as soon as its wait is over, an advance at which the entry at the front
/// has waited the whole delay releases that entry.
pub proof fn law_overdue_front_leaves(delay: u64, polls: Seq<Poll>, i: int)
    requires
        chronological(polls),
        prompt_timer(delay, polls),
        0 <= i < polls.len(),
        midway_at(delay, polls, i).pending.len() > 0,
        polls[i].now >= midway_at(delay, polls, i).pending[0].1.ts + delay,
    ensures
        released_at(delay, polls, i) == Some(midway_at(delay, polls, i).pending[0]),
{
    let n = i as nat;
    let state = state_after(delay, polls, n);
    let mid = midway_at(delay, polls, i);
    lemma_run_keeps_wf(delay, polls, n);
    lemma_advance_keeps_wf(state, polls[i]);
    lemma_run_keeps_step(delay, polls, n);
    let t = mid.timer->0;
    lemma_deadline(delay, mid.pending[0].1.ts, t.armed_at);
    assert(t.due(polls[i].now));
}

/// Entries leave in the order in which their keys were last touched: while
/// the clock never goes back, an entry that leaves later in a run is stamped
/// no earlier than one that left before it.
pub proof fn law_release_order_follows_last_touch(delay: u64, polls: Seq<Poll>, i: int, j: int)
    requires
        chronological(polls),
        0 <= i < j < polls.len(),
        released_at(delay, polls, i) is Some,
        released_at(delay, polls, j) is Some,
    ensures
        (released_at(delay, polls, i)->0).1.ts <= (released_at(delay, polls, j)->0).1.ts,
{
    lemma_later_entries_are_younger(delay, polls, i, j as nat);
    let mid = midway_at(delay, polls, j);
    assert(released_at(delay, polls, j)->0 == mid.pending[0]);
}

/// Where a burst for a key stands after `n` advances: before the first
/// arrival nothing waits and nothing has left; after it, either the entry of
/// the key still waits and nothing has left, or nothing waits, exactly the
/// last value has left, and the delay has passed since it arrived.
pub open spec fn burst_stands(delay: u64, polls: Seq<Poll>, n: nat, key: u64) -> bool {
    let last = last_arrival(polls, key, n);
    let held = holds_key(state_after(delay, polls, n).pending, key);
    let left = outputs(delay, polls, n).filter(of_key(key));
    if last < 0 {
        !held && left == Seq::<(u64, u64)>::empty()
    } else if held {
        left == Seq::<(u64, u64)>::empty()
    } else {
        left == seq![(key, value_at(polls, last))] && clock(polls, n) >= polls[last].now + delay
    }
}

/// While the clock never goes back and the timer fires only when its wait is
/// over, a burst stands so after every number of advances.
proof fn lemma_burst_stands(delay: u64, polls: Seq<Poll>, n: nat, key: u64)
    requires
        chronological(polls),
        honest_timer(delay, polls),
        closely_spaced(delay, polls, key),
        n <= polls.len(),
    ensures
        burst_stands(delay, polls, n, key),
    decreases n,
{
    if n == 0 {
        reveal(Seq::filter);
        assert(outputs(delay, polls, 0).filter(of_key(key)) =~= Seq::<(u64, u64)>::empty());
    } else {
        let m = (n - 1) as nat;
        let state = state_after(delay, polls, m);
        let poll = polls[m as int];
        let mid = midway(state, poll);
        let last = last_arrival(polls, key, m);
        let left = outputs(delay, polls, m).filter(of_key(key));
        lemma_burst_stands(delay, polls, m, key);
        lemma_run_keeps_wf(delay, polls, m);
        lemma_advance_keeps_wf(state, poll);
        lemma_run_keeps_step(delay, polls, m);
        law_entries_hold_latest_arrival(delay, polls, m);
        lemma_advance_keeps_latest(polls, m, state);
        lemma_midway_holds_key(state, poll, key);
        lemma_release_holds_key(mid, poll.fired, poll.now, key);
        lemma_outputs_of_key_step(delay, polls, m, key);
        lemma_last_arrival(polls, key, m);
        assert(mid == midway_at(delay, polls, m as int));
        if m > 0 {
            assert(polls[m - 1].now <= polls[m as int].now);
        }
        let released = mid.releases(poll.fired) && mid.pending[0].0 == key;
        if released {
            let entry = mid.pending[0];
            let t = mid.timer->0;
            assert(t.due(poll.now));
            lemma_deadline(delay, entry.1.ts, t.armed_at);
            assert(holds_latest(polls, n, entry));
            assert(poll.now >= entry.1.ts + delay);
        }
        if poll.brings(key) {
            if last >= 0 {
                assert(poll.now - polls[last].now < delay);
            }
            assert(left == Seq::<(u64, u64)>::empty());
            if released {
                assert(left.push((key, mid.pending[0].1.value)) =~= seq![(key, value_at(polls, m as int))]);
            }
        } else {
            assert(last_arrival(polls, key, n) == last);
            if released {
                assert(left.push((key, mid.pending[0].1.value)) =~= seq![(key, value_at(polls, last))]);
            }
        }
    }
}

/// A burst leaves once. While the clock never goes back and the timer fires
/// only when its wait is over, a key whose items arrive less than the delay
/// apart gives no item as long as its entry waits, and once the entry has
/// left, exactly one item has left for the key: the value that arrived last.
pub proof fn law_burst_leaves_once(delay: u64, polls: Seq<Poll>, n: nat, key: u64)
    requires
        chronological(polls),
        honest_timer(delay, polls),
        closely_spaced(delay, polls, key),
        n <= polls.len(),
    ensures
        holds_key(state_after(delay, polls, n).pending, key) || last_arrival(polls, key, n) < 0 ==> outputs(
            delay,
            polls,
            n,
        ).filter(of_key(key)) == Seq::<(u64, u64)>::empty(),
        !holds_key(state_after(delay, polls, n).pending, key) && last_arrival(polls, key, n) >= 0 ==> outputs(
            delay,
            polls,
            n,
        ).filter(of_key(key)) == seq![(key, value_at(polls, last_arrival(polls, key, n)))],
{
    lemma_burst_stands(delay, polls, n, key);
}

/// Where no key arrives twice, nothing is replaced: after any number of
/// advances, the items that left, followed by those that still wait, are the
/// items that arrived, in the order of their arrival.
pub proof fn law_distinct_keys_pass_through(delay: u64, polls: Seq<Poll>, n: nat)
    requires
        distinct_arrivals(polls),
        n <= polls.len(),
    ensures
        outputs(delay, polls, n) + as_items(state_after(delay, polls, n).pending) == arrivals(polls, n),
        state_after(delay, polls, n).pending.len() == 0 ==> outputs(delay, polls, n) == arrivals(polls, n),
    decreases n,
{
    if n > 0 {
        let m = (n - 1) as nat;
        law_distinct_keys_pass_through(delay, polls, m);
        lemma_run_keeps_wf(delay, polls, m);
        law_entries_hold_latest_arrival(delay, polls, m);
        let state = state_after(delay, polls, m);
        let poll = polls[m as int];
        let mid = midway(state, poll);
        match poll.source {
            SourcePoll::Item((key, value)) => {
                if holds_key(state.pending, key) {
                    let a = choose|a: int| 0 <= a < state.pending.len() && state.pending[a].0 == key;
                    assert(holds_latest(polls, m, state.pending[a]));
                    let j = last_arrival(polls, key, m);
                    assert(polls[j].brings(key) && polls[m as int].brings(key));
                }
                lemma_without_absent_key(state.pending, key);
                assert(as_items(mid.pending) =~= as_items(state.pending).push((key, value)));
                assert(outputs(delay, polls, m) + as_items(mid.pending) =~= arrivals(polls, n));
            },
            _ => {},
        }
        assert(outputs(delay, polls, m) + as_items(mid.pending) == arrivals(polls, n));
        let end = state_after(delay, polls, n);
        if mid.releases(poll.fired) {
            assert(as_items(mid.pending) =~= seq![(mid.pending[0].0, mid.pending[0].1.value)] + as_items(
                end.pending,
            ));
        }
        assert(outputs(delay, polls, n) + as_items(end.pending) =~= outputs(delay, polls, m) + as_items(
            mid.pending,
        ));
    }
    if state_after(delay, polls, n).pending.len() == 0 {
        assert(outputs(delay, polls, n) + as_items(state_after(delay, polls, n).pending) =~= outputs(
            delay,
            polls,
            n,
        ));
    }
}

/// Where the updates of a key stand after `n` advances when none of them
/// replaced another: the items that left for the key, followed by the value
/// that still waits, are the items that arrived for it.
pub open spec fn each_update_stands(delay: u64, polls: Seq<Poll>, n: nat, key: u64) -> bool {
    let last = last_arrival(polls, key, n);
    let left = outputs(delay, polls, n).filter(of_key(key));
    let came = arrivals(polls, n).filter(of_key(key));
    if holds_key(state_after(delay, polls, n).pending, key) {
        last >= 0 && left.push((key, value_at(polls, last))) == came
    } else {
        left == came
    }
}

/// Updates that are far apart are not merged. While the clock never goes
/// back and the host answers its timer before it pulls the next item for the
/// key, a key whose items arrive more than the delay apart gives each of them
/// as an item of its own, in the order of arrival: the items that left for
/// the key, and after them the value that still waits, are the items that
/// arrived for it.
pub proof fn law_spaced_updates_leave_one_by_one(delay: u64, polls: Seq<Poll>, n: nat, key: u64)
    requires
        chronological(polls),
        widely_spaced(delay, polls, key),
        timer_served_first(delay, polls, key),
        n <= polls.len(),
    ensures
        each_update_stands(delay, polls, n, key),
    decreases n,
{
    if n == 0 {
        assert(outputs(delay, polls, 0) =~= arrivals(polls, 0));
    } else {
        let m = (n - 1) as nat;
        let state = state_after(delay, polls, m);
        let poll = polls[m as int];
        let mid = midway(state, poll);
        let last = last_arrival(polls, key, m);
        let left = outputs(delay, polls, m).filter(of_key(key));
        let came = arrivals(polls, m).filter(of_key(key));
        law_spaced_updates_leave_one_by_one(delay, polls, m, key);
        lemma_run_keeps_wf(delay, polls, m);
        lemma_advance_keeps_wf(state, poll);
        lemma_run_keeps_step(delay, polls, m);
        law_entries_hold_latest_arrival(delay, polls, m);
        lemma_advance_keeps_latest(polls, m, state);
        lemma_midway_holds_key(state, poll, key);
        lemma_release_holds_key(mid, poll.fired, poll.now, key);
        lemma_outputs_of_key_step(delay, polls, m, key);
        lemma_arrivals_of_key_step(polls, m, key);
        lemma_last_arrival(polls, key, m);
        if m > 0 {
            assert(polls[m - 1].now <= polls[m as int].now);
        }
        let released = mid.releases(poll.fired) && mid.pending[0].0 == key;
        if released {
            assert(holds_latest(polls, n, mid.pending[0]));
        }
        if poll.brings(key) {
            if holds_key(state.pending, key) {
                let a = choose|a: int| 0 <= a < state.pending.len() && state.pending[a].0 == key;
                assert(holds_latest(polls, m, state.pending[a]));
                assert(poll.now - polls[last].now > delay);
                let t = state.timer->0;
                assert(state.pending[0].1.ts <= state.pending[a].1.ts);
                lemma_deadline(delay, state.pending[0].1.ts, t.armed_at);
                assert(t.due(poll.now));
                assert(false);
            }
            assert(left == came);
        } else {
            assert(last_arrival(polls, key, n) == last);
        }
    }
}

/// Coalescing never adds an item: after any number of advances, the items
/// that left and the entries that still wait are together no more than the
/// items that arrived.
pub proof fn law_no_more_out_than_in(delay: u64, polls: Seq<Poll>, n: nat)
    ensures
        outputs(delay, polls, n).len() + state_after(delay, polls, n).pending.len() <= arrivals(polls, n).len(),
        outputs(delay, polls, n).len() <= n,
    decreases n,
{
    if n > 0 {
        let m = (n - 1) as nat;
        law_no_more_out_than_in(delay, polls, m);
        let state = state_after(delay, polls, m);
        match polls[n - 1].source {
            SourcePoll::Item((key, value)) => {
                state.pending.lemma_filter_len(other_key(key));
            },
            _ => {},
        }
    }
}

/// No key is lost: a key that arrived among the first `n` advances either
/// still waits after them or has left with an item at least once.
pub proof fn law_every_key_waits_or_left(delay: u64, polls: Seq<Poll>, n: nat, key: u64)
    requires
        last_arrival(polls, key, n) >= 0,
    ensures
        holds_key(state_after(delay, polls, n).pending, key) || outputs(delay, polls, n).filter(of_key(key)).len()
            >= 1,
    decreases n,
{
    let m = (n - 1) as nat;
    let state = state_after(delay, polls, m);
    let poll = polls[m as int];
    let mid = midway(state, poll);
    lemma_run_keeps_wf(delay, polls, m);
    lemma_advance_keeps_wf(state, poll);
    if !poll.brings(key) {
        law_every_key_waits_or_left(delay, polls, m, key);
    }
    lemma_midway_holds_key(state, poll, key);
    lemma_release_holds_key(mid, poll.fired, poll.now, key);
    lemma_outputs_of_key_step(delay, polls, m, key);
}

/// A run that has drained gave at least one item for each key that arrived:
/// where nothing waits after `n` advances, every key that arrived is the key
/// of an item that left, and the items that left are no fewer than the keys
/// that arrived.
pub proof fn law_drained_run_covers_every_key(delay: u64, polls: Seq<Poll>, n: nat)
    requires
        state_after(delay, polls, n).pending.len() == 0,
    ensures
        keys_of(arrivals(polls, n)).subset_of(keys_of(outputs(delay, polls, n))),
        keys_of(arrivals(polls, n)).len() <= outputs(delay, polls, n).len(),
{
    let take_key = |kv: (u64, u64)| kv.0;
    let left = outputs(delay, polls, n);
    let left_keys = left.map_values(take_key);
    assert forall|key: u64| keys_of(arrivals(polls, n)).contains(key) implies keys_of(left).contains(key) by {
        lemma_arrival_keys(polls, n, key);
        law_every_key_waits_or_left(delay, polls, n, key);
        let of_this = left.filter(of_key(key));
        left.lemma_filter_pred(of_key(key), 0);
        assert(of_this.contains(of_this[0]));
        left.lemma_filter_contains_rev(of_key(key), of_this[0]);
        let i = choose|i: int| 0 <= i < left.len() && left[i] == of_this[0];
        assert(left_keys[i] == key);
    }
    left_keys.lemma_cardinality_of_set();
    vstd::seq_lib::seq_to_set_is_finite(left_keys);
    vstd::set_lib::lemma_len_subset(keys_of(arrivals(polls, n)), keys_of(left));
}

/// An advance ends with `Finished` exactly when, after it, the source is
/// exhausted and nothing waits; and the end of the source is never forgotten.
pub proof fn law_finished_means_drained(state: Model, poll: Poll)
    requires
        state.wf(),
    ensures
        outcome_of(state, poll) is Finished <==> released_by(state, poll) is None && advance(state, poll).input_finished
            && advance(state, poll).pending.len() == 0,
        state.input_finished ==> advance(state, poll).input_finished,
{
    lemma_advance_keeps_wf(state, poll);
}

/// Once the source is exhausted and nothing waits, an advance that brings no
/// item ends with `Finished`, releases nothing and leaves the state as it is.
pub proof fn law_finished_stays_finished(state: Model, poll: Poll)
    requires
        state.wf(),
        state.is_finished(),
        !poll.brings_any(),
    ensures
        outcome_of(state, poll) == Advance::<(u64, u64)>::Finished,
        released_by(state, poll) is None,
        advance(state, poll) == state,
{
}

/// The end is final: after an advance of a run that ended with `Finished`,
/// every later advance ends with `Finished` too, releases nothing and leaves
/// the state as it is, as long as the source brings no further item.
pub proof fn law_end_is_final(delay: u64, polls: Seq<Poll>, i: int, j: int)
    requires
        0 <= i <= j < polls.len(),
        outcome_at(delay, polls, i) is Finished,
        forall|k: int| i < k <= j ==> !(#[trigger] polls[k]).brings_any(),
    ensures
        outcome_at(delay, polls, j) is Finished,
        released_at(delay, polls, j) is None,
        state_after(delay, polls, (j + 1) as nat) == state_after(delay, polls, (i + 1) as nat),
        state_after(delay, polls, (j + 1) as nat).is_finished(),
    decreases j - i,
{
    lemma_run_keeps_wf(delay, polls, i as nat);
    lemma_advance_keeps_wf(state_after(delay, polls, i as nat), polls[i]);
    if i < j {
        law_end_is_final(delay, polls, i, j - 1);
        lemma_run_keeps_wf(delay, polls, j as nat);
        assert(!polls[j].brings_any());
        law_finished_stays_finished(state_after(delay, polls, j as nat), polls[j]);
    }
}

} // verus!
