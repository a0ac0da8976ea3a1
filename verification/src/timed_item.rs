use vstd::prelude::*;

verus! {

/// A payload together with the instant at which it was taken in.
///
/// Instants are readings of one monotonic clock, as a count of ticks; the
/// delay of a stream is a count of the same ticks.
pub struct TimedItem<V> {
    pub ts: u64,
    pub value: V,
}

impl<V> TimedItem<V> {
    /// Stamps `value` with the clock reading `now`.
    pub fn new(value: V, now: u64) -> (item: Self)
        ensures
            item.ts == now,
            item.value == value,
    {
        TimedItem { ts: now, value }
    }
}

} // verus!
