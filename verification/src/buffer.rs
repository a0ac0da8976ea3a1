use crate::linked_map::{entries_of, map_front, map_insert, map_is_empty, map_new, map_pop_front, map_remove};
use crate::timed_item::TimedItem;
use linked_hash_map::LinkedHashMap;
use vstd::prelude::*;

verus! {

/// One waiting delivery as the contracts see it: the key, and the item that
/// holds the value and the instant of its arrival.
pub type Entry = (u64, TimedItem<u64>);

/// No two entries have the same key.
pub open spec fn distinct_keys(entries: Seq<Entry>) -> bool {
    forall|i: int, j: int| 0 <= i < j < entries.len() ==> entries[i].0 != entries[j].0
}

/// Some entry has the key.
pub open spec fn holds_key(entries: Seq<Entry>, key: u64) -> bool {
    exists|i: int| 0 <= i < entries.len() && entries[i].0 == key
}

/// The test that an entry has another key than `key`.
pub open spec fn other_key(key: u64) -> spec_fn(Entry) -> bool {
    |e: Entry| e.0 != key
}

/// The entries with another key than `key`, in their order.
pub open spec fn without_key(entries: Seq<Entry>, key: u64) -> Seq<Entry> {
    entries.filter(other_key(key))
}

/// The entries after `value` arrived for `key` at `now`: an older entry of the
/// key is gone, the others keep their order, and the new entry is the last.
pub open spec fn upsert(entries: Seq<Entry>, key: u64, value: u64, now: u64) -> Seq<Entry> {
    without_key(entries, key).push((key, TimedItem { ts: now, value }))
}

/// Where no entry has the key, taking the key out changes nothing.
pub proof fn lemma_without_absent_key(entries: Seq<Entry>, key: u64)
    requires
        !holds_key(entries, key),
    ensures
        without_key(entries, key) == entries,
    decreases entries.len(),
{
    let keep = other_key(key);
    if entries.len() == 0 {
        reveal(Seq::filter);
    } else {
        let rest = entries.drop_last();
        assert(entries[entries.len() - 1].0 != key);
        assert forall|i: int| 0 <= i < rest.len() implies rest[i].0 != key by {
            assert(entries[i].0 != key);
        }
        lemma_without_absent_key(rest, key);
        rest.lemma_filter_push(entries.last(), keep);
        assert(rest.push(entries.last()) =~= entries);
    }
}

/// Where the keys are distinct, taking a key out removes the one entry that
/// has it.
pub proof fn lemma_without_present_key(entries: Seq<Entry>, key: u64, at: int)
    requires
        distinct_keys(entries),
        0 <= at < entries.len(),
        entries[at].0 == key,
    ensures
        without_key(entries, key) == entries.remove(at),
    decreases entries.len(),
{
    let keep = other_key(key);
    let rest = entries.drop_last();
    assert(rest.push(entries.last()) =~= entries);
    rest.lemma_filter_push(entries.last(), keep);
    if at == entries.len() - 1 {
        assert forall|i: int| 0 <= i < rest.len() implies rest[i].0 != key by {
            assert(entries[i].0 != entries[at].0);
        }
        lemma_without_absent_key(rest, key);
        assert(entries.remove(at) =~= rest);
    } else {
        assert(entries[at].0 != entries[entries.len() - 1].0);
        lemma_without_present_key(rest, key, at);
        assert(rest.remove(at).push(entries.last()) =~= entries.remove(at));
    }
}

/// Taking a key out leaves no entry with it and keeps distinct keys distinct.
pub proof fn lemma_without_key_is_clean(entries: Seq<Entry>, key: u64)
    requires
        distinct_keys(entries),
    ensures
        !holds_key(without_key(entries, key), key),
        distinct_keys(without_key(entries, key)),
        without_key(entries, key).len() <= entries.len(),
{
    if holds_key(entries, key) {
        let at = choose|i: int| 0 <= i < entries.len() && entries[i].0 == key;
        lemma_without_present_key(entries, key, at);
        let rest = entries.remove(at);
        assert forall|i: int| 0 <= i < rest.len() implies rest[i].0 != key by {
            if i < at {
                assert(entries[i].0 != entries[at].0);
            } else {
                assert(entries[at].0 != entries[i + 1].0);
            }
        }
    } else {
        lemma_without_absent_key(entries, key);
    }
}

/// An arrival keeps the keys distinct.
pub proof fn lemma_upsert_keeps_keys_distinct(entries: Seq<Entry>, key: u64, value: u64, now: u64)
    requires
        distinct_keys(entries),
    ensures
        distinct_keys(upsert(entries, key, value, now)),
        holds_key(upsert(entries, key, value, now), key),
        upsert(entries, key, value, now).len() <= entries.len() + 1,
        upsert(entries, key, value, now).len() >= 1,
{
    lemma_without_key_is_clean(entries, key);
    let rest = without_key(entries, key);
    let after = upsert(entries, key, value, now);
    assert forall|i: int, j: int| 0 <= i < j < after.len() implies after[i].0 != after[j].0 by {
        if j == after.len() - 1 {
            assert(rest[i].0 != key);
        }
    }
    assert(after[after.len() - 1].0 == key);
}

/// How an arrival reshapes the entries. The result is -1 where no entry had
/// the key: the new entry is appended. Else it is the place of the entry that
/// had the key: that entry is taken out and the new one appended.
pub proof fn lemma_upsert_shape(entries: Seq<Entry>, key: u64, value: u64, now: u64) -> (at: int)
    requires
        distinct_keys(entries),
    ensures
        -1 <= at < entries.len(),
        at == -1 ==> !holds_key(entries, key) && upsert(entries, key, value, now) == entries.push(
            (key, TimedItem { ts: now, value }),
        ),
        at >= 0 ==> entries[at].0 == key && upsert(entries, key, value, now) == entries.remove(at).push(
            (key, TimedItem { ts: now, value }),
        ),
{
    if holds_key(entries, key) {
        let at = choose|i: int| 0 <= i < entries.len() && entries[i].0 == key;
        lemma_without_present_key(entries, key, at);
        at
    } else {
        lemma_without_absent_key(entries, key);
        -1
    }
}

/// An arrival keeps the others in their order and puts its key last: two
/// entries of other keys stand after it as they stood before, both ahead of
/// the new entry.
pub proof fn law_upsert_keeps_order(entries: Seq<Entry>, key: u64, value: u64, now: u64, a: int, b: int)
    requires
        distinct_keys(entries),
        0 <= a < b < entries.len(),
        entries[a].0 != key,
        entries[b].0 != key,
    ensures
        upsert(entries, key, value, now).last() == (key, TimedItem { ts: now, value }),
        exists|x: int, y: int|
            0 <= x < y < upsert(entries, key, value, now).len() - 1 && upsert(entries, key, value, now)[x]
                == entries[a] && upsert(entries, key, value, now)[y] == entries[b],
{
    let at = lemma_upsert_shape(entries, key, value, now);
    let after = upsert(entries, key, value, now);
    let x = if at < 0 || a < at {
        a
    } else {
        a - 1
    };
    let y = if at < 0 || b < at {
        b
    } else {
        b - 1
    };
    assert(0 <= x < y < after.len() - 1 && after[x] == entries[a] && after[y] == entries[b]);
}

/// The waiting deliveries: at most one entry for a key, the one that has
/// waited longest at the front, the one that came last at the back.
pub struct Buffer {
    map: LinkedHashMap<u64, TimedItem<u64>>,
}

impl View for Buffer {
    type V = Seq<Entry>;

    /// The entries from the front to the back.
    closed spec fn view(&self) -> Seq<Entry> {
        entries_of(self.map)
    }
}

impl Buffer {
    /// The invariant of a buffer: no key waits twice.
    pub open spec fn wf(&self) -> bool {
        distinct_keys(self@)
    }

    /// A buffer in which nothing waits.
    pub fn new() -> (buffer: Self)
        ensures
            buffer.wf(),
            buffer@ == Seq::<Entry>::empty(),
    {
        Buffer { map: map_new() }
    }

    /// Takes in `value` for `key` at the instant `now`. An entry that waits
    /// for the key is dropped first, so that the new entry stands at the back
    /// with a fresh stamp.
    pub fn upsert(&mut self, key: u64, value: u64, now: u64)
        requires
            old(self).wf(),
        ensures
            final(self).wf(),
            final(self)@ == upsert(old(self)@, key, value, now),
    {
        let ghost before = self@;
        let removed = map_remove(&mut self.map, key);
        proof {
            match removed {
                Some(item) => {
                    let at = choose|i: int|
                        0 <= i < before.len() && #[trigger] before[i] == (key, item) && self@
                            == before.remove(i);
                    lemma_without_present_key(before, key, at);
                },
                None => {
                    lemma_without_absent_key(before, key);
                },
            }
            lemma_without_key_is_clean(before, key);
            assert(self@ == without_key(before, key));
        }
        let ghost cleaned = self@;
        let replaced = map_insert(&mut self.map, key, TimedItem::new(value, now));
        proof {
            if replaced is Some {
                let previous = replaced->0;
                let at = choose|i: int|
                    0 <= i < cleaned.len() && #[trigger] cleaned[i] == (key, previous);
                assert(cleaned[at].0 == key);
            }
            lemma_upsert_keeps_keys_distinct(before, key, value, now);
        }
    }

    /// The entry that has waited longest, if any.
    pub fn peek_front(&self) -> (front: Option<(&u64, &TimedItem<u64>)>)
        ensures
            match front {
                Some((key, item)) => self@.len() > 0 && self@[0] == (*key, *item),
                None => self@.len() == 0,
            },
    {
        map_front(&self.map)
    }

    /// Takes out the entry that has waited longest, if any.
    pub fn pop_front(&mut self) -> (popped: Option<Entry>)
        requires
            old(self).wf(),
        ensures
            final(self).wf(),
            match popped {
                Some(entry) => {
                    &&& old(self)@.len() > 0
                    &&& entry == old(self)@[0]
                    &&& final(self)@ == old(self)@.drop_first()
                },
                None => old(self)@.len() == 0 && final(self)@ == old(self)@,
            },
    {
        let ghost before = self@;
        let popped = map_pop_front(&mut self.map);
        proof {
            if popped is Some {
                assert forall|i: int, j: int| 0 <= i < j < self@.len() implies self@[i].0
                    != self@[j].0 by {
                    assert(before[i + 1].0 != before[j + 1].0);
                }
            }
        }
        popped
    }

    /// Whether nothing waits.
    pub fn is_empty(&self) -> (empty: bool)
        ensures
            empty == (self@.len() == 0),
    {
        map_is_empty(&self.map)
    }
}

} // verus!
