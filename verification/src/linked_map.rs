//! What this crate takes on trust about `linked_hash_map::LinkedHashMap`.
//!
//! The map keeps its entries in the order in which their keys were last put
//! in: the front is the entry that has waited longest, the back the newest.
//! Nothing here is proved; each contract restates what the map's source does.

use crate::timed_item::TimedItem;
use linked_hash_map::LinkedHashMap;
use vstd::prelude::*;

verus! {

/// `linked_hash_map::LinkedHashMap`, as a type whose inside the verifier does
/// not see.
#[verifier::external_type_specification]
#[verifier::external_body]
#[verifier::reject_recursive_types(K)]
#[verifier::reject_recursive_types(V)]
#[verifier::reject_recursive_types(S)]
pub struct ExLinkedHashMap<K, V, S>(LinkedHashMap<K, V, S>);

/// The entries that a map holds, from the front (index 0) to the back.
pub uninterp spec fn entries_of(map: LinkedHashMap<u64, TimedItem<u64>>) -> Seq<(u64, TimedItem<u64>)>;

/// `LinkedHashMap::new`: the map that comes back holds no entry.
#[verifier::external_body]
pub(crate) fn map_new() -> (map: LinkedHashMap<u64, TimedItem<u64>>)
    ensures
        entries_of(map) == Seq::<(u64, TimedItem<u64>)>::empty(),
{
    LinkedHashMap::new()
}

/// `LinkedHashMap::insert`: where no entry has the key, the new entry joins
/// at the back and `None` comes back; where one has it, that entry leaves its
/// place, the new one joins at the back, and the old item comes back.
#[verifier::external_body]
pub(crate) fn map_insert(
    map: &mut LinkedHashMap<u64, TimedItem<u64>>,
    key: u64,
    item: TimedItem<u64>,
) -> (replaced: Option<TimedItem<u64>>)
    ensures
        match replaced {
            Some(previous) => exists|i: int|
                0 <= i < entries_of(*old(map)).len()
                && #[trigger] entries_of(*old(map))[i] == (key, previous)
                && entries_of(*final(map)) == entries_of(*old(map)).remove(i).push((key, item)),
            None => {
                &&& forall|i: int|
                    0 <= i < entries_of(*old(map)).len() ==> (#[trigger] entries_of(*old(map))[i]).0 != key
                &&& entries_of(*final(map)) == entries_of(*old(map)).push((key, item))
            },
        },
{
    map.insert(key, item)
}

/// `LinkedHashMap::remove`: where an entry has the key, it leaves the map,
/// the others keep their order, and its item comes back; where none has it,
/// the map stays as it is and `None` comes back.
#[verifier::external_body]
pub(crate) fn map_remove(map: &mut LinkedHashMap<u64, TimedItem<u64>>, key: u64) -> (removed: Option<
    TimedItem<u64>,
>)
    ensures
        match removed {
            Some(item) => exists|i: int|
                0 <= i < entries_of(*old(map)).len()
                && #[trigger] entries_of(*old(map))[i] == (key, item)
                && entries_of(*final(map)) == entries_of(*old(map)).remove(i),
            None => {
                &&& forall|i: int|
                    0 <= i < entries_of(*old(map)).len() ==> (#[trigger] entries_of(*old(map))[i]).0 != key
                &&& entries_of(*final(map)) == entries_of(*old(map))
            },
        },
{
    map.remove(&key)
}

/// `LinkedHashMap::front`: the entry at the front, or `None` for an empty map.
#[verifier::external_body]
pub(crate) fn map_front(map: &LinkedHashMap<u64, TimedItem<u64>>) -> (front: Option<
    (&u64, &TimedItem<u64>),
>)
    ensures
        match front {
            Some((key, item)) => entries_of(*map).len() > 0 && entries_of(*map)[0] == (*key, *item),
            None => entries_of(*map).len() == 0,
        },
{
    map.front()
}

/// `LinkedHashMap::pop_front`: the entry at the front leaves the map and comes
/// back, the others keep their order; an empty map stays empty and gives `None`.
#[verifier::external_body]
pub(crate) fn map_pop_front(map: &mut LinkedHashMap<u64, TimedItem<u64>>) -> (popped: Option<
    (u64, TimedItem<u64>),
>)
    ensures
        match popped {
            Some(entry) => {
                &&& entries_of(*old(map)).len() > 0
                &&& entry == entries_of(*old(map))[0]
                &&& entries_of(*final(map)) == entries_of(*old(map)).drop_first()
            },
            None => entries_of(*old(map)).len() == 0 && entries_of(*final(map)) == entries_of(*old(map)),
        },
{
    map.pop_front()
}

/// `LinkedHashMap::is_empty`: whether the map holds no entry.
#[verifier::external_body]
pub(crate) fn map_is_empty(map: &LinkedHashMap<u64, TimedItem<u64>>) -> (empty: bool)
    ensures
        empty == (entries_of(*map).len() == 0),
{
    map.is_empty()
}

} // verus!
