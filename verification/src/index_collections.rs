//! Insertion-ordered maps and sets of integers, kept in the collections of the
//! `indexmap` crate.
//!
//! What such a collection holds is described by [`members`] and [`adjacency`]:
//! the items in the order in which they were first inserted. The functions
//! below are the only ones that touch the collections, and their contracts are
//! taken on trust from the `indexmap` sources.

use indexmap::IndexMap;
use indexmap::IndexSet;
use vstd::prelude::*;

verus! {

#[verifier::external_type_specification]
#[verifier::external_body]
#[verifier::reject_recursive_types(T)]
#[verifier::reject_recursive_types(S)]
pub struct ExIndexSet<T, S>(indexmap::IndexSet<T, S>);

#[verifier::external_type_specification]
#[verifier::external_body]
#[verifier::reject_recursive_types(K)]
#[verifier::reject_recursive_types(V)]
#[verifier::reject_recursive_types(S)]
pub struct ExIndexMap<K, V, S>(indexmap::IndexMap<K, V, S>);

/// The items of a set in insertion order.
pub uninterp spec fn members(set: IndexSet<u64>) -> Seq<u64>;

/// The entries of a map of sets in insertion order of their keys.
pub uninterp spec fn adjacency(map: IndexMap<u64, IndexSet<u64>>) -> Seq<(u64, Seq<u64>)>;

/// The keys of a sequence of entries.
pub open spec fn keys_of(entries: Seq<(u64, Seq<u64>)>) -> Seq<u64> {
    entries.map_values(|entry: (u64, Seq<u64>)| entry.0)
}

/// `IndexSet::new`: a set without items.
#[verifier::external_body]
pub(crate) fn set_new() -> (set: IndexSet<u64>)
    ensures
        members(set) == Seq::<u64>::empty(),
{
    IndexSet::new()
}

/// `IndexSet::insert`: an item that is not in the set becomes its last one;
/// one that is there already leaves the set as it was. The result tells which.
#[verifier::external_body]
pub(crate) fn set_insert(set: &mut IndexSet<u64>, item: u64) -> (inserted: bool)
    ensures
        inserted == !members(*old(set)).contains(item),
        members(*final(set)) == (if members(*old(set)).contains(item) {
            members(*old(set))
        } else {
            members(*old(set)).push(item)
        }),
{
    set.insert(item)
}

/// `IndexSet::contains`: whether the item is in the set.
#[verifier::external_body]
pub(crate) fn set_contains(set: &IndexSet<u64>, item: u64) -> (found: bool)
    ensures
        found == members(*set).contains(item),
{
    set.contains(&item)
}

/// `IndexSet::len`: the number of items.
#[verifier::external_body]
pub(crate) fn set_len(set: &IndexSet<u64>) -> (len: usize)
    ensures
        len == members(*set).len(),
{
    set.len()
}

/// `IndexSet::get_index`: the item at a position of the insertion order, if
/// the position is below the number of items.
#[verifier::external_body]
pub(crate) fn set_get_index(set: &IndexSet<u64>, index: usize) -> (item: Option<u64>)
    ensures
        item == (if index < members(*set).len() {
            Some(members(*set)[index as int])
        } else {
            None
        }),
{
    set.get_index(index).copied()
}

/// `IndexMap::new`: a map without entries.
#[verifier::external_body]
pub(crate) fn map_new() -> (map: IndexMap<u64, IndexSet<u64>>)
    ensures
        adjacency(map) == Seq::<(u64, Seq<u64>)>::empty(),
{
    IndexMap::new()
}

/// `IndexMap::entry` followed by `Entry::or_default`: the set stored for the
/// key. A key that the map lacks is appended with an empty set; other entries
/// stay as they are.
#[verifier::external_body]
pub(crate) fn map_entry_or_default(map: &mut IndexMap<u64, IndexSet<u64>>, key: u64) -> (set:
    &mut IndexSet<u64>)
    ensures
        forall|i: int|
            0 <= i < adjacency(*old(map)).len() && (#[trigger] adjacency(*old(map))[i]).0 == key
                ==> members(*set) == adjacency(*old(map))[i].1 && adjacency(*final(map))
                == adjacency(*old(map)).update(i, (key, members(*final(set)))),
        !keys_of(adjacency(*old(map))).contains(key) ==> members(*set) == Seq::<u64>::empty()
            && adjacency(*final(map)) == adjacency(*old(map)).push((key, members(*final(set)))),
{
    map.entry(key).or_default()
}

/// `IndexMap::len`: the number of entries.
#[verifier::external_body]
pub(crate) fn map_len(map: &IndexMap<u64, IndexSet<u64>>) -> (len: usize)
    ensures
        len == adjacency(*map).len(),
{
    map.len()
}

/// `IndexMap::get_index`: the entry at a position of the insertion order, if
/// the position is below the number of entries.
#[verifier::external_body]
pub(crate) fn map_get_index(map: &IndexMap<u64, IndexSet<u64>>, index: usize) -> (entry: Option<
    (u64, &IndexSet<u64>),
>)
    ensures
        entry is Some <==> index < adjacency(*map).len(),
        entry matches Some((key, set)) ==> adjacency(*map)[index as int] == (key, members(*set)),
{
    map.get_index(index).map(|entry| (*entry.0, entry.1))
}

/// `IndexMap::get`: the set stored for the key, if the map has the key.
#[verifier::external_body]
pub(crate) fn map_get(map: &IndexMap<u64, IndexSet<u64>>, key: u64) -> (set: Option<
    &IndexSet<u64>,
>)
    ensures
        set is Some <==> keys_of(adjacency(*map)).contains(key),
        set matches Some(found) ==> adjacency(*map).contains((key, members(*found))),
{
    map.get(&key)
}

/// `IndexMap::contains_key`: whether the map has the key.
#[verifier::external_body]
pub(crate) fn map_contains_key(map: &IndexMap<u64, IndexSet<u64>>, key: u64) -> (found: bool)
    ensures
        found == keys_of(adjacency(*map)).contains(key),
{
    map.contains_key(&key)
}

} // verus!
