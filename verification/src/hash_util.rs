//! Walking the keys of hash maps.

use std::collections::HashMap;

use vstd::prelude::*;

use crate::seq_util::lemma_push_to_set;

verus! {

broadcast use vstd::std_specs::hash::group_hash_axioms;

/// The keys of a map, in no particular order.
pub fn map_keys<V>(map: &HashMap<u64, V>) -> (keys: Vec<u64>)
    ensures
        keys@.no_duplicates(),
        forall|key: u64| #[trigger] keys@.contains(key) <==> map@.contains_key(key),
{
    let mut keys: Vec<u64> = Vec::new();
    for key in it: map.keys()
        invariant
            it.seq().unref().to_set() == map@.dom(),
            it.seq().no_duplicates(),
            it.seq().len() == map@.dom().len(),
            keys@ == it.seq().unref().take(it.index() as int),
            keys@.to_set().subset_of(map@.dom()),
            keys@.no_duplicates(),
            keys@.len() == it.index(),
    {
        let ghost before = keys@;
        keys.push(*key);
        proof {
            let all = it.seq().unref();
            assert(keys@ =~= all.take(it.index() + 1));
            assert(all[it.index() as int] == *key);
            assert(all.to_set().contains(*key));
            lemma_push_to_set(before, *key);
            assert forall|i: int, j: int|
                0 <= i < keys@.len() && 0 <= j < keys@.len() && i != j implies keys@[i]
                != keys@[j] by {
                assert(it.seq()[i] != it.seq()[j]);
            }
        }
    }
    proof {
        keys@.unique_seq_to_set();
        vstd::set_lib::lemma_subset_equality(keys@.to_set(), map@.dom());
        assert forall|key: u64| #[trigger] keys@.contains(key) <==> map@.contains_key(key) by {
            assert(keys@.to_set().contains(key) <==> map@.dom().contains(key));
        }
    }
    keys
}

} // verus!
