//! Walking the keys of ordered maps.

use std::collections::BTreeMap;

use vstd::prelude::*;

use crate::seq_util::lemma_push_contains;

verus! {

broadcast use vstd::std_specs::btree::group_btree_axioms;

/// Whether numbers are in ascending order, and none occurs twice.
pub open spec fn is_ascending(keys: Seq<u64>) -> bool {
    forall|i: int, j: int| 0 <= i < j < keys.len() ==> keys[i] < keys[j]
}

/// Whether numbers are those of a set in ascending order.
pub open spec fn lists(keys: Seq<u64>, set: Set<u64>) -> bool {
    is_ascending(keys) && forall|key: u64| #[trigger] keys.contains(key) <==> set.contains(key)
}

/// The numbers of a finite set in ascending order.
pub open spec fn ascending(set: Set<u64>) -> Seq<u64> {
    choose|keys: Seq<u64>| lists(keys, set)
}

/// There is one way to list a set in ascending order.
pub proof fn lemma_ascending_unique(a: Seq<u64>, b: Seq<u64>, set: Set<u64>)
    requires
        lists(a, set),
        lists(b, set),
    ensures
        a == b,
    decreases a.len(),
{
    if a.len() == 0 {
        if b.len() > 0 {
            assert(b.contains(b[0]));
            assert(a.contains(b[0]));
        }
        assert(a =~= b);
    } else {
        assert(a.contains(a.last()));
        assert(b.contains(a.last()));
        assert(b.len() > 0);
        assert(b.contains(b.last()));
        assert(a.contains(b.last()));
        let last = a.last();
        assert(last == b.last());
        let rest = set.remove(last);
        lemma_lists_drop_last(a, set);
        lemma_lists_drop_last(b, set);
        lemma_ascending_unique(a.drop_last(), b.drop_last(), rest);
        assert(a =~= a.drop_last().push(last));
        assert(b =~= b.drop_last().push(last));
    }
}

/// A number has its place among others that are in ascending order.
proof fn lemma_placed(keys: Seq<u64>, key: u64) -> (result: Seq<u64>)
    requires
        is_ascending(keys),
        !keys.contains(key),
    ensures
        is_ascending(result),
        forall|k: u64| #[trigger] result.contains(k) <==> keys.contains(k) || k == key,
    decreases keys.len(),
{
    if keys.len() == 0 || keys.last() < key {
        let result = keys.push(key);
        assert forall|k: u64| #[trigger] result.contains(k) <==> keys.contains(k) || k == key by {
            lemma_push_contains(keys, key, k);
        }
        result
    } else {
        let front = keys.drop_last();
        let last = keys.last();
        assert(keys =~= front.push(last));
        assert forall|k: u64| #[trigger] keys.contains(k) <==> front.contains(k) || k == last by {
            lemma_push_contains(front, last, k);
        }
        assert(keys.contains(last));
        let placed = lemma_placed(front, key);
        let result = placed.push(last);
        assert forall|i: int, j: int| 0 <= i < j < result.len() implies result[i] < result[j] by {
            assert(placed.contains(placed[i]));
            if front.contains(placed[i]) {
                let k = choose|k: int| 0 <= k < front.len() && front[k] == placed[i];
                assert(keys[k] < keys[keys.len() - 1]);
            }
        }
        assert forall|k: u64| #[trigger] result.contains(k) <==> keys.contains(k) || k == key by {
            lemma_push_contains(placed, last, k);
            assert(placed.contains(k) <==> front.contains(k) || k == key);
        }
        result
    }
}

/// A finite set can be listed in ascending order.
pub proof fn lemma_ascending_lists(set: Set<u64>)
    requires
        set.finite(),
    ensures
        lists(ascending(set), set),
    decreases set.len(),
{
    if set.is_empty() {
        assert(set =~= Set::<u64>::empty());
        assert(lists(Seq::<u64>::empty(), set));
    } else {
        let key = set.choose();
        let rest = set.remove(key);
        lemma_ascending_lists(rest);
        let keys = ascending(rest);
        assert(keys.contains(key) <==> rest.contains(key));
        let placed = lemma_placed(keys, key);
        assert forall|k: u64| #[trigger] placed.contains(k) <==> set.contains(k) by {
            assert(keys.contains(k) <==> rest.contains(k));
        }
        assert(lists(placed, set));
    }
}

/// There is nothing to list in the empty set.
pub proof fn lemma_ascending_empty()
    ensures
        ascending(Set::empty()) == Seq::<u64>::empty(),
{
    let none = Seq::<u64>::empty();
    assert(lists(none, Set::empty()));
    lemma_ascending_unique(none, ascending(Set::empty()), Set::empty());
}

proof fn lemma_lists_drop_last(keys: Seq<u64>, set: Set<u64>)
    requires
        lists(keys, set),
        keys.len() > 0,
    ensures
        lists(keys.drop_last(), set.remove(keys.last())),
{
    let front = keys.drop_last();
    let rest = set.remove(keys.last());
    assert forall|key: u64| #[trigger] front.contains(key) <==> rest.contains(key) by {
        if front.contains(key) {
            let i = choose|i: int| 0 <= i < front.len() && front[i] == key;
            assert(keys[i] == key);
            assert(keys.contains(key));
        }
        if rest.contains(key) {
            assert(keys.contains(key));
            let i = choose|i: int| 0 <= i < keys.len() && keys[i] == key;
            assert(front[i] == key);
        }
    }
}

/// Adds a number to numbers in ascending order.
fn insert_ascending(keys: &mut Vec<u64>, key: u64)
    requires
        is_ascending(old(keys)@),
        !old(keys)@.contains(key),
    ensures
        is_ascending(final(keys)@),
        final(keys)@.len() == old(keys)@.len() + 1,
        forall|x: u64| #[trigger]
            final(keys)@.contains(x) <==> old(keys)@.contains(x) || x == key,
{
    let ghost before = keys@;
    let mut i: usize = keys.len();
    while i > 0 && keys[i - 1] > key
        invariant
            i <= keys@.len(),
            keys@ == before,
            is_ascending(before),
            forall|j: int| i <= j < before.len() ==> before[j] > key,
        decreases i,
    {
        i -= 1;
    }
    keys.insert(i, key);
    proof {
        let after = keys@;
        assert forall|j: int| 0 <= j < i implies before[j] < key by {
            assert(before.contains(before[i - 1]));
        }
        assert(after =~= before.insert(i as int, key));
        assert forall|x: u64| #[trigger] after.contains(x) <==> before.contains(x) || x == key by {
            if before.contains(x) {
                let at = choose|at: int| 0 <= at < before.len() && before[at] == x;
                assert(after[if at < i { at } else { at + 1 }] == x);
            }
            if x == key {
                assert(after[i as int] == x);
            }
            if after.contains(x) {
                let at = choose|at: int| 0 <= at < after.len() && after[at] == x;
                if at < i {
                    assert(before[at] == x);
                } else if at > i {
                    assert(before[at - 1] == x);
                }
            }
        }
    }
}

/// The keys of a map in ascending order.
pub fn sorted_keys<V>(map: &BTreeMap<u64, V>) -> (keys: Vec<u64>)
    ensures
        keys@ == ascending(map@.dom()),
        lists(keys@, map@.dom()),
{
    let mut keys: Vec<u64> = Vec::new();
    for key in it: map.keys()
        invariant
            it.seq().unref().to_set() == map@.dom(),
            it.seq().no_duplicates(),
            it.seq().len() == map@.dom().len(),
            keys@.len() == it.index(),
            keys@.to_set().subset_of(map@.dom()),
            is_ascending(keys@),
            forall|x: u64| #[trigger]
                keys@.contains(x) <==> it.seq().unref().take(it.index() as int).contains(x),
    {
        proof {
            let all = it.seq().unref();
            let n = it.index() as int;
            assert(all[n] == *key);
            assert(all.take(n + 1) =~= all.take(n).push(*key));
            assert forall|x: u64| #[trigger] all.take(n + 1).contains(x) <==> all.take(
                n,
            ).contains(x) || x == *key by {
                lemma_push_contains(all.take(n), *key, x);
            }
            assert forall|i: int| 0 <= i < n implies all.take(n)[i] != *key by {
                assert(it.seq()[i] != it.seq()[n]);
            }
            assert(all.to_set().contains(*key));
        }
        insert_ascending(&mut keys, *key);
    }
    proof {
        assert forall|i: int, j: int|
            0 <= i < keys@.len() && 0 <= j < keys@.len() && i != j implies keys@[i] != keys@[j] by {
            assert(if i < j {
                keys@[i] < keys@[j]
            } else {
                keys@[j] < keys@[i]
            });
        }
        keys@.unique_seq_to_set();
        vstd::set_lib::lemma_subset_equality(keys@.to_set(), map@.dom());
        assert forall|x: u64| #[trigger] keys@.contains(x) <==> map@.dom().contains(x) by {
            assert(keys@.to_set().contains(x) <==> map@.dom().contains(x));
        }
        assert(lists(keys@, map@.dom()));
        lemma_ascending_unique(keys@, ascending(map@.dom()), map@.dom());
    }
    keys
}

} // verus!
