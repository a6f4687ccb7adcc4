//! Facts about sequences that several modules share.

use vstd::prelude::*;

verus! {

/// The items of `items` without repetitions, each at the place where it first
/// occurs.
pub open spec fn dedup<A>(items: Seq<A>) -> Seq<A>
    decreases items.len(),
{
    if items.len() == 0 {
        items
    } else {
        let front = dedup(items.drop_last());
        if items.drop_last().contains(items.last()) {
            front
        } else {
            front.push(items.last())
        }
    }
}

/// `dedup` keeps the items, and keeps each of them once.
pub proof fn lemma_dedup<A>(items: Seq<A>)
    ensures
        dedup(items).no_duplicates(),
        forall|item: A| #![auto] dedup(items).contains(item) <==> items.contains(item),
        dedup(items).len() <= items.len(),
    decreases items.len(),
{
    if items.len() > 0 {
        let front = items.drop_last();
        lemma_dedup(front);
        assert forall|item: A| #![auto] dedup(items).contains(item) <==> items.contains(item) by {
            if items.contains(item) {
                let i = choose|i: int| 0 <= i < items.len() && items[i] == item;
                if i < items.len() - 1 {
                    assert(front[i] == item);
                    assert(front.contains(item));
                    let j = choose|j: int| 0 <= j < dedup(front).len() && dedup(front)[j] == item;
                    assert(dedup(items)[j] == item);
                } else if !front.contains(item) {
                    assert(dedup(items).last() == item);
                } else {
                    assert(dedup(front).contains(item));
                }
            }
            if dedup(items).contains(item) {
                let j = choose|j: int| 0 <= j < dedup(items).len() && dedup(items)[j] == item;
                if j < dedup(front).len() {
                    assert(dedup(front)[j] == item);
                    assert(front.contains(item));
                    let i = choose|i: int| 0 <= i < front.len() && front[i] == item;
                    assert(items[i] == item);
                } else {
                    assert(items.last() == item);
                }
            }
        }
        assert forall|i: int, j: int|
            0 <= i < dedup(items).len() && 0 <= j < dedup(items).len() && i != j implies dedup(
            items,
        )[i] != dedup(items)[j] by {
            assert(forall|k: int| 0 <= k < dedup(front).len() ==> dedup(front).contains(#[trigger] dedup(front)[k]));
        }
    }
}

/// `dedup` of a longer sequence.
pub proof fn lemma_dedup_push<A>(items: Seq<A>, item: A)
    ensures
        dedup(items.push(item)) == (if dedup(items).contains(item) {
            dedup(items)
        } else {
            dedup(items).push(item)
        }),
{
    lemma_dedup(items);
    assert(items.push(item).drop_last() =~= items);
}

/// The set of a longer sequence.
pub proof fn lemma_push_to_set<A>(items: Seq<A>, item: A)
    ensures
        items.push(item).to_set() == items.to_set().insert(item),
{
    assert forall|x: A| #[trigger] items.push(item).to_set().contains(x) <==> items.to_set().insert(
        item,
    ).contains(x) by {
        if items.contains(x) {
            let i = choose|i: int| 0 <= i < items.len() && items[i] == x;
            assert(items.push(item)[i] == x);
        }
        if x == item {
            assert(items.push(item)[items.len() as int] == x);
        }
        if items.push(item).contains(x) {
            let i = choose|i: int| 0 <= i < items.push(item).len() && items.push(item)[i] == x;
            if i < items.len() {
                assert(items[i] == x);
            }
        }
    }
    assert(items.push(item).to_set() =~= items.to_set().insert(item));
}

/// The set of a concatenation.
pub proof fn lemma_concat_to_set<A>(a: Seq<A>, b: Seq<A>)
    ensures
        (a + b).to_set() == a.to_set().union(b.to_set()),
{
    assert forall|x: A| #[trigger] (a + b).to_set().contains(x) <==> a.to_set().union(
        b.to_set(),
    ).contains(x) by {
        if a.contains(x) {
            let i = choose|i: int| 0 <= i < a.len() && a[i] == x;
            assert((a + b)[i] == x);
        }
        if b.contains(x) {
            let i = choose|i: int| 0 <= i < b.len() && b[i] == x;
            assert((a + b)[a.len() + i] == x);
        }
        if (a + b).contains(x) {
            let i = choose|i: int| 0 <= i < (a + b).len() && (a + b)[i] == x;
            if i < a.len() {
                assert(a[i] == x);
            } else {
                assert(b[i - a.len()] == x);
            }
        }
    }
    assert((a + b).to_set() =~= a.to_set().union(b.to_set()));
}

/// What a longer sequence contains.
pub proof fn lemma_push_contains<A>(items: Seq<A>, item: A, x: A)
    ensures
        items.push(item).contains(x) <==> items.contains(x) || x == item,
{
    if items.contains(x) {
        let i = choose|i: int| 0 <= i < items.len() && items[i] == x;
        assert(items.push(item)[i] == x);
    }
    if x == item {
        assert(items.push(item)[items.len() as int] == x);
    }
    if items.push(item).contains(x) {
        let i = choose|i: int| 0 <= i < items.push(item).len() && items.push(item)[i] == x;
        if i < items.len() {
            assert(items[i] == x);
        }
    }
}

/// What two lists hold together is what either holds.
pub proof fn lemma_concat_contains<A>(a: Seq<A>, b: Seq<A>, x: A)
    ensures
        (a + b).contains(x) <==> a.contains(x) || b.contains(x),
{
    lemma_concat_to_set(a, b);
    assert((a + b).to_set().contains(x) <==> a.to_set().union(b.to_set()).contains(x));
}

/// What is between separators, in order.
pub open spec fn split_on<A>(items: Seq<A>, separator: A) -> Seq<Seq<A>>
    decreases items.len(),
{
    if items.len() == 0 {
        seq![Seq::empty()]
    } else {
        let front = split_on(items.drop_last(), separator);
        if items.last() == separator {
            front.push(Seq::empty())
        } else {
            front.drop_last().push(front.last().push(items.last()))
        }
    }
}

/// The pieces with a separator between each and the next.
pub open spec fn join_with<A>(pieces: Seq<Seq<A>>, separator: Seq<A>) -> Seq<A>
    decreases pieces.len(),
{
    if pieces.len() == 0 {
        Seq::empty()
    } else if pieces.len() == 1 {
        pieces[0]
    } else {
        join_with(pieces.drop_last(), separator) + separator + pieces.last()
    }
}

proof fn lemma_split_on_len<A>(items: Seq<A>, separator: A)
    ensures
        split_on(items, separator).len() > 0,
    decreases items.len(),
{
    if items.len() > 0 {
        lemma_split_on_len(items.drop_last(), separator);
    }
}

/// What is split at separators is put together again with the separators, and
/// no piece holds a separator.
pub proof fn lemma_split_then_join<A>(items: Seq<A>, separator: A)
    ensures
        join_with(split_on(items, separator), seq![separator]) == items,
        forall|i: int|
            0 <= i < split_on(items, separator).len() ==> !(
            #[trigger] split_on(items, separator)[i]).contains(separator),
    decreases items.len(),
{
    let pieces = split_on(items, separator);
    let sep = seq![separator];
    if items.len() == 0 {
        assert(pieces[0] =~= items);
    } else {
        let front = split_on(items.drop_last(), separator);
        lemma_split_then_join(items.drop_last(), separator);
        lemma_split_on_len(items.drop_last(), separator);
        if items.last() == separator {
            assert(pieces.drop_last() =~= front);
            assert(join_with(pieces, sep) =~= items);
            assert forall|i: int| 0 <= i < pieces.len() implies !(
            #[trigger] pieces[i]).contains(separator) by {
                if i < front.len() {
                    assert(pieces[i] == front[i]);
                }
            }
        } else {
            assert(pieces.drop_last() =~= front.drop_last());
            assert(join_with(pieces, sep) =~= join_with(front, sep).push(items.last()));
            assert(items =~= items.drop_last().push(items.last()));
            assert forall|i: int| 0 <= i < pieces.len() implies !(
            #[trigger] pieces[i]).contains(separator) by {
                if i < front.len() - 1 {
                    assert(pieces[i] == front[i]);
                } else {
                    let last = front[front.len() - 1];
                    assert(pieces[i] == last.push(items.last()));
                    assert(!last.contains(separator));
                    assert forall|k: int| 0 <= k < pieces[i].len() implies pieces[i][k]
                        != separator by {
                        if k < last.len() {
                            assert(last.contains(last[k]));
                        }
                    }
                }
            }
        }
    }
}

} // verus!
