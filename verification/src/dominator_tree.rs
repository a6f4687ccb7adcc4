//! Immediate dominators of a graph whose nodes are numbered in postorder, by
//! the iterative algorithm of Cooper, Harvey and Kennedy.
//!
//! The graph is given by the predecessors of each node. The start node has the
//! highest number, and every other node has a predecessor with a number higher
//! than its own, as in any postorder numbering.

use vstd::prelude::*;

use crate::dominance::dominates;
use crate::dominance::edge_at;
use crate::dominance::is_immediate_dominator;
use crate::dominance::is_path;
use crate::dominance::lemma_dominates_reflexive;
use crate::dominance::lemma_dominates_transitive;
use crate::dominance::lemma_path_prefix;
use crate::dominance::lemma_path_push;
use crate::dominance::lemma_path_single;
use crate::dominance::lemma_simple_path;
use crate::dominance::lemma_strict_dominator_of_predecessor;
use crate::dominance::strictly_dominates;

verus! {

/// The edges of the graph with the given predecessor lists.
pub open spec fn id_edges(preds: Seq<Vec<usize>>) -> Set<(usize, usize)> {
    Set::new(|e: (usize, usize)| e.1 < preds.len() && preds[e.1 as int]@.contains(e.0))
}

/// The number of the start node.
pub open spec fn start_id(preds: Seq<Vec<usize>>) -> usize {
    (preds.len() - 1) as usize
}

/// Whether `higher` is a predecessor of `node` with a higher number.
pub open spec fn higher_pred(preds: Seq<Vec<usize>>, node: int, higher: usize) -> bool {
    higher > node && preds[node]@.contains(higher)
}

/// Whether `node` has a predecessor with a higher number.
pub open spec fn has_higher_pred(preds: Seq<Vec<usize>>, node: int) -> bool {
    exists|p: usize| #[trigger] higher_pred(preds, node, p)
}

/// Whether the nodes are numbered as a postorder numbers them.
pub open spec fn postorder_numbered(preds: Seq<Vec<usize>>) -> bool {
    &&& 0 < preds.len() <= usize::MAX
    &&& forall|u: int, i: int|
        0 <= u < preds.len() && 0 <= i < preds[u]@.len() ==> (#[trigger] preds[u]@[i])
            < preds.len()
    &&& forall|u: int| 0 <= u < preds.len() - 1 ==> #[trigger] has_higher_pred(preds, u)
}

/// Whether a table of dominators has an entry for `node` already.
pub open spec fn processed(idoms: Seq<usize>, node: int) -> bool {
    idoms[node] != usize::MAX
}

/// Whether a table of dominators describes a tree: the last node is its own
/// entry, and every other node has none yet or a processed node with a higher
/// number.
pub open spec fn is_forest(idoms: Seq<usize>) -> bool {
    &&& 0 < idoms.len() <= usize::MAX
    &&& idoms.last() == idoms.len() - 1
    &&& forall|u: int|
        0 <= u < idoms.len() - 1 && processed(idoms, u) ==> u < (#[trigger] idoms[u])
            < idoms.len() && processed(idoms, idoms[u] as int)
}

/// Whether `anc` is `node` or one of its ancestors in the tree.
pub open spec fn is_ancestor(idoms: Seq<usize>, anc: int, node: int) -> bool
    decreases idoms.len() - node,
{
    anc == node || {
        &&& 0 <= node < idoms.len() - 1
        &&& node < idoms[node] < idoms.len()
        &&& is_ancestor(idoms, anc, idoms[node] as int)
    }
}

/// Whether `anc` is the lowest common ancestor of `a` and `b`.
pub open spec fn is_lowest_common_ancestor(
    idoms: Seq<usize>,
    anc: int,
    a: int,
    b: int,
) -> bool {
    &&& is_ancestor(idoms, anc, a)
    &&& is_ancestor(idoms, anc, b)
    &&& forall|c: int| #[trigger]
        is_ancestor(idoms, c, a) && #[trigger] is_ancestor(idoms, c, b) ==> is_ancestor(
            idoms,
            c,
            anc,
        )
}

proof fn lemma_ancestor_bounds(idoms: Seq<usize>, anc: int, node: int)
    requires
        is_forest(idoms),
        is_ancestor(idoms, anc, node),
        0 <= node < idoms.len(),
        processed(idoms, node),
    ensures
        node <= anc < idoms.len(),
        processed(idoms, anc),
    decreases idoms.len() - node,
{
    if anc != node {
        lemma_ancestor_bounds(idoms, anc, idoms[node] as int);
    }
}

proof fn lemma_ancestor_transitive(idoms: Seq<usize>, a: int, b: int, c: int)
    requires
        is_ancestor(idoms, a, b),
        is_ancestor(idoms, b, c),
    ensures
        is_ancestor(idoms, a, c),
    decreases idoms.len() - c,
{
    if b != c {
        lemma_ancestor_transitive(idoms, a, b, idoms[c] as int);
    }
}

proof fn lemma_root_is_ancestor(idoms: Seq<usize>, node: int)
    requires
        is_forest(idoms),
        0 <= node < idoms.len(),
        processed(idoms, node),
    ensures
        is_ancestor(idoms, idoms.len() - 1, node),
    decreases idoms.len() - node,
{
    if node < idoms.len() - 1 {
        lemma_root_is_ancestor(idoms, idoms[node] as int);
    }
}

/// Every node can be reached from the start node through nodes with higher
/// numbers only.
pub proof fn lemma_descending_path(preds: Seq<Vec<usize>>, node: usize) -> (path: Seq<usize>)
    requires
        postorder_numbered(preds),
        node < preds.len(),
    ensures
        is_path(id_edges(preds), start_id(preds), path, node),
        forall|i: int| 0 <= i < path.len() ==> node <= (#[trigger] path[i]) < preds.len(),
    decreases preds.len() - node,
{
    if node == preds.len() - 1 {
        lemma_path_single(id_edges(preds), node);
        seq![node]
    } else {
        assert(has_higher_pred(preds, node as int));
        let p = choose|p: usize| #[trigger] higher_pred(preds, node as int, p);
        assert(p < preds.len()) by {
            let i = choose|i: int| 0 <= i < preds[node as int]@.len() && preds[node as int]@[i] == p;
            assert(preds[node as int]@[i] < preds.len());
        }
        let path = lemma_descending_path(preds, p);
        lemma_path_push(id_edges(preds), start_id(preds), path, p, node);
        path.push(node)
    }
}

/// A dominator never has a lower number than the node that it dominates.
pub proof fn lemma_dominator_is_higher(preds: Seq<Vec<usize>>, dom: usize, node: usize)
    requires
        postorder_numbered(preds),
        node < preds.len(),
        dominates(id_edges(preds), start_id(preds), dom, node),
    ensures
        node <= dom < preds.len(),
{
    let path = lemma_descending_path(preds, node);
    let i = choose|i: int| 0 <= i < path.len() && path[i] == dom;
    assert(node <= path[i]);
}

/// Whether the strict dominators of every processed node dominate the node's
/// entry. The iteration keeps this from the beginning.
spec fn keeps_dominators(preds: Seq<Vec<usize>>, idoms: Seq<usize>) -> bool {
    forall|u: usize, d: usize|
        u < preds.len() - 1 && processed(idoms, u as int) && #[trigger] strictly_dominates(
            id_edges(preds),
            start_id(preds),
            d,
            u,
        ) ==> dominates(id_edges(preds), start_id(preds), d, idoms[u as int])
}

/// A dominator of a node dominates each ancestor of the node up to its own
/// place in the tree.
proof fn lemma_dominator_and_ancestor(
    preds: Seq<Vec<usize>>,
    idoms: Seq<usize>,
    d: usize,
    anc: usize,
    node: usize,
)
    requires
        postorder_numbered(preds),
        is_forest(idoms),
        idoms.len() == preds.len(),
        keeps_dominators(preds, idoms),
        node < preds.len(),
        processed(idoms, node as int),
        dominates(id_edges(preds), start_id(preds), d, node),
        is_ancestor(idoms, anc as int, node as int),
    ensures
        anc > d || dominates(id_edges(preds), start_id(preds), d, anc),
    decreases preds.len() - node,
{
    if anc != node {
        let up = idoms[node as int];
        lemma_ancestor_bounds(idoms, anc as int, up as int);
        if d != node {
            assert(strictly_dominates(id_edges(preds), start_id(preds), d, node));
            lemma_dominator_and_ancestor(preds, idoms, d, anc, up);
        }
    }
}

/// The dominators of a node are ancestors of the node.
proof fn lemma_dominator_is_ancestor(
    preds: Seq<Vec<usize>>,
    idoms: Seq<usize>,
    d: usize,
    node: usize,
)
    requires
        postorder_numbered(preds),
        is_forest(idoms),
        idoms.len() == preds.len(),
        keeps_dominators(preds, idoms),
        node < preds.len(),
        processed(idoms, node as int),
        dominates(id_edges(preds), start_id(preds), d, node),
    ensures
        is_ancestor(idoms, d as int, node as int),
    decreases preds.len() - node,
{
    lemma_dominator_is_higher(preds, d, node);
    if d != node {
        assert(strictly_dominates(id_edges(preds), start_id(preds), d, node));
        lemma_dominator_is_ancestor(preds, idoms, d, idoms[node as int]);
    }
}

/// The number of edges of a path that do not lead to a lower number.
spec fn retreats(path: Seq<usize>) -> nat
    decreases path.len(),
{
    if path.len() <= 1 {
        0
    } else {
        retreats(path.drop_last()) + (if path[path.len() - 2] <= path.last() {
            1nat
        } else {
            0nat
        })
    }
}

proof fn lemma_retreats_prefix(path: Seq<usize>, len: int)
    requires
        0 <= len <= path.len(),
    ensures
        retreats(path.take(len)) <= retreats(path),
    decreases path.len(),
{
    if len < path.len() {
        lemma_retreats_prefix(path.drop_last(), len);
        assert(path.drop_last().take(len) =~= path.take(len));
    } else {
        assert(path.take(len) =~= path);
    }
}

proof fn lemma_retreats_bound(path: Seq<usize>)
    ensures
        path.len() > 0 ==> retreats(path) < path.len(),
    decreases path.len(),
{
    if path.len() > 1 {
        lemma_retreats_bound(path.drop_last());
    }
}

/// Whether `dom` lies on every path to `node` with at most `k` retreating
/// edges.
spec fn k_dominates(preds: Seq<Vec<usize>>, k: nat, dom: usize, node: usize) -> bool {
    forall|path: Seq<usize>| #[trigger]
        is_path(id_edges(preds), start_id(preds), path, node) && retreats(path) <= k
            ==> path.contains(dom)
}

proof fn lemma_k_dominates_weaken(preds: Seq<Vec<usize>>, k: nat, j: nat, dom: usize, node: usize)
    requires
        k_dominates(preds, k, dom, node),
        j <= k,
    ensures
        k_dominates(preds, j, dom, node),
{
}

/// Whether the entries of the nodes from `low` on lie on every path with at
/// most `k` retreating edges.
spec fn covers(preds: Seq<Vec<usize>>, idoms: Seq<usize>, k: nat, low: int) -> bool {
    forall|u: usize|
        low <= u < preds.len() - 1 && processed(idoms, u as int) ==> #[trigger] k_dominates(
            preds,
            k,
            idoms[u as int],
            u,
        )
}

/// Ancestors lie on the paths that the entries on the way to them lie on.
proof fn lemma_ancestor_k_dominates(
    preds: Seq<Vec<usize>>,
    idoms: Seq<usize>,
    k: nat,
    low: int,
    anc: usize,
    node: usize,
)
    requires
        is_forest(idoms),
        idoms.len() == preds.len(),
        low <= node < preds.len(),
        processed(idoms, node as int),
        covers(preds, idoms, k, low),
        is_ancestor(idoms, anc as int, node as int),
    ensures
        k_dominates(preds, k, anc, node),
    decreases preds.len() - node,
{
    assert forall|path: Seq<usize>| #[trigger]
        is_path(id_edges(preds), start_id(preds), path, node) && retreats(path)
            <= k implies path.contains(anc) by {
        if anc == node {
            assert(path[path.len() - 1] == node);
        } else {
            let up = idoms[node as int];
            assert(k_dominates(preds, k, up, node));
            let i = choose|i: int| 0 <= i < path.len() && path[i] == up;
            lemma_path_prefix(id_edges(preds), start_id(preds), path, node, i);
            lemma_retreats_prefix(path, i + 1);
            lemma_ancestor_k_dominates(preds, idoms, k, low, anc, up);
            let prefix = path.take(i + 1);
            let j = choose|j: int| 0 <= j < prefix.len() && prefix[j] == anc;
            assert(path[j] == anc);
        }
    }
}

/// A path without repeated nodes is no longer than the graph is large.
proof fn lemma_simple_path_len(preds: Seq<Vec<usize>>, path: Seq<usize>, end: usize)
    requires
        postorder_numbered(preds),
        is_path(id_edges(preds), start_id(preds), path, end),
        path.no_duplicates(),
    ensures
        path.len() <= preds.len(),
{
    assert forall|i: int| 0 <= i < path.len() implies (#[trigger] path[i]) < preds.len() by {
        if i > 0 {
            assert(edge_at(id_edges(preds), path, i - 1));
        }
    }
    let ints = path.map_values(|x: usize| x as int);
    assert(ints.no_duplicates());
    assert(ints.to_set().subset_of(vstd::set_lib::set_int_range(0, preds.len() as int))) by {
        assert forall|x: int| ints.to_set().contains(x) implies vstd::set_lib::set_int_range(
            0,
            preds.len() as int,
        ).contains(x) by {
            let i = choose|i: int| 0 <= i < ints.len() && ints[i] == x;
            assert(path[i] < preds.len());
        }
    }
    vstd::set_lib::lemma_int_range(0, preds.len() as int);
    ints.unique_seq_to_set();
    vstd::set_lib::lemma_len_subset(
        ints.to_set(),
        vstd::set_lib::set_int_range(0, preds.len() as int),
    );
}

/// Paths with as many retreating edges as the graph has nodes tell all about
/// dominance.
proof fn lemma_k_dominates_all(preds: Seq<Vec<usize>>, k: nat, dom: usize, node: usize)
    requires
        postorder_numbered(preds),
        k >= preds.len(),
        k_dominates(preds, k, dom, node),
    ensures
        dominates(id_edges(preds), start_id(preds), dom, node),
{
    assert forall|path: Seq<usize>| #[trigger]
        is_path(id_edges(preds), start_id(preds), path, node) implies path.contains(dom) by {
        let simple = lemma_simple_path(id_edges(preds), start_id(preds), path, node);
        lemma_simple_path_len(preds, simple, node);
        lemma_retreats_bound(simple);
        assert(simple.contains(dom));
    }
}

/// Whether `dom` is an ancestor of each of the first `len` predecessors of
/// `node` that are processed.
spec fn above_preds(
    preds: Seq<Vec<usize>>,
    idoms: Seq<usize>,
    dom: int,
    node: int,
    len: int,
) -> bool {
    forall|i: int|
        0 <= i < len && processed(idoms, (#[trigger] preds[node]@[i]) as int) ==> is_ancestor(
            idoms,
            dom,
            preds[node]@[i] as int,
        )
}

/// Whether `dom` is the lowest common ancestor of the processed ones among the
/// first `len` predecessors of `node`.
spec fn meets_preds(
    preds: Seq<Vec<usize>>,
    idoms: Seq<usize>,
    dom: int,
    node: int,
    len: int,
) -> bool {
    &&& above_preds(preds, idoms, dom, node, len)
    &&& forall|c: int| #[trigger]
        above_preds(preds, idoms, c, node, len) ==> is_ancestor(idoms, c, dom)
}

/// The lowest common ancestor of all processed predecessors of a node is again
/// dominated by all strict dominators of the node.
proof fn lemma_meet_keeps_dominators(
    preds: Seq<Vec<usize>>,
    idoms: Seq<usize>,
    new_idom: usize,
    node: usize,
    d: usize,
    witness: int,
)
    requires
        postorder_numbered(preds),
        is_forest(idoms),
        idoms.len() == preds.len(),
        keeps_dominators(preds, idoms),
        node < preds.len() - 1,
        new_idom < preds.len(),
        processed(idoms, new_idom as int),
        meets_preds(preds, idoms, new_idom as int, node as int, preds[node as int]@.len() as int),
        0 <= witness < preds[node as int]@.len(),
        processed(idoms, preds[node as int]@[witness] as int),
        strictly_dominates(id_edges(preds), start_id(preds), d, node),
    ensures
        dominates(id_edges(preds), start_id(preds), d, new_idom),
{
    let list = preds[node as int]@;
    assert forall|i: int|
        0 <= i < list.len() && processed(idoms, (#[trigger] preds[node as int]@[i]) as int) implies is_ancestor(
        idoms,
        d as int,
        preds[node as int]@[i] as int,
    ) by {
        let p = preds[node as int]@[i];
        assert(list.contains(p));
        lemma_strict_dominator_of_predecessor(id_edges(preds), start_id(preds), d, p, node);
        lemma_dominator_is_ancestor(preds, idoms, d, p);
    }
    assert(above_preds(preds, idoms, d as int, node as int, list.len() as int));
    assert(is_ancestor(idoms, d as int, new_idom as int));
    lemma_ancestor_bounds(idoms, d as int, new_idom as int);
    let p = list[witness];
    assert(list.contains(p));
    assert(preds[node as int]@[witness] == p);
    lemma_strict_dominator_of_predecessor(id_edges(preds), start_id(preds), d, p, node);
    lemma_dominator_and_ancestor(preds, idoms, d, new_idom, p);
}

/// Processing a node lets its entry cover the paths with one more retreating
/// edge than before.
proof fn lemma_meet_covers(
    preds: Seq<Vec<usize>>,
    idoms: Seq<usize>,
    k: nat,
    new_idom: usize,
    node: usize,
)
    requires
        postorder_numbered(preds),
        is_forest(idoms),
        idoms.len() == preds.len(),
        node < preds.len() - 1,
        forall|u: int| node < u < preds.len() ==> #[trigger] processed(idoms, u),
        k > 0 ==> forall|u: int| 0 <= u < preds.len() ==> #[trigger] processed(idoms, u),
        covers(preds, idoms, k, node + 1),
        k > 0 ==> covers(preds, idoms, (k - 1) as nat, 0),
        above_preds(preds, idoms, new_idom as int, node as int, preds[node as int]@.len() as int),
    ensures
        k_dominates(preds, k, new_idom, node),
{
    let edges = id_edges(preds);
    let start = start_id(preds);
    assert forall|path: Seq<usize>| #[trigger]
        is_path(edges, start, path, node) && retreats(path) <= k implies path.contains(
        new_idom,
    ) by {
        assert(path.len() > 1);
        let front = path.drop_last();
        assert(edge_at(edges, path, path.len() - 2));
        let p = front.last();
        lemma_path_prefix(edges, start, path, node, path.len() - 2);
        assert(path.take(path.len() - 1) =~= front);
        let i = choose|i: int| 0 <= i < preds[node as int]@.len() && preds[node as int]@[i] == p;
        assert(preds[node as int]@[i] < preds.len());
        if p > node {
            assert(processed(idoms, p as int));
            lemma_ancestor_k_dominates(preds, idoms, k, node + 1, new_idom, p);
        } else {
            assert(processed(idoms, p as int));
            lemma_ancestor_k_dominates(preds, idoms, (k - 1) as nat, 0, new_idom, p);
        }
        let j = choose|j: int| 0 <= j < front.len() && front[j] == new_idom;
        assert(path[j] == new_idom);
    }
}

/// Whether the entry of `node` is an ancestor of all its predecessors.
spec fn is_settled(preds: Seq<Vec<usize>>, idoms: Seq<usize>, node: int) -> bool {
    forall|i: int|
        0 <= i < preds[node]@.len() ==> processed(idoms, (#[trigger] preds[node]@[i]) as int)
            && is_ancestor(idoms, idoms[node] as int, preds[node]@[i] as int)
}

/// If all nodes are settled, then ancestors dominate.
proof fn lemma_settled_dominates(
    preds: Seq<Vec<usize>>,
    idoms: Seq<usize>,
    path: Seq<usize>,
    anc: usize,
    node: usize,
)
    requires
        postorder_numbered(preds),
        is_forest(idoms),
        idoms.len() == preds.len(),
        forall|u: int| 0 <= u < preds.len() - 1 ==> #[trigger] is_settled(preds, idoms, u),
        node < preds.len(),
        is_ancestor(idoms, anc as int, node as int),
        is_path(id_edges(preds), start_id(preds), path, node),
    ensures
        path.contains(anc),
    decreases path.len(),
{
    if anc == node {
        assert(path[path.len() - 1] == node);
    } else {
        let edges = id_edges(preds);
        assert(path.len() > 1);
        let front = path.drop_last();
        assert(edge_at(edges, path, path.len() - 2));
        let p = front.last();
        lemma_path_prefix(edges, start_id(preds), path, node, path.len() - 2);
        assert(path.take(path.len() - 1) =~= front);
        assert(is_settled(preds, idoms, node as int));
        let i = choose|i: int| 0 <= i < preds[node as int]@.len() && preds[node as int]@[i] == p;
        assert(preds[node as int]@[i] < preds.len());
        assert(is_ancestor(idoms, idoms[node as int] as int, p as int));
        lemma_ancestor_transitive(idoms, anc as int, idoms[node as int] as int, p as int);
        lemma_settled_dominates(preds, idoms, front, anc, p);
        let j = choose|j: int| 0 <= j < front.len() && front[j] == anc;
        assert(path[j] == anc);
    }
}

/// Whether `anc` is an ancestor of all of `nodes`.
pub open spec fn is_common_ancestor(idoms: Seq<usize>, anc: int, nodes: Seq<usize>) -> bool {
    forall|i: int| 0 <= i < nodes.len() ==> is_ancestor(idoms, anc, #[trigger] nodes[i] as int)
}

/// Whether a table holds the immediate dominator of every node, and the start
/// node for itself.
pub open spec fn is_dominator_tree(preds: Seq<Vec<usize>>, idoms: Seq<usize>) -> bool {
    &&& idoms.len() == preds.len()
    &&& is_forest(idoms)
    &&& forall|u: usize|
        u < preds.len() - 1 ==> #[trigger] is_immediate_dominator(
            id_edges(preds),
            start_id(preds),
            idoms[u as int],
            u,
        )
}

/// In a dominator tree the ancestors of a node are its dominators.
pub proof fn lemma_ancestors_are_dominators(
    preds: Seq<Vec<usize>>,
    idoms: Seq<usize>,
    anc: usize,
    node: usize,
)
    requires
        postorder_numbered(preds),
        is_dominator_tree(preds, idoms),
        node < preds.len(),
    ensures
        is_ancestor(idoms, anc as int, node as int) <==> dominates(
            id_edges(preds),
            start_id(preds),
            anc,
            node,
        ),
    decreases preds.len() - node,
{
    let edges = id_edges(preds);
    let start = start_id(preds);
    if anc == node {
        lemma_dominates_reflexive(edges, start, node);
    } else if node == preds.len() - 1 {
        if dominates(edges, start, anc, node) {
            lemma_dominator_is_higher(preds, anc, node);
        }
    } else {
        assert(is_immediate_dominator(edges, start, idoms[node as int], node));
        let up = idoms[node as int];
        lemma_dominator_is_higher(preds, up, node);
        lemma_ancestors_are_dominators(preds, idoms, anc, up);
        if is_ancestor(idoms, anc as int, node as int) {
            lemma_dominates_transitive(edges, start, anc, up, node);
        }
        if dominates(edges, start, anc, node) {
            assert(strictly_dominates(edges, start, anc, node));
        }
    }
}

/// Finds the lowest common ancestor of two nodes: the node with the lower
/// number is replaced by its parent until both are the same.
pub fn intersect(b1: usize, b2: usize, immediate_dominators: &[usize]) -> (common: usize)
    requires
        is_forest(immediate_dominators@),
        b1 < immediate_dominators@.len(),
        b2 < immediate_dominators@.len(),
        processed(immediate_dominators@, b1 as int),
        processed(immediate_dominators@, b2 as int),
    ensures
        is_lowest_common_ancestor(
            immediate_dominators@,
            common as int,
            b1 as int,
            b2 as int,
        ),
        common < immediate_dominators@.len(),
        processed(immediate_dominators@, common as int),
{
    let ghost idoms = immediate_dominators@;
    let ghost n = idoms.len();
    let mut x: usize = b1;
    let mut y: usize = b2;
    while x != y
        invariant
            idoms == immediate_dominators@,
            n == idoms.len(),
            is_forest(idoms),
            x < n,
            y < n,
            processed(idoms, x as int),
            processed(idoms, y as int),
            is_ancestor(idoms, x as int, b1 as int),
            is_ancestor(idoms, y as int, b2 as int),
            forall|c: int| #[trigger]
                is_ancestor(idoms, c, b1 as int) && #[trigger] is_ancestor(idoms, c, b2 as int)
                    ==> is_ancestor(idoms, c, x as int) && is_ancestor(idoms, c, y as int),
        decreases 2 * n - x - y,
    {
        let ghost x0 = x;
        let ghost y0 = y;
        while x < y
            invariant
                idoms == immediate_dominators@,
                n == idoms.len(),
                is_forest(idoms),
                x0 <= x < n,
                x0 == x ==> x0 != y,
                y < n,
                processed(idoms, x as int),
                processed(idoms, y as int),
                is_ancestor(idoms, x as int, b1 as int),
                is_ancestor(idoms, y as int, b2 as int),
                forall|c: int| #[trigger]
                    is_ancestor(idoms, c, b1 as int) && #[trigger] is_ancestor(idoms, c, b2 as int)
                        ==> is_ancestor(idoms, c, x as int) && is_ancestor(idoms, c, y as int),
            decreases n - x,
        {
            let up: usize = immediate_dominators[x];
            proof {
                assert(x < idoms[x as int]);
                lemma_ancestor_step(idoms, up as int, x as int, b1 as int);
                assert forall|c: int| #[trigger]
                    is_ancestor(idoms, c, b1 as int) && #[trigger] is_ancestor(
                        idoms,
                        c,
                        b2 as int,
                    ) implies is_ancestor(idoms, c, up as int) && is_ancestor(
                    idoms,
                    c,
                    y as int,
                ) by {
                    lemma_ancestor_bounds(idoms, c, y as int);
                }
            }
            x = up;
        }
        while y < x
            invariant
                idoms == immediate_dominators@,
                n == idoms.len(),
                is_forest(idoms),
                x0 <= x < n,
                y0 <= y < n,
                x0 == x && y0 == y ==> x != y,
                processed(idoms, x as int),
                processed(idoms, y as int),
                is_ancestor(idoms, x as int, b1 as int),
                is_ancestor(idoms, y as int, b2 as int),
                forall|c: int| #[trigger]
                    is_ancestor(idoms, c, b1 as int) && #[trigger] is_ancestor(idoms, c, b2 as int)
                        ==> is_ancestor(idoms, c, x as int) && is_ancestor(idoms, c, y as int),
            decreases n - y,
        {
            let up: usize = immediate_dominators[y];
            proof {
                assert(y < idoms[y as int]);
                lemma_ancestor_step(idoms, up as int, y as int, b2 as int);
                assert forall|c: int| #[trigger]
                    is_ancestor(idoms, c, b1 as int) && #[trigger] is_ancestor(
                        idoms,
                        c,
                        b2 as int,
                    ) implies is_ancestor(idoms, c, x as int) && is_ancestor(
                    idoms,
                    c,
                    up as int,
                ) by {
                    lemma_ancestor_bounds(idoms, c, x as int);
                }
            }
            y = up;
        }
    }
    x
}

/// Finds the lowest common ancestor of a list of nodes.
pub fn find_lowest_common_ancestor(targets: &[usize], immediate_dominators: &[usize]) -> (common:
    usize)
    requires
        is_forest(immediate_dominators@),
        targets@.len() > 0,
        forall|i: int|
            0 <= i < targets@.len() ==> (#[trigger] targets@[i]) < immediate_dominators@.len()
                && processed(immediate_dominators@, targets@[i] as int),
    ensures
        common < immediate_dominators@.len(),
        is_common_ancestor(immediate_dominators@, common as int, targets@),
        forall|c: int| #[trigger]
            is_common_ancestor(immediate_dominators@, c, targets@) ==> is_ancestor(
                immediate_dominators@,
                c,
                common as int,
            ),
{
    let ghost idoms = immediate_dominators@;
    let mut common: usize = targets[0];
    let mut i: usize = 1;
    while i < targets.len()
        invariant
            idoms == immediate_dominators@,
            is_forest(idoms),
            1 <= i <= targets@.len(),
            forall|j: int|
                0 <= j < targets@.len() ==> (#[trigger] targets@[j]) < idoms.len() && processed(
                    idoms,
                    targets@[j] as int,
                ),
            common < idoms.len(),
            processed(idoms, common as int),
            forall|j: int|
                0 <= j < i ==> is_ancestor(idoms, common as int, #[trigger] targets@[j] as int),
            forall|c: int| #[trigger]
                is_common_ancestor(idoms, c, targets@) ==> is_ancestor(idoms, c, common as int),
        decreases targets@.len() - i,
    {
        let target: usize = targets[i];
        let next: usize = intersect(common, target, immediate_dominators);
        proof {
            assert forall|j: int| 0 <= j < i + 1 implies is_ancestor(
                idoms,
                next as int,
                #[trigger] targets@[j] as int,
            ) by {
                if j < i {
                    lemma_ancestor_transitive(
                        idoms,
                        next as int,
                        common as int,
                        targets@[j] as int,
                    );
                }
            }
            assert forall|c: int| #[trigger] is_common_ancestor(idoms, c, targets@) implies is_ancestor(
                idoms,
                c,
                next as int,
            ) by {
                assert(is_ancestor(idoms, c, common as int));
                assert(is_ancestor(idoms, c, targets@[i as int] as int));
            }
        }
        common = next;
        i += 1;
    }
    common
}

/// The parent of an ancestor is an ancestor.
proof fn lemma_ancestor_step(idoms: Seq<usize>, up: int, anc: int, node: int)
    requires
        is_forest(idoms),
        is_ancestor(idoms, anc, node),
        0 <= anc < idoms.len() - 1,
        processed(idoms, anc),
        up == idoms[anc],
    ensures
        is_ancestor(idoms, up, node),
    decreases idoms.len() - node,
{
    if anc == node {
        assert(is_ancestor(idoms, up, up));
    } else {
        lemma_ancestor_step(idoms, up, anc, idoms[node] as int);
    }
}

/// Finds the lowest common ancestor of the predecessors of a node that have
/// been processed, or `usize::MAX` if there are none.
fn meet_of_predecessors(node: usize, rev_adj: &[Vec<usize>], immediate_dominators: &[usize]) -> (new_idom:
    usize)
    requires
        postorder_numbered(rev_adj@),
        is_forest(immediate_dominators@),
        immediate_dominators@.len() == rev_adj@.len(),
        node < rev_adj@.len(),
    ensures
        new_idom == usize::MAX ==> forall|i: int|
            0 <= i < rev_adj@[node as int]@.len() ==> !processed(
                immediate_dominators@,
                (#[trigger] rev_adj@[node as int]@[i]) as int,
            ),
        new_idom != usize::MAX ==> new_idom < rev_adj@.len() && processed(
            immediate_dominators@,
            new_idom as int,
        ) && meets_preds(
            rev_adj@,
            immediate_dominators@,
            new_idom as int,
            node as int,
            rev_adj@[node as int]@.len() as int,
        ),
{
    let ghost idoms = immediate_dominators@;
    let preds: &Vec<usize> = &rev_adj[node];
    let mut new_idom: usize = usize::MAX;
    let mut i: usize = 0;
    while i < preds.len()
        invariant
            idoms == immediate_dominators@,
            postorder_numbered(rev_adj@),
            is_forest(idoms),
            idoms.len() == rev_adj@.len(),
            node < rev_adj@.len(),
            *preds == rev_adj@[node as int],
            i <= preds@.len(),
            new_idom == usize::MAX ==> forall|j: int|
                0 <= j < i ==> !processed(idoms, (#[trigger] rev_adj@[node as int]@[j]) as int),
            new_idom != usize::MAX ==> new_idom < rev_adj@.len() && processed(
                idoms,
                new_idom as int,
            ) && meets_preds(rev_adj@, idoms, new_idom as int, node as int, i as int),
        decreases preds@.len() - i,
    {
        let p: usize = preds[i];
        assert(rev_adj@[node as int]@[i as int] == p);
        if immediate_dominators[p] != usize::MAX {
            if new_idom == usize::MAX {
                proof {
                    assert(above_preds(rev_adj@, idoms, p as int, node as int, i + 1));
                    assert forall|c: int| #[trigger]
                        above_preds(rev_adj@, idoms, c, node as int, i + 1) implies is_ancestor(
                        idoms,
                        c,
                        p as int,
                    ) by {
                        assert(rev_adj@[node as int]@[i as int] == p);
                    }
                }
                new_idom = p;
            } else {
                let next: usize = intersect(new_idom, p, immediate_dominators);
                proof {
                    assert forall|j: int|
                        0 <= j < i + 1 && processed(
                            idoms,
                            (#[trigger] rev_adj@[node as int]@[j]) as int,
                        ) implies is_ancestor(
                        idoms,
                        next as int,
                        rev_adj@[node as int]@[j] as int,
                    ) by {
                        if j < i {
                            lemma_ancestor_transitive(
                                idoms,
                                next as int,
                                new_idom as int,
                                rev_adj@[node as int]@[j] as int,
                            );
                        }
                    }
                    assert forall|c: int| #[trigger]
                        above_preds(rev_adj@, idoms, c, node as int, i + 1) implies is_ancestor(
                        idoms,
                        c,
                        next as int,
                    ) by {
                        assert(above_preds(rev_adj@, idoms, c, node as int, i as int));
                        assert(rev_adj@[node as int]@[i as int] == p);
                        assert(is_ancestor(idoms, c, p as int));
                    }
                }
                new_idom = next;
            }
        } else if new_idom != usize::MAX {
            proof {
                assert forall|c: int| #[trigger]
                    above_preds(rev_adj@, idoms, c, node as int, i + 1) implies is_ancestor(
                    idoms,
                    c,
                    new_idom as int,
                ) by {
                    assert(above_preds(rev_adj@, idoms, c, node as int, i as int));
                }
            }
        }
        i += 1;
    }
    new_idom
}

/// What holds before the nodes below `low` are processed in pass `k`.
spec fn pass_invariant(preds: Seq<Vec<usize>>, idoms: Seq<usize>, k: nat, low: int) -> bool {
    &&& idoms.len() == preds.len()
    &&& is_forest(idoms)
    &&& keeps_dominators(preds, idoms)
    &&& forall|u: int| low <= u < preds.len() ==> #[trigger] processed(idoms, u)
    &&& covers(preds, idoms, k, low)
    &&& k > 0 ==> covers(preds, idoms, (k - 1) as nat, 0)
    &&& k > 0 ==> forall|u: int| 0 <= u < preds.len() ==> #[trigger] processed(idoms, u)
    &&& k == 0 ==> forall|u: int| 0 <= u < low ==> !#[trigger] processed(idoms, u)
}

/// Processing one node keeps the invariant. A node that has its final entry
/// keeps it.
proof fn lemma_process_node(
    preds: Seq<Vec<usize>>,
    idoms: Seq<usize>,
    k: nat,
    node: usize,
    new_idom: usize,
)
    requires
        postorder_numbered(preds),
        node < preds.len() - 1,
        pass_invariant(preds, idoms, k, node + 1),
        new_idom < preds.len(),
        processed(idoms, new_idom as int),
        meets_preds(preds, idoms, new_idom as int, node as int, preds[node as int]@.len() as int),
    ensures
        pass_invariant(preds, idoms.update(node as int, new_idom), k, node as int),
        k > preds.len() ==> new_idom == idoms[node as int],
        k > 0 && new_idom == idoms[node as int] ==> is_settled(preds, idoms, node as int),
{
    let next = idoms.update(node as int, new_idom);
    let edges = id_edges(preds);
    let start = start_id(preds);
    let n = preds.len();
    let list = preds[node as int]@;
    assert(has_higher_pred(preds, node as int));
    let h = choose|p: usize| #[trigger] higher_pred(preds, node as int, p);
    let w = choose|i: int| 0 <= i < list.len() && list[i] == h;
    assert(preds[node as int]@[w] == h);
    assert(h < n);
    assert(processed(idoms, h as int));
    assert(is_ancestor(idoms, new_idom as int, h as int));
    lemma_ancestor_bounds(idoms, new_idom as int, h as int);
    assert(new_idom > node);
    assert(is_forest(next)) by {
        assert forall|u: int| 0 <= u < next.len() - 1 && processed(next, u) implies u < (
        #[trigger] next[u]) < next.len() && processed(next, next[u] as int) by {
            if u != node {
                assert(processed(idoms, u));
                assert(u < idoms[u]);
            }
        }
    }
    assert(keeps_dominators(preds, next)) by {
        assert forall|u: usize, d: usize|
            u < preds.len() - 1 && processed(next, u as int) && #[trigger] strictly_dominates(
                edges,
                start,
                d,
                u,
            ) implies dominates(edges, start, d, next[u as int]) by {
            if u == node {
                lemma_meet_keeps_dominators(preds, idoms, new_idom, node, d, w);
            } else {
                assert(processed(idoms, u as int));
            }
        }
    }
    lemma_meet_covers(preds, idoms, k, new_idom, node);
    assert(covers(preds, next, k, node as int)) by {
        assert forall|u: usize|
            node <= u < preds.len() - 1 && processed(next, u as int) implies #[trigger] k_dominates(
            preds,
            k,
            next[u as int],
            u,
        ) by {
            if u != node {
                assert(processed(idoms, u as int));
                assert(k_dominates(preds, k, idoms[u as int], u));
            }
        }
    }
    if k > 0 {
        assert(covers(preds, next, (k - 1) as nat, 0)) by {
            assert forall|u: usize|
                0 <= u < preds.len() - 1 && processed(next, u as int) implies #[trigger] k_dominates(
                preds,
                (k - 1) as nat,
                next[u as int],
                u,
            ) by {
                if u == node {
                    lemma_k_dominates_weaken(preds, k, (k - 1) as nat, new_idom, node);
                } else {
                    assert(processed(idoms, u as int));
                    assert(k_dominates(preds, (k - 1) as nat, idoms[u as int], u));
                }
            }
        }
    }
    assert forall|u: int| node <= u < preds.len() implies #[trigger] processed(next, u) by {
        if u != node {
            assert(processed(idoms, u));
        }
    }
    if k > 0 {
        assert forall|u: int| 0 <= u < preds.len() implies #[trigger] processed(next, u) by {
            assert(processed(idoms, u));
        }
    } else {
        assert forall|u: int| 0 <= u < node implies !#[trigger] processed(next, u) by {
            assert(!processed(idoms, u));
        }
    }
    if k > n {
        let current = idoms[node as int];
        assert(processed(idoms, node as int));
        assert(k_dominates(preds, (k - 1) as nat, current, node));
        lemma_k_dominates_all(preds, (k - 1) as nat, current, node);
        lemma_k_dominates_all(preds, k, new_idom, node);
        assert(strictly_dominates(edges, start, current, node));
        assert(strictly_dominates(edges, start, new_idom, node));
        assert(dominates(edges, start, new_idom, current));
        assert(dominates(edges, start, current, next[node as int]));
        lemma_dominator_is_higher(preds, new_idom, current);
        lemma_dominator_is_higher(preds, current, new_idom);
    }
    if k > 0 && new_idom == idoms[node as int] {
        assert forall|i: int| 0 <= i < preds[node as int]@.len() implies processed(
            idoms,
            (#[trigger] preds[node as int]@[i]) as int,
        ) && is_ancestor(idoms, idoms[node as int] as int, preds[node as int]@[i] as int) by {
            assert(preds[node as int]@[i] < n);
            assert(processed(idoms, preds[node as int]@[i] as int));
        }
    }
}

/// Applies the Cooper-Harvey-Kennedy iterative algorithm to find the immediate
/// dominators of all nodes. The start node becomes its own entry.
pub fn calculate_immediate_dominators(rev_adj: &[Vec<usize>]) -> (immediate_dominators: Vec<usize>)
    requires
        postorder_numbered(rev_adj@),
    ensures
        is_dominator_tree(rev_adj@, immediate_dominators@),
{
    let ghost preds = rev_adj@;
    let num_nodes: usize = rev_adj.len();
    let start_node_id: usize = num_nodes - 1;
    // A node that is not processed yet has the entry `usize::MAX`.
    let mut immediate_dominators: Vec<usize> = Vec::new();
    let mut filled: usize = 0;
    while filled < num_nodes
        invariant
            filled <= num_nodes,
            immediate_dominators@.len() == filled,
            forall|i: int| 0 <= i < filled ==> immediate_dominators@[i] == usize::MAX,
        decreases num_nodes - filled,
    {
        immediate_dominators.push(usize::MAX);
        filled += 1;
    }
    immediate_dominators.set(start_node_id, start_node_id);
    let ghost mut k: nat = 0;
    let mut changed: bool = true;
    // Each pass processes all nodes in reverse postorder, until a pass changes
    // nothing.
    while changed
        invariant
            preds == rev_adj@,
            postorder_numbered(preds),
            num_nodes == preds.len(),
            start_node_id == num_nodes - 1,
            immediate_dominators@.len() == num_nodes,
            changed ==> k <= num_nodes + 1,
            changed ==> pass_invariant(preds, immediate_dominators@, k, start_node_id as int),
            !changed ==> is_forest(immediate_dominators@),
            !changed ==> keeps_dominators(preds, immediate_dominators@),
            !changed ==> forall|u: int|
                0 <= u < num_nodes ==> #[trigger] processed(immediate_dominators@, u),
            !changed ==> forall|u: int|
                0 <= u < num_nodes - 1 ==> #[trigger] is_settled(preds, immediate_dominators@, u),
        decreases (if changed { 1int } else { 0int }), num_nodes + 1 - k,
    {
        changed = false;
        let mut low: usize = start_node_id;
        while low > 0
            invariant
                preds == rev_adj@,
                postorder_numbered(preds),
                num_nodes == preds.len(),
                start_node_id == num_nodes - 1,
                immediate_dominators@.len() == num_nodes,
                low <= start_node_id,
                pass_invariant(preds, immediate_dominators@, k, low as int),
                changed ==> k <= num_nodes,
                !changed && k == 0 ==> low == start_node_id,
                !changed ==> forall|u: int|
                    low <= u < num_nodes - 1 ==> #[trigger] is_settled(
                        preds,
                        immediate_dominators@,
                        u,
                    ),
            decreases low,
        {
            let u: usize = low - 1;
            let new_idom: usize = meet_of_predecessors(u, rev_adj, &immediate_dominators);
            proof {
                assert(has_higher_pred(preds, u as int));
                let h = choose|p: usize| #[trigger] higher_pred(preds, u as int, p);
                let list = preds[u as int]@;
                let w = choose|i: int| 0 <= i < list.len() && list[i] == h;
                assert(preds[u as int]@[w] == h);
                assert(h < num_nodes);
                assert(processed(immediate_dominators@, h as int));
                lemma_process_node(preds, immediate_dominators@, k, u, new_idom);
            }
            if immediate_dominators[u] != new_idom {
                immediate_dominators.set(u, new_idom);
                changed = true;
            } else {
                proof {
                    assert(processed(immediate_dominators@, u as int));
                    assert(immediate_dominators@.update(u as int, new_idom)
                        =~= immediate_dominators@);
                }
            }
            low = u;
        }
        proof {
            k = k + 1;
            if changed {
                let s = immediate_dominators@;
                assert(covers(preds, s, k, start_node_id as int));
            }
        }
    }
    proof {
        let s = immediate_dominators@;
        assert forall|u: usize| u < preds.len() - 1 implies #[trigger] is_immediate_dominator(
            id_edges(preds),
            start_id(preds),
            s[u as int],
            u,
        ) by {
            assert(processed(s, u as int));
            let up = s[u as int];
            assert(is_ancestor(s, up as int, up as int));
            assert forall|path: Seq<usize>| #[trigger]
                is_path(id_edges(preds), start_id(preds), path, u) implies path.contains(up) by {
                lemma_settled_dominates(preds, s, path, up, u);
            }
        }
    }
    immediate_dominators
}

} // verus!
