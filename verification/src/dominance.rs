//! Paths and dominance in directed graphs.
//!
//! A graph is given by the set of its edges. Dominance is defined by paths: a
//! node dominates another if it lies on every path from the start node to it.

use vstd::prelude::*;

verus! {

/// Whether the graph has the edge from the node at position `i` of `path` to
/// the next one.
pub open spec fn edge_at<A>(edges: Set<(A, A)>, path: Seq<A>, i: int) -> bool {
    edges.contains((path[i], path[i + 1]))
}

/// Whether `path` leads along edges from `start` to `end`.
pub open spec fn is_path<A>(edges: Set<(A, A)>, start: A, path: Seq<A>, end: A) -> bool {
    &&& path.len() > 0
    &&& path[0] == start
    &&& path.last() == end
    &&& forall|i: int| 0 <= i < path.len() - 1 ==> #[trigger] edge_at(edges, path, i)
}

/// Whether some path leads from `start` to `node`.
pub open spec fn reachable<A>(edges: Set<(A, A)>, start: A, node: A) -> bool {
    exists|path: Seq<A>| is_path(edges, start, path, node)
}

/// Whether every path from `start` to `node` goes through `dom`.
pub open spec fn dominates<A>(edges: Set<(A, A)>, start: A, dom: A, node: A) -> bool {
    forall|path: Seq<A>| #[trigger] is_path(edges, start, path, node) ==> path.contains(dom)
}

/// Whether `dom` dominates `node` and is another node.
pub open spec fn strictly_dominates<A>(edges: Set<(A, A)>, start: A, dom: A, node: A) -> bool {
    dominates(edges, start, dom, node) && dom != node
}

/// Whether `dom` is the strict dominator of `node` closest to it: every strict
/// dominator of `node` dominates `dom` as well.
pub open spec fn is_immediate_dominator<A>(
    edges: Set<(A, A)>,
    start: A,
    dom: A,
    node: A,
) -> bool {
    &&& strictly_dominates(edges, start, dom, node)
    &&& forall|other: A| #[trigger]
        strictly_dominates(edges, start, other, node) ==> dominates(edges, start, other, dom)
}

/// Whether `dom` dominates every one of `nodes`.
pub open spec fn is_common_dominator<A>(
    edges: Set<(A, A)>,
    start: A,
    dom: A,
    nodes: Seq<A>,
) -> bool {
    forall|i: int| 0 <= i < nodes.len() ==> dominates(edges, start, dom, #[trigger] nodes[i])
}

/// Whether `dom` is the common dominator of `nodes` closest to them: every
/// common dominator of `nodes` dominates `dom` as well.
pub open spec fn is_closest_common_dominator<A>(
    edges: Set<(A, A)>,
    start: A,
    dom: A,
    nodes: Seq<A>,
) -> bool {
    &&& is_common_dominator(edges, start, dom, nodes)
    &&& forall|other: A| #[trigger]
        is_common_dominator(edges, start, other, nodes) ==> dominates(edges, start, other, dom)
}

/// A prefix of a path is a path to its own last node.
pub proof fn lemma_path_prefix<A>(edges: Set<(A, A)>, start: A, path: Seq<A>, end: A, i: int)
    requires
        is_path(edges, start, path, end),
        0 <= i < path.len(),
    ensures
        is_path(edges, start, path.take(i + 1), path[i]),
{
    let prefix = path.take(i + 1);
    assert forall|k: int| 0 <= k < prefix.len() - 1 implies #[trigger] edge_at(edges, prefix, k) by {
        assert(edge_at(edges, path, k));
    }
}

/// A path can be extended by an edge out of its last node.
pub proof fn lemma_path_push<A>(edges: Set<(A, A)>, start: A, path: Seq<A>, end: A, next: A)
    requires
        is_path(edges, start, path, end),
        edges.contains((end, next)),
    ensures
        is_path(edges, start, path.push(next), next),
{
    let longer = path.push(next);
    assert forall|k: int| 0 <= k < longer.len() - 1 implies #[trigger] edge_at(edges, longer, k) by {
        if k < path.len() - 1 {
            assert(edge_at(edges, path, k));
        }
    }
}

/// The path without edges.
pub proof fn lemma_path_single<A>(edges: Set<(A, A)>, start: A)
    ensures
        is_path(edges, start, seq![start], start),
{
}

/// Every node dominates itself.
pub proof fn lemma_dominates_reflexive<A>(edges: Set<(A, A)>, start: A, node: A)
    ensures
        dominates(edges, start, node, node),
{
    assert forall|path: Seq<A>| #[trigger] is_path(edges, start, path, node) implies path.contains(
        node,
    ) by {
        assert(path[path.len() - 1] == node);
    }
}

/// The start node dominates every node.
pub proof fn lemma_start_dominates<A>(edges: Set<(A, A)>, start: A, node: A)
    ensures
        dominates(edges, start, start, node),
{
    assert forall|path: Seq<A>| #[trigger] is_path(edges, start, path, node) implies path.contains(
        start,
    ) by {
        assert(path[0] == start);
    }
}

/// A dominator of a dominator is a dominator.
pub proof fn lemma_dominates_transitive<A>(edges: Set<(A, A)>, start: A, a: A, b: A, c: A)
    requires
        dominates(edges, start, a, b),
        dominates(edges, start, b, c),
    ensures
        dominates(edges, start, a, c),
{
    assert forall|path: Seq<A>| #[trigger] is_path(edges, start, path, c) implies path.contains(
        a,
    ) by {
        let i = choose|i: int| 0 <= i < path.len() && path[i] == b;
        lemma_path_prefix(edges, start, path, c, i);
        let prefix = path.take(i + 1);
        let k = choose|k: int| 0 <= k < prefix.len() && prefix[k] == a;
        assert(path[k] == a);
    }
}

/// Two reachable nodes that dominate each other are the same node.
pub proof fn lemma_dominates_antisymmetric<A>(edges: Set<(A, A)>, start: A, a: A, b: A)
    requires
        dominates(edges, start, a, b),
        dominates(edges, start, b, a),
        reachable(edges, start, a),
    ensures
        a == b,
{
    let path = choose|path: Seq<A>| is_path(edges, start, path, a);
    lemma_no_short_mutual(edges, start, a, b, path);
}

proof fn lemma_no_short_mutual<A>(edges: Set<(A, A)>, start: A, a: A, b: A, path: Seq<A>)
    requires
        dominates(edges, start, a, b),
        dominates(edges, start, b, a),
        is_path(edges, start, path, a),
    ensures
        a == b,
    decreases path.len(),
{
    if a != b {
        let i = choose|i: int| 0 <= i < path.len() && path[i] == b;
        lemma_path_prefix(edges, start, path, a, i);
        lemma_no_short_mutual(edges, start, b, a, path.take(i + 1));
    }
}

/// A reachable node has at most one immediate dominator.
pub proof fn lemma_immediate_dominator_unique<A>(
    edges: Set<(A, A)>,
    start: A,
    a: A,
    b: A,
    node: A,
)
    requires
        reachable(edges, start, node),
        is_immediate_dominator(edges, start, a, node),
        is_immediate_dominator(edges, start, b, node),
    ensures
        a == b,
{
    lemma_dominator_reachable(edges, start, a, node);
    lemma_dominates_antisymmetric(edges, start, a, b);
}

/// The dominators of a reachable node are reachable.
pub proof fn lemma_dominator_reachable<A>(edges: Set<(A, A)>, start: A, dom: A, node: A)
    requires
        reachable(edges, start, node),
        dominates(edges, start, dom, node),
    ensures
        reachable(edges, start, dom),
{
    let path = choose|path: Seq<A>| is_path(edges, start, path, node);
    let i = choose|i: int| 0 <= i < path.len() && path[i] == dom;
    lemma_path_prefix(edges, start, path, node, i);
}

/// The immediate dominator of a reachable node strictly dominates no other
/// strict dominator of that node.
pub proof fn lemma_immediate_dominator_closest<A>(
    edges: Set<(A, A)>,
    start: A,
    dom: A,
    node: A,
    other: A,
)
    requires
        reachable(edges, start, node),
        is_immediate_dominator(edges, start, dom, node),
        strictly_dominates(edges, start, other, node),
    ensures
        !strictly_dominates(edges, start, dom, other),
{
    if strictly_dominates(edges, start, dom, other) {
        lemma_dominator_reachable(edges, start, dom, node);
        lemma_dominates_antisymmetric(edges, start, dom, other);
    }
}

/// The closest common dominator of reachable nodes strictly dominates no other
/// common dominator of them.
pub proof fn lemma_closest_common_dominator_closest<A>(
    edges: Set<(A, A)>,
    start: A,
    dom: A,
    nodes: Seq<A>,
    other: A,
)
    requires
        nodes.len() > 0,
        reachable(edges, start, nodes[0]),
        is_closest_common_dominator(edges, start, dom, nodes),
        is_common_dominator(edges, start, other, nodes),
    ensures
        !strictly_dominates(edges, start, dom, other),
{
    if strictly_dominates(edges, start, dom, other) {
        assert(dominates(edges, start, dom, nodes[0]));
        lemma_dominator_reachable(edges, start, dom, nodes[0]);
        lemma_dominates_antisymmetric(edges, start, dom, other);
    }
}

/// Reachable nodes have at most one closest common dominator.
pub proof fn lemma_closest_common_dominator_unique<A>(
    edges: Set<(A, A)>,
    start: A,
    a: A,
    b: A,
    nodes: Seq<A>,
)
    requires
        nodes.len() > 0,
        reachable(edges, start, nodes[0]),
        is_closest_common_dominator(edges, start, a, nodes),
        is_closest_common_dominator(edges, start, b, nodes),
    ensures
        a == b,
{
    assert(dominates(edges, start, a, nodes[0]));
    lemma_dominator_reachable(edges, start, a, nodes[0]);
    lemma_dominates_antisymmetric(edges, start, a, b);
}

/// A strict dominator of a node dominates every predecessor of the node.
pub proof fn lemma_strict_dominator_of_predecessor<A>(
    edges: Set<(A, A)>,
    start: A,
    dom: A,
    pred: A,
    node: A,
)
    requires
        strictly_dominates(edges, start, dom, node),
        edges.contains((pred, node)),
    ensures
        dominates(edges, start, dom, pred),
{
    assert forall|path: Seq<A>| #[trigger] is_path(edges, start, path, pred) implies path.contains(
        dom,
    ) by {
        lemma_path_push(edges, start, path, pred, node);
        let longer = path.push(node);
        let i = choose|i: int| 0 <= i < longer.len() && longer[i] == dom;
        assert(path[i] == dom);
    }
}

/// Cutting the cycles out of a path leaves a path over some of its nodes that
/// visits none of them twice.
pub proof fn lemma_simple_path<A>(edges: Set<(A, A)>, start: A, path: Seq<A>, end: A) -> (simple:
    Seq<A>)
    requires
        is_path(edges, start, path, end),
    ensures
        is_path(edges, start, simple, end),
        simple.no_duplicates(),
        forall|node: A| #![auto] simple.contains(node) ==> path.contains(node),
    decreases path.len(),
{
    if path.no_duplicates() {
        path
    } else {
        let (i, j) = choose|i: int, j: int|
            0 <= i < path.len() && 0 <= j < path.len() && i != j && path[i] == path[j];
        let (a, b) = if i < j {
            (i, j)
        } else {
            (j, i)
        };
        let shorter = path.take(a + 1) + path.skip(b + 1);
        assert forall|k: int| 0 <= k < shorter.len() - 1 implies #[trigger] edge_at(
            edges,
            shorter,
            k,
        ) by {
            if k < a {
                assert(edge_at(edges, path, k));
            } else if k == a {
                assert(edge_at(edges, path, b));
            } else {
                assert(edge_at(edges, path, k + (b - a)));
            }
        }
        assert(shorter.last() == end) by {
            if b == path.len() - 1 {
                assert(shorter.last() == path[a]);
            }
        }
        let simple = lemma_simple_path(edges, start, shorter, end);
        assert forall|node: A| #![auto] simple.contains(node) implies path.contains(node) by {
            assert(shorter.contains(node));
            let k = choose|k: int| 0 <= k < shorter.len() && shorter[k] == node;
            if k <= a {
                assert(path[k] == node);
            } else {
                assert(path[k + (b - a)] == node);
            }
        }
        simple
    }
}

} // verus!
