//! Depth-first traversal of directed graphs.
//!
//! A graph is a map from each node to the nodes that its edges lead to.

use vstd::prelude::*;

use crate::dominance::edge_at;
use crate::dominance::is_path;
use crate::dominance::lemma_path_push;
use crate::dominance::lemma_path_single;
use crate::dominance::reachable;
use crate::seq_util::lemma_concat_to_set;
use crate::seq_util::lemma_push_to_set;

verus! {

/// Whether a graph is finite and all its edges lead to nodes of the graph.
pub open spec fn is_closed(graph: Map<u64, Seq<u64>>) -> bool {
    &&& graph.dom().finite()
    &&& forall|node: u64, k: int|
        graph.contains_key(node) && 0 <= k < graph[node].len() ==> graph.contains_key(
            #[trigger] graph[node][k],
        )
}

/// The edges of a graph.
pub open spec fn edges_of(graph: Map<u64, Seq<u64>>) -> Set<(u64, u64)> {
    Set::new(|e: (u64, u64)| graph.contains_key(e.0) && graph[e.0].contains(e.1))
}

/// The number of nodes that are not in `visited`.
pub open spec fn unvisited(graph: Map<u64, Seq<u64>>, visited: Set<u64>) -> nat {
    graph.dom().difference(visited).len()
}

/// Visiting a node leaves fewer unvisited ones.
pub proof fn lemma_unvisited_visit(
    graph: Map<u64, Seq<u64>>,
    visited: Set<u64>,
    node: u64,
)
    requires
        graph.dom().finite(),
        graph.contains_key(node),
        !visited.contains(node),
    ensures
        unvisited(graph, visited.insert(node)) < unvisited(graph, visited),
{
    let all = graph.dom();
    assert(all.difference(visited.insert(node)) =~= all.difference(visited).remove(node));
}

/// Visiting more nodes leaves no more unvisited ones.
pub proof fn lemma_unvisited_shrinks(
    graph: Map<u64, Seq<u64>>,
    visited: Set<u64>,
    more: Set<u64>,
)
    requires
        graph.dom().finite(),
        visited.subset_of(more),
    ensures
        unvisited(graph, more) <= unvisited(graph, visited),
{
    let all = graph.dom();
    vstd::set_lib::lemma_len_subset(all.difference(more), all.difference(visited));
}

/// The postorder of the nodes that can be reached from `nodes` without going
/// through `visited`: of each node the nodes that its edges lead to come
/// first, in order, then the node itself.
pub open spec fn postorder(
    graph: Map<u64, Seq<u64>>,
    nodes: Seq<u64>,
    visited: Set<u64>,
) -> Seq<u64>
    decreases unvisited(graph, visited), nodes.len(),
{
    if nodes.len() == 0 || !graph.dom().finite() {
        Seq::empty()
    } else if visited.contains(nodes[0]) || !graph.contains_key(nodes[0]) {
        postorder(graph, nodes.drop_first(), visited)
    } else {
        let node = nodes[0];
        proof {
            lemma_unvisited_visit(graph, visited, node);
        }
        let below = postorder(graph, graph[node], visited.insert(node));
        let seen = visited.insert(node).union(below.to_set());
        proof {
            lemma_unvisited_shrinks(graph, visited, seen);
        }
        below.push(node) + postorder(graph, nodes.drop_first(), seen)
    }
}

/// Whether some later node of the order has an edge to the node at `i`.
pub open spec fn has_later_pred(graph: Map<u64, Seq<u64>>, order: Seq<u64>, i: int) -> bool {
    exists|j: int| i < j < order.len() && #[trigger] edges_of(graph).contains((order[j], order[i]))
}

/// What holds of a postorder: no node occurs twice or was visited before, the
/// traversal reaches all of `nodes`, the edges out of the nodes lead to nodes
/// that have been visited, and every node is one of `nodes` or has an edge
/// from a later one.
pub proof fn lemma_postorder_parts(graph: Map<u64, Seq<u64>>, nodes: Seq<u64>, visited: Set<u64>)
    requires
        is_closed(graph),
    ensures
        postorder(graph, nodes, visited).no_duplicates(),
        forall|i: int|
            #![trigger postorder(graph, nodes, visited)[i]]
            0 <= i < postorder(graph, nodes, visited).len() ==> {
                let node = postorder(graph, nodes, visited)[i];
                &&& graph.contains_key(node)
                &&& !visited.contains(node)
                &&& nodes.contains(node) || has_later_pred(
                    graph,
                    postorder(graph, nodes, visited),
                    i,
                )
                &&& forall|child: u64| #[trigger]
                    graph[node].contains(child) ==> visited.contains(child)
                        || postorder(graph, nodes, visited).contains(child)
            },
        forall|node: u64| #[trigger]
            nodes.contains(node) && graph.contains_key(node) ==> visited.contains(node) || postorder(
                graph,
                nodes,
                visited,
            ).contains(node),
    decreases unvisited(graph, visited), nodes.len(),
{
    let order = postorder(graph, nodes, visited);
    if nodes.len() == 0 {
    } else if visited.contains(nodes[0]) || !graph.contains_key(nodes[0]) {
        let rest = nodes.drop_first();
        lemma_postorder_parts(graph, rest, visited);
        assert forall|node: u64| #[trigger] nodes.contains(node) && graph.contains_key(node) implies visited.contains(
            node,
        ) || order.contains(node) by {
            let k = choose|k: int| 0 <= k < nodes.len() && nodes[k] == node;
            if k > 0 {
                assert(rest[k - 1] == node);
                assert(rest.contains(node));
            }
        }
        assert forall|node: u64| rest.contains(node) implies #[trigger] nodes.contains(node) by {
            let k = choose|k: int| 0 <= k < rest.len() && rest[k] == node;
            assert(nodes[k + 1] == node);
        }
    } else {
        let node = nodes[0];
        let kids = graph[node];
        let inner = visited.insert(node);
        lemma_unvisited_visit(graph, visited, node);
        let below = postorder(graph, kids, inner);
        lemma_postorder_parts(graph, kids, inner);
        let seen = inner.union(below.to_set());
        lemma_unvisited_shrinks(graph, inner, seen);
        let rest = nodes.drop_first();
        let after = postorder(graph, rest, seen);
        lemma_postorder_parts(graph, rest, seen);
        assert(order =~= below.push(node) + after);
        let b = below.len() as int;
        assert(order[b] == node);
        assert forall|x: u64| #[trigger] below.contains(x) implies order.contains(x) && seen.contains(
            x,
        ) by {
            let k = choose|k: int| 0 <= k < below.len() && below[k] == x;
            assert(order[k] == x);
        }
        assert forall|x: u64| #[trigger] after.contains(x) implies order.contains(x) by {
            let k = choose|k: int| 0 <= k < after.len() && after[k] == x;
            assert(order[k + b + 1] == x);
        }
        assert(order.contains(node));
        assert forall|x: u64| #[trigger] seen.contains(x) implies visited.contains(x)
            || order.contains(x) by {
            if below.to_set().contains(x) {
                assert(below.contains(x));
            }
        }
        assert forall|i: int| 0 <= i < below.len() implies seen.contains(#[trigger] below[i])
            && !inner.contains(below[i]) by {
            assert(below.contains(below[i]));
        }
        assert forall|i: int| 0 <= i < after.len() implies !seen.contains(#[trigger] after[i]) by {}
        assert(order.no_duplicates()) by {
            assert forall|i: int, j: int|
                0 <= i < order.len() && 0 <= j < order.len() && i != j implies order[i]
                != order[j] by {
                if i < b {
                    assert(order[i] == below[i]);
                }
                if j < b {
                    assert(order[j] == below[j]);
                }
                if i > b {
                    assert(order[i] == after[i - b - 1]);
                }
                if j > b {
                    assert(order[j] == after[j - b - 1]);
                }
            }
        }
        assert forall|i: int| 0 <= i < order.len() implies {
            let x = #[trigger] order[i];
            &&& graph.contains_key(x)
            &&& !visited.contains(x)
            &&& nodes.contains(x) || has_later_pred(graph, order, i)
            &&& forall|child: u64| #[trigger]
                graph[x].contains(child) ==> visited.contains(child)
                    || order.contains(child)
        } by {
            let x = order[i];
            if i < b {
                assert(x == below[i]);
                if kids.contains(x) {
                    assert(edges_of(graph).contains((order[b], order[i])));
                } else {
                    let j = choose|j: int|
                        i < j < below.len() && #[trigger] edges_of(graph).contains(
                            (below[j], below[i]),
                        );
                    assert(order[j] == below[j]);
                    assert(edges_of(graph).contains((order[j], order[i])));
                }
                assert forall|child: u64| #[trigger] graph[x].contains(child) implies visited.contains(
                    child,
                ) || order.contains(child) by {
                    assert(inner.contains(child) || below.contains(child));
                }
            } else if i == b {
                assert(nodes[0] == x);
                assert forall|child: u64| #[trigger] graph[x].contains(child) implies visited.contains(
                    child,
                ) || order.contains(child) by {
                    let k = choose|k: int| 0 <= k < kids.len() && kids[k] == child;
                    assert(graph.contains_key(graph[node][k]));
                    assert(inner.contains(child) || below.contains(child));
                }
            } else {
                let m = i - b - 1;
                assert(x == after[m]);
                if rest.contains(x) {
                    let k = choose|k: int| 0 <= k < rest.len() && rest[k] == x;
                    assert(nodes[k + 1] == x);
                } else {
                    let j = choose|j: int|
                        m < j < after.len() && #[trigger] edges_of(graph).contains(
                            (after[j], after[m]),
                        );
                    assert(order[j + b + 1] == after[j]);
                    assert(edges_of(graph).contains((order[j + b + 1], order[i])));
                }
                assert forall|child: u64| #[trigger] graph[x].contains(child) implies visited.contains(
                    child,
                ) || order.contains(child) by {
                    assert(seen.contains(child) || after.contains(child));
                }
            }
        }
        assert forall|x: u64| #[trigger] nodes.contains(x) && graph.contains_key(x) implies visited.contains(
            x,
        ) || order.contains(x) by {
            let k = choose|k: int| 0 <= k < nodes.len() && nodes[k] == x;
            if k > 0 {
                assert(rest[k - 1] == x);
                assert(rest.contains(x));
                assert(seen.contains(x) || after.contains(x));
            }
        }
    }
}

/// Whether a path leads to the node from one of `nodes`.
spec fn is_led_to(graph: Map<u64, Seq<u64>>, nodes: Seq<u64>, node: u64) -> bool {
    exists|s: u64| #[trigger] nodes.contains(s) && reachable(edges_of(graph), s, node)
}

proof fn lemma_postorder_led_to(
    graph: Map<u64, Seq<u64>>,
    nodes: Seq<u64>,
    visited: Set<u64>,
    i: int,
)
    requires
        is_closed(graph),
        0 <= i < postorder(graph, nodes, visited).len(),
    ensures
        is_led_to(graph, nodes, postorder(graph, nodes, visited)[i]),
    decreases postorder(graph, nodes, visited).len() - i,
{
    let order = postorder(graph, nodes, visited);
    let edges = edges_of(graph);
    lemma_postorder_parts(graph, nodes, visited);
    if nodes.contains(order[i]) {
        lemma_path_single(edges, order[i]);
        assert(reachable(edges, order[i], order[i]));
    } else {
        assert(has_later_pred(graph, order, i));
        let j = choose|j: int| i < j < order.len() && #[trigger] edges.contains((order[j], order[i]));
        lemma_postorder_led_to(graph, nodes, visited, j);
        let s = choose|s: u64| #[trigger] nodes.contains(s) && reachable(edges, s, order[j]);
        let path = choose|path: Seq<u64>| is_path(edges, s, path, order[j]);
        lemma_path_push(edges, s, path, order[j], order[i]);
        assert(reachable(edges, s, order[i]));
    }
}

/// Whether every node that the edges of the node at `i` lead to comes before
/// it, unless it leads back to it.
pub open spec fn neighbors_before_or_back(
    graph: Map<u64, Seq<u64>>,
    order: Seq<u64>,
    i: int,
) -> bool {
    forall|child: u64| #[trigger]
        graph[order[i]].contains(child) ==> order.take(i).contains(child) || reachable(
            edges_of(graph),
            child,
            order[i],
        )
}

/// A node that an edge leads to was visited before the traversal, comes before
/// the node that the edge leaves, or leads back to that node.
pub proof fn lemma_postorder_neighbors(
    graph: Map<u64, Seq<u64>>,
    nodes: Seq<u64>,
    visited: Set<u64>,
    i: int,
    child: u64,
)
    requires
        is_closed(graph),
        0 <= i < postorder(graph, nodes, visited).len(),
        graph[postorder(graph, nodes, visited)[i]].contains(child),
    ensures
        visited.contains(child) || postorder(graph, nodes, visited).take(i).contains(child)
            || reachable(edges_of(graph), child, postorder(graph, nodes, visited)[i]),
    decreases unvisited(graph, visited), nodes.len(),
{
    let order = postorder(graph, nodes, visited);
    let edges = edges_of(graph);
    if nodes.len() == 0 {
    } else if visited.contains(nodes[0]) || !graph.contains_key(nodes[0]) {
        lemma_postorder_neighbors(graph, nodes.drop_first(), visited, i, child);
    } else {
        let node = nodes[0];
        let kids = graph[node];
        let inner = visited.insert(node);
        lemma_unvisited_visit(graph, visited, node);
        let below = postorder(graph, kids, inner);
        let seen = inner.union(below.to_set());
        lemma_unvisited_shrinks(graph, inner, seen);
        let rest = nodes.drop_first();
        let after = postorder(graph, rest, seen);
        assert(order =~= below.push(node) + after);
        let b = below.len() as int;
        if i < b {
            assert(order[i] == below[i]);
            lemma_postorder_neighbors(graph, kids, inner, i, child);
            assert(order.take(i) =~= below.take(i));
            if child == node {
                lemma_postorder_led_to(graph, kids, inner, i);
                let s = choose|s: u64| #[trigger] kids.contains(s) && reachable(
                    edges,
                    s,
                    below[i],
                );
                let path = choose|path: Seq<u64>| is_path(edges, s, path, below[i]);
                assert(edges.contains((node, s)));
                lemma_path_before(edges, node, s, path, below[i]);
            }
        } else if i == b {
            assert(order.take(i) =~= below);
            lemma_postorder_parts(graph, kids, inner);
            let k = choose|k: int| 0 <= k < kids.len() && kids[k] == child;
            assert(graph.contains_key(graph[node][k]));
            assert(inner.contains(child) || below.contains(child));
            if child == node {
                lemma_path_single(edges, node);
            }
        } else {
            let m = i - b - 1;
            assert(order[i] == after[m]);
            lemma_postorder_neighbors(graph, rest, seen, m, child);
            if after.take(m).contains(child) {
                let k = choose|k: int| 0 <= k < m && after.take(m)[k] == child;
                assert(order.take(i)[k + b + 1] == child);
            } else if seen.contains(child) {
                if child == node {
                    assert(order.take(i)[b] == child);
                } else if below.to_set().contains(child) {
                    let k = choose|k: int| 0 <= k < below.len() && below[k] == child;
                    assert(order.take(i)[k] == child);
                }
            }
        }
    }
}

proof fn lemma_path_before(
    edges: Set<(u64, u64)>,
    first: u64,
    start: u64,
    path: Seq<u64>,
    end: u64,
)
    requires
        edges.contains((first, start)),
        is_path(edges, start, path, end),
    ensures
        reachable(edges, first, end),
{
    let longer = seq![first] + path;
    assert forall|k: int| 0 <= k < longer.len() - 1 implies #[trigger] edge_at(edges, longer, k) by {
        if k > 0 {
            assert(edge_at(edges, path, k - 1));
            assert(longer[k] == path[k - 1]);
            assert(longer[k + 1] == path[k]);
        } else {
            assert(longer[1] == path[0]);
        }
    }
    assert(is_path(edges, first, longer, end));
}

/// The postorder from one node.
pub open spec fn postorder_from(graph: Map<u64, Seq<u64>>, start: u64) -> Seq<u64> {
    postorder(graph, seq![start], Set::empty())
}

/// A postorder traversal visits exactly the nodes that can be reached from the
/// start node, and each of them once. The start node comes last, and every
/// other node has an edge from a node that comes later. A node that an edge
/// leads to comes before the node that the edge leaves, unless it leads back to
/// that node.
pub proof fn lemma_postorder(graph: Map<u64, Seq<u64>>, start: u64)
    requires
        is_closed(graph),
        graph.contains_key(start),
    ensures
        postorder_from(graph, start).no_duplicates(),
        postorder_from(graph, start).len() > 0,
        postorder_from(graph, start).last() == start,
        forall|node: u64| #[trigger]
            postorder_from(graph, start).contains(node) <==> reachable(
                edges_of(graph),
                start,
                node,
            ),
        forall|i: int|
            0 <= i < postorder_from(graph, start).len() - 1 ==> #[trigger] has_later_pred(
                graph,
                postorder_from(graph, start),
                i,
            ),
        forall|i: int|
            0 <= i < postorder_from(graph, start).len() ==> graph.contains_key(#[trigger] postorder_from(graph, start)[i]),
        forall|i: int|
            0 <= i < postorder_from(graph, start).len() ==> #[trigger] neighbors_before_or_back(
                graph,
                postorder_from(graph, start),
                i,
            ),
{
    let order = postorder_from(graph, start);
    let empty = Set::<u64>::empty();
    lemma_postorder_parts(graph, seq![start], empty);
    assert forall|i: int| 0 <= i < order.len() implies #[trigger] neighbors_before_or_back(
        graph,
        order,
        i,
    ) by {
        assert forall|child: u64| #[trigger] graph[order[i]].contains(child) implies order.take(
            i,
        ).contains(child) || reachable(edges_of(graph), child, order[i]) by {
            lemma_postorder_neighbors(graph, seq![start], empty, i, child);
        }
    }
    assert(seq![start][0] == start);
    assert(seq![start].contains(start));
    let below = postorder(graph, graph[start], empty.insert(start));
    assert(seq![start].drop_first() =~= Seq::<u64>::empty());
    assert(order =~= below.push(start)) by {
        reveal_with_fuel(postorder, 2);
    }
    assert forall|i: int| 0 <= i < order.len() - 1 implies #[trigger] has_later_pred(
        graph,
        order,
        i,
    ) by {
        assert(order[i] != order[order.len() - 1]);
        if seq![start].contains(order[i]) {
            let k = choose|k: int| 0 <= k < seq![start].len() && seq![start][k] == order[i];
        }
    }
    assert forall|node: u64| #[trigger] order.contains(node) <==> reachable(
        edges_of(graph),
        start,
        node,
    ) by {
        if order.contains(node) {
            let i = choose|i: int| 0 <= i < order.len() && order[i] == node;
            lemma_postorder_reachable(graph, start, i);
        }
        if reachable(edges_of(graph), start, node) {
            let path = choose|path: Seq<u64>| is_path(edges_of(graph), start, path, node);
            lemma_postorder_closed(graph, start, path, node);
        }
    }
}

proof fn lemma_postorder_reachable(graph: Map<u64, Seq<u64>>, start: u64, i: int)
    requires
        is_closed(graph),
        graph.contains_key(start),
        0 <= i < postorder_from(graph, start).len(),
        postorder_from(graph, start).last() == start,
        forall|k: int|
            0 <= k < postorder_from(graph, start).len() - 1 ==> #[trigger] has_later_pred(
                graph,
                postorder_from(graph, start),
                k,
            ),
    ensures
        reachable(edges_of(graph), start, postorder_from(graph, start)[i]),
    decreases postorder_from(graph, start).len() - i,
{
    let order = postorder_from(graph, start);
    if i == order.len() - 1 {
        lemma_path_single(edges_of(graph), start);
    } else {
        assert(has_later_pred(graph, order, i));
        let j = choose|j: int|
            i < j < order.len() && #[trigger] edges_of(graph).contains((order[j], order[i]));
        lemma_postorder_reachable(graph, start, j);
        let path = choose|path: Seq<u64>| is_path(edges_of(graph), start, path, order[j]);
        lemma_path_push(edges_of(graph), start, path, order[j], order[i]);
    }
}

proof fn lemma_postorder_closed(
    graph: Map<u64, Seq<u64>>,
    start: u64,
    path: Seq<u64>,
    node: u64,
)
    requires
        is_closed(graph),
        graph.contains_key(start),
        is_path(edges_of(graph), start, path, node),
    ensures
        postorder_from(graph, start).contains(node),
    decreases path.len(),
{
    lemma_postorder_parts(graph, seq![start], Set::empty());
    if path.len() == 1 {
        assert(seq![start][0] == start);
        assert(seq![start].contains(start));
    } else {
        let front = path.drop_last();
        let edges = edges_of(graph);
        assert(edge_at(edges, path, path.len() - 2));
        assert forall|k: int| 0 <= k < front.len() - 1 implies #[trigger] edge_at(
            edges,
            front,
            k,
        ) by {
            assert(edge_at(edges, path, k));
        }
        lemma_postorder_closed(graph, start, front, front.last());
        let order = postorder_from(graph, start);
        let i = choose|i: int| 0 <= i < order.len() && order[i] == front.last();
        assert(graph[order[i]].contains(node));
    }
}

/// The nodes that a traversal still has to emit, given its stack: a node that
/// is marked is emitted itself, another one with all that lies below it.
pub open spec fn pending(
    graph: Map<u64, Seq<u64>>,
    stack: Seq<(u64, bool)>,
    visited: Set<u64>,
) -> Seq<u64>
    decreases stack.len(),
{
    if stack.len() == 0 {
        Seq::empty()
    } else {
        let (node, marked) = stack.last();
        if marked {
            seq![node] + pending(graph, stack.drop_last(), visited)
        } else {
            let order = postorder(graph, seq![node], visited);
            order + pending(graph, stack.drop_last(), visited.union(order.to_set()))
        }
    }
}

/// The stack after those of `nodes` that were not visited have been pushed,
/// the last one first.
pub open spec fn pushed(base: Seq<(u64, bool)>, nodes: Seq<u64>, visited: Set<u64>) -> Seq<(u64, bool)>
    decreases nodes.len(),
{
    if nodes.len() == 0 {
        base
    } else {
        let stack = pushed(base, nodes.drop_first(), visited);
        if visited.contains(nodes[0]) {
            stack
        } else {
            stack.push((nodes[0], false))
        }
    }
}

/// The postorder from one node.
pub proof fn lemma_postorder_single(graph: Map<u64, Seq<u64>>, node: u64, visited: Set<u64>)
    requires
        graph.dom().finite(),
    ensures
        postorder(graph, seq![node], visited) == (if visited.contains(node) || !graph.contains_key(node) {
            Seq::<u64>::empty()
        } else {
            postorder(graph, graph[node], visited.insert(node)).push(node)
        }),
{
    reveal_with_fuel(postorder, 2);
    assert(seq![node].drop_first() =~= Seq::<u64>::empty());
    assert(seq![node][0] == node);
    if !visited.contains(node) && graph.contains_key(node) {
        let below = postorder(graph, graph[node], visited.insert(node));
        assert(below.push(node) + Seq::<u64>::empty() =~= below.push(node));
    }
}

/// Emptying the stack down to `base` emits the postorder of the pushed nodes.
pub proof fn lemma_pending_pushed(
    graph: Map<u64, Seq<u64>>,
    base: Seq<(u64, bool)>,
    nodes: Seq<u64>,
    at_push: Set<u64>,
    visited: Set<u64>,
)
    requires
        graph.dom().finite(),
        at_push.subset_of(visited),
    ensures
        pending(graph, pushed(base, nodes, at_push), visited) == postorder(graph, nodes, visited)
            + pending(graph, base, visited.union(postorder(graph, nodes, visited).to_set())),
    decreases nodes.len(),
{
    if nodes.len() == 0 {
        let none = postorder(graph, nodes, visited);
        assert(none =~= Seq::<u64>::empty());
        assert(visited.union(none.to_set()) =~= visited);
        assert(none + pending(graph, base, visited) =~= pending(graph, base, visited));
    } else {
        let node = nodes[0];
        let rest = nodes.drop_first();
        let first = postorder(graph, seq![node], visited);
        let seen = visited.union(first.to_set());
        lemma_postorder_single(graph, node, visited);
        let after = postorder(graph, rest, seen);
        let whole = postorder(graph, nodes, visited);
        if visited.contains(node) || !graph.contains_key(node) {
            assert(seen =~= visited);
            assert(whole == after);
            assert(first + after =~= after);
        } else {
            let below = postorder(graph, graph[node], visited.insert(node));
            lemma_push_to_set(below, node);
            assert(visited.insert(node).union(below.to_set()) =~= seen);
            assert(whole == first + after);
        }
        lemma_concat_to_set(first, after);
        assert(visited.union(whole.to_set()) =~= seen.union(after.to_set()));
        if at_push.contains(node) {
            lemma_pending_pushed(graph, base, rest, at_push, visited);
        } else {
            lemma_pending_pushed(graph, base, rest, at_push, seen);
            let stack = pushed(base, rest, at_push);
            assert(stack.push((node, false)).drop_last() =~= stack);
            let tail = pending(graph, base, seen.union(after.to_set()));
            assert(pending(graph, stack.push((node, false)), visited) == first + (after + tail));
            assert(first + (after + tail) =~= (first + after) + tail);
        }
    }
}

/// Renaming the nodes of a graph renames the nodes of its postorder.
pub proof fn lemma_postorder_rename(
    graph: Map<u64, Seq<u64>>,
    nodes: Seq<u64>,
    visited: Set<u64>,
    renamed: Map<u64, Seq<u64>>,
    renamed_visited: Set<u64>,
    name: spec_fn(u64) -> u64,
)
    requires
        graph.dom().finite(),
        renamed.dom().finite(),
        forall|x: u64| #[trigger] name(name(x)) == x,
        forall|x: u64| renamed.contains_key(#[trigger] name(x)) <==> graph.contains_key(x),
        forall|x: u64| #[trigger]
            graph.contains_key(x) ==> renamed[name(x)] == graph[x].map_values(name),
        forall|x: u64| renamed_visited.contains(#[trigger] name(x)) <==> visited.contains(x),
    ensures
        postorder(renamed, nodes.map_values(name), renamed_visited) == postorder(
            graph,
            nodes,
            visited,
        ).map_values(name),
    decreases unvisited(graph, visited), nodes.len(),
{
    let names = nodes.map_values(name);
    let order = postorder(graph, nodes, visited);
    if nodes.len() == 0 {
        assert(order.map_values(name) =~= Seq::<u64>::empty());
    } else if visited.contains(nodes[0]) || !graph.contains_key(nodes[0]) {
        assert(names[0] == name(nodes[0]));
        assert(names.drop_first() =~= nodes.drop_first().map_values(name));
        lemma_postorder_rename(
            graph,
            nodes.drop_first(),
            visited,
            renamed,
            renamed_visited,
            name,
        );
    } else {
        let node = nodes[0];
        let inner = visited.insert(node);
        lemma_unvisited_visit(graph, visited, node);
        let below = postorder(graph, graph[node], inner);
        let seen = inner.union(below.to_set());
        lemma_unvisited_shrinks(graph, inner, seen);
        let renamed_inner = renamed_visited.insert(name(node));
        assert forall|x: u64| renamed_inner.contains(#[trigger] name(x)) <==> inner.contains(x) by {
            if name(x) == name(node) {
                assert(name(name(x)) == name(name(node)));
            }
        }
        lemma_postorder_rename(graph, graph[node], inner, renamed, renamed_inner, name);
        let renamed_below = below.map_values(name);
        let renamed_seen = renamed_inner.union(renamed_below.to_set());
        assert forall|x: u64| renamed_seen.contains(#[trigger] name(x)) <==> seen.contains(x) by {
            if below.contains(x) {
                let i = choose|i: int| 0 <= i < below.len() && below[i] == x;
                assert(renamed_below[i] == name(x));
            }
            if renamed_below.contains(name(x)) {
                let i = choose|i: int| 0 <= i < renamed_below.len() && renamed_below[i] == name(x);
                assert(name(name(below[i])) == name(name(x)));
                assert(below[i] == x);
            }
        }
        let rest = nodes.drop_first();
        assert(names.drop_first() =~= rest.map_values(name));
        assert(names[0] == name(node));
        lemma_postorder_rename(graph, rest, seen, renamed, renamed_seen, name);
        let after = postorder(graph, rest, seen);
        assert((below.push(node) + after).map_values(name) =~= renamed_below.push(name(node))
            + after.map_values(name));
    }
}

/// Nodes are dealt with one after the other: what the first of them lead to
/// comes first, and is not dealt with again.
pub proof fn lemma_postorder_concat(
    graph: Map<u64, Seq<u64>>,
    a: Seq<u64>,
    b: Seq<u64>,
    visited: Set<u64>,
)
    requires
        graph.dom().finite(),
    ensures
        postorder(graph, a + b, visited) == postorder(graph, a, visited) + postorder(
            graph,
            b,
            visited.union(postorder(graph, a, visited).to_set()),
        ),
    decreases unvisited(graph, visited), a.len(),
{
    let all = a + b;
    let first = postorder(graph, a, visited);
    if a.len() == 0 {
        assert(all =~= b);
        assert(visited.union(first.to_set()) =~= visited);
        assert(first + postorder(graph, b, visited) =~= postorder(graph, b, visited));
    } else {
        let node = a[0];
        let rest = a.drop_first();
        assert(all[0] == node);
        assert(all.drop_first() =~= rest + b);
        if visited.contains(node) || !graph.contains_key(node) {
            lemma_postorder_concat(graph, rest, b, visited);
        } else {
            let inner = visited.insert(node);
            lemma_unvisited_visit(graph, visited, node);
            let below = postorder(graph, graph[node], inner);
            let seen = inner.union(below.to_set());
            lemma_unvisited_shrinks(graph, inner, seen);
            lemma_postorder_concat(graph, rest, b, seen);
            let after = postorder(graph, rest, seen);
            lemma_push_to_set(below, node);
            lemma_concat_to_set(below.push(node), after);
            assert(visited.union(first.to_set()) =~= seen.union(after.to_set()));
            let last = postorder(graph, b, seen.union(after.to_set()));
            assert(below.push(node) + (after + last) =~= below.push(node) + after + last);
        }
    }
}

/// Which nodes were visited matters only as far as they can be met: sets that
/// agree on a part of the graph that no edge leaves give the same order there.
pub proof fn lemma_postorder_within(
    graph: Map<u64, Seq<u64>>,
    nodes: Seq<u64>,
    visited: Set<u64>,
    other: Set<u64>,
    within: Set<u64>,
)
    requires
        graph.dom().finite(),
        forall|i: int| 0 <= i < nodes.len() ==> within.contains(#[trigger] nodes[i]),
        forall|node: u64, k: int|
            graph.contains_key(node) && within.contains(node) && 0 <= k < graph[node].len()
                ==> within.contains(#[trigger] graph[node][k]),
        forall|node: u64| #[trigger]
            within.contains(node) ==> (visited.contains(node) <==> other.contains(node)),
    ensures
        postorder(graph, nodes, visited) == postorder(graph, nodes, other),
    decreases unvisited(graph, visited), nodes.len(),
{
    if nodes.len() > 0 {
        let node = nodes[0];
        let rest = nodes.drop_first();
        assert(within.contains(nodes[0]));
        assert forall|i: int| 0 <= i < rest.len() implies within.contains(#[trigger] rest[i]) by {
            assert(rest[i] == nodes[i + 1]);
        }
        if visited.contains(node) || !graph.contains_key(node) {
            lemma_postorder_within(graph, rest, visited, other, within);
        } else {
            let inner = visited.insert(node);
            lemma_unvisited_visit(graph, visited, node);
            lemma_postorder_within(graph, graph[node], inner, other.insert(node), within);
            let below = postorder(graph, graph[node], inner);
            let seen = inner.union(below.to_set());
            lemma_unvisited_shrinks(graph, inner, seen);
            lemma_postorder_within(
                graph,
                rest,
                seen,
                other.insert(node).union(below.to_set()),
                within,
            );
        }
    }
}

} // verus!
