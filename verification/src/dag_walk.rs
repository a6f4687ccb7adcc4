//! Topological orders of directed graphs.

use std::collections::HashMap;
use std::collections::HashSet;

use vstd::prelude::*;

use crate::dfs::edges_of;
use crate::dfs::is_closed;
use crate::dfs::lemma_pending_pushed;
use crate::dfs::lemma_postorder_concat;
use crate::dfs::lemma_postorder_neighbors;
use crate::dfs::lemma_postorder_parts;
use crate::dfs::lemma_postorder_single;
use crate::dfs::lemma_postorder_within;
use crate::dfs::lemma_unvisited_visit;
use crate::dfs::pending;
use crate::dfs::postorder;
use crate::dfs::pushed;
use crate::dfs::unvisited;
use crate::dominance::edge_at;
use crate::dominance::is_path;
use crate::dominance::lemma_path_push;
use crate::dominance::lemma_path_single;
use crate::dominance::reachable;
use crate::seq_util::lemma_push_to_set;

verus! {

broadcast use vstd::std_specs::hash::group_hash_axioms;

/// The graph that a map from nodes to their neighbors stands for.
pub open spec fn neighbor_graph(neighbors: Map<u64, Vec<u64>>) -> Map<u64, Seq<u64>> {
    Map::new(|node: u64| neighbors.contains_key(node), |node: u64| neighbors[node]@)
}

/// The graph with the neighbors of each node in reverse order.
pub open spec fn reversed_neighbors(graph: Map<u64, Seq<u64>>) -> Map<u64, Seq<u64>> {
    Map::new(|node: u64| graph.contains_key(node), |node: u64| graph[node].reverse())
}

/// Whether a node can be reached from one of the start nodes.
pub open spec fn reachable_from(graph: Map<u64, Seq<u64>>, start: Seq<u64>, node: u64) -> bool {
    exists|s: u64| #[trigger] start.contains(s) && reachable(edges_of(graph), s, node)
}

/// Whether `path` leads from a node along at least one edge back to itself.
pub open spec fn is_cycle(graph: Map<u64, Seq<u64>>, node: u64, path: Seq<u64>) -> bool {
    path.len() > 1 && is_path(edges_of(graph), node, path, node)
}

/// Whether a cycle goes through the node.
pub open spec fn lies_on_cycle(graph: Map<u64, Seq<u64>>, node: u64) -> bool {
    exists|path: Seq<u64>| is_cycle(graph, node, path)
}

/// Whether a cycle can be reached from one of the start nodes.
pub open spec fn has_cycle(graph: Map<u64, Seq<u64>>, start: Seq<u64>) -> bool {
    exists|node: u64, path: Seq<u64>| #[trigger]
        is_cycle(graph, node, path) && reachable_from(graph, start, node)
}

/// Whether all neighbors of the node at `i` come before it.
pub open spec fn neighbors_before(graph: Map<u64, Seq<u64>>, order: Seq<u64>, i: int) -> bool {
    forall|node: u64| #[trigger]
        graph[order[i]].contains(node) ==> order.take(i).contains(node)
}

/// Whether an order holds exactly the nodes that can be reached from the start
/// nodes, each of them once, and neighbors before the nodes that they are
/// neighbors of.
pub open spec fn is_topo_order(
    graph: Map<u64, Seq<u64>>,
    start: Seq<u64>,
    order: Seq<u64>,
) -> bool {
    &&& order.no_duplicates()
    &&& forall|node: u64| #[trigger] order.contains(node) <==> reachable_from(graph, start, node)
    &&& forall|i: int| 0 <= i < order.len() ==> #[trigger] neighbors_before(graph, order, i)
}

/// The order of a depth-first traversal in which later start nodes and later
/// neighbors are visited first.
pub open spec fn topo_order(graph: Map<u64, Seq<u64>>, start: Seq<u64>) -> Seq<u64> {
    postorder(reversed_neighbors(graph), start.reverse(), Set::empty())
}

/// Whether the entries of a stack above a marked node are its neighbors, up to
/// the next marked one.
spec fn is_chained(graph: Map<u64, Seq<u64>>, stack: Seq<(u64, bool)>) -> bool {
    forall|q: int, p: int| #[trigger]
        is_holder(stack, q, p) ==> graph[stack[q].0].contains(stack[p].0)
}

/// Whether the entry at `q` is the next marked one below the entry at `p`.
spec fn is_holder(stack: Seq<(u64, bool)>, q: int, p: int) -> bool {
    &&& 0 <= q < p < stack.len()
    &&& stack[q].1
    &&& forall|m: int| q < m < p ==> !(#[trigger] stack[m]).1
}

/// The entries of a stack for nodes that are not marked.
spec fn unmarked(nodes: Seq<u64>) -> Seq<(u64, bool)> {
    nodes.map_values(|node: u64| (node, false))
}

/// Pushing nodes one by one lets the last of them be visited first.
proof fn lemma_pushed_reverse(base: Seq<(u64, bool)>, nodes: Seq<u64>)
    ensures
        pushed(base, nodes.reverse(), Set::empty()) == base + unmarked(nodes),
    decreases nodes.len(),
{
    if nodes.len() == 0 {
        assert(nodes.reverse() =~= nodes);
        assert(base + unmarked(nodes) =~= base);
    } else {
        let front = nodes.drop_last();
        lemma_pushed_reverse(base, front);
        assert(nodes.reverse().drop_first() =~= front.reverse());
        assert(nodes.reverse()[0] == nodes.last());
        assert((base + unmarked(front)).push((nodes.last(), false)) =~= base + unmarked(nodes));
    }
}

/// From a marked node a path leads to every node above it on the stack.
proof fn lemma_path_on_stack(
    graph: Map<u64, Seq<u64>>,
    stack: Seq<(u64, bool)>,
    q: int,
    p: int,
) -> (path: Seq<u64>)
    requires
        is_chained(graph, stack),
        0 <= q < p < stack.len(),
        stack[q].1,
        forall|m: int|
            0 <= m < stack.len() ==> graph.contains_key((#[trigger] stack[m]).0),
    ensures
        path.len() > 1,
        is_path(edges_of(graph), stack[q].0, path, stack[p].0),
    decreases p,
{
    let r = lemma_next_holder(stack, q, p);
    assert(graph[stack[r].0].contains(stack[p].0));
    assert(graph.contains_key(stack[r].0));
    if r == q {
        lemma_path_single(edges_of(graph), stack[q].0);
        lemma_path_push(edges_of(graph), stack[q].0, seq![stack[q].0], stack[q].0, stack[p].0);
        seq![stack[q].0].push(stack[p].0)
    } else {
        let path = lemma_path_on_stack(graph, stack, q, r);
        lemma_path_push(edges_of(graph), stack[q].0, path, stack[r].0, stack[p].0);
        path.push(stack[p].0)
    }
}

proof fn lemma_next_holder(stack: Seq<(u64, bool)>, q: int, p: int) -> (r: int)
    requires
        0 <= q < p < stack.len(),
        stack[q].1,
    ensures
        q <= r < p,
        is_holder(stack, r, p),
    decreases p - q,
{
    if forall|m: int| q < m < p ==> !(#[trigger] stack[m]).1 {
        q
    } else {
        let m = choose|m: int| q < m < p && (#[trigger] stack[m]).1;
        lemma_next_holder(stack, m, p)
    }
}

/// A node that can be reached is in the order.
proof fn lemma_order_complete(
    graph: Map<u64, Seq<u64>>,
    start: Seq<u64>,
    s: u64,
    path: Seq<u64>,
    node: u64,
)
    requires
        is_closed(graph),
        start.contains(s),
        graph.contains_key(s),
        is_path(edges_of(graph), s, path, node),
    ensures
        topo_order(graph, start).contains(node),
    decreases path.len(),
{
    let rev = reversed_neighbors(graph);
    lemma_reversed_closed(graph);
    let order = topo_order(graph, start);
    lemma_postorder_parts(rev, start.reverse(), Set::empty());
    if path.len() == 1 {
        let i = choose|i: int| 0 <= i < start.len() && start[i] == s;
        assert(start.reverse()[start.len() - 1 - i] == s);
        assert(start.reverse().contains(s));
    } else {
        let front = path.drop_last();
        assert(edge_at(edges_of(graph), path, path.len() - 2));
        assert forall|k: int| 0 <= k < front.len() - 1 implies #[trigger] edge_at(
            edges_of(graph),
            front,
            k,
        ) by {
            assert(edge_at(edges_of(graph), path, k));
        }
        lemma_order_complete(graph, start, s, front, front.last());
        let i = choose|i: int| 0 <= i < order.len() && order[i] == front.last();
        let k = choose|k: int| 0 <= k < graph[order[i]].len() && graph[order[i]][k] == node;
        assert(rev[order[i]][graph[order[i]].len() - 1 - k] == node);
        assert(rev[order[i]].contains(node));
    }
}

proof fn lemma_reversed_closed(graph: Map<u64, Seq<u64>>)
    requires
        is_closed(graph),
    ensures
        is_closed(reversed_neighbors(graph)),
        reversed_neighbors(graph).dom() == graph.dom(),
{
    let rev = reversed_neighbors(graph);
    assert(rev.dom() =~= graph.dom());
    assert forall|node: u64, k: int|
        rev.contains_key(node) && 0 <= k < rev[node].len() implies rev.contains_key(
        #[trigger] rev[node][k],
    ) by {
        assert(rev[node][k] == graph[node][graph[node].len() - 1 - k]);
    }
}

/// Where neighbors come first there is no cycle.
proof fn lemma_no_cycle(graph: Map<u64, Seq<u64>>, order: Seq<u64>, path: Seq<u64>, a: int, end: u64)
    requires
        order.no_duplicates(),
        forall|i: int| 0 <= i < order.len() ==> #[trigger] neighbors_before(graph, order, i),
        0 <= a < order.len(),
        path.len() > 1,
        is_path(edges_of(graph), order[a], path, end),
    ensures
        exists|b: int| 0 <= b < a && order[b] == end,
    decreases path.len(),
{
    let rest = path.drop_first();
    assert(edge_at(edges_of(graph), path, 0));
    assert(neighbors_before(graph, order, a));
    assert(graph[order[a]].contains(path[1]));
    let b = choose|b: int| 0 <= b < order.take(a).len() && order.take(a)[b] == path[1];
    assert(order[b] == path[1]);
    if rest.len() > 1 {
        assert forall|k: int| 0 <= k < rest.len() - 1 implies #[trigger] edge_at(
            edges_of(graph),
            rest,
            k,
        ) by {
            assert(edge_at(edges_of(graph), path, k + 1));
        }
        assert(rest.last() == path.last());
        lemma_no_cycle(graph, order, rest, b, end);
    }
}

/// What holds in the middle of a walk: `order` has been emitted, the marked
/// entries of the stack are being visited, and their neighbors have been
/// emitted or lie above them.
spec fn walk_invariant(
    graph: Map<u64, Seq<u64>>,
    start: Seq<u64>,
    stack: Seq<(u64, bool)>,
    visiting: Set<u64>,
    emitted: Set<u64>,
    order: Seq<u64>,
) -> bool {
    &&& order + pending(reversed_neighbors(graph), stack, visiting.union(emitted)) == topo_order(
        graph,
        start,
    )
    &&& order.to_set() == emitted
    &&& forall|p: int| 0 <= p < stack.len() ==> graph.contains_key((#[trigger] stack[p]).0)
    &&& forall|p: int|
        0 <= p < stack.len() ==> reachable_from(graph, start, (#[trigger] stack[p]).0)
    &&& is_chained(graph, stack)
    &&& forall|node: u64| #[trigger]
        visiting.contains(node) ==> !emitted.contains(node) && is_marked(stack, node)
    &&& forall|p: int|
        0 <= p < stack.len() && (#[trigger] stack[p]).1 ==> visiting.contains(stack[p].0)
    &&& forall|p: int, q: int|
        0 <= p < q < stack.len() && (#[trigger] stack[p]).1 && (#[trigger] stack[q]).1
            ==> stack[p].0 != stack[q].0
    &&& forall|p: int, node: u64|
        0 <= p < stack.len() && (#[trigger] stack[p]).1
            && #[trigger] graph[stack[p].0].contains(node) ==> emitted.contains(node)
            || lies_above(stack, p, node)
    &&& forall|i: int| 0 <= i < order.len() ==> #[trigger] neighbors_before(graph, order, i)
}

/// Whether a node is marked on the stack.
spec fn is_marked(stack: Seq<(u64, bool)>, node: u64) -> bool {
    exists|p: int| 0 <= p < stack.len() && #[trigger] stack[p] == (node, true)
}

/// Whether a node has an entry above the one at `p`.
spec fn lies_above(stack: Seq<(u64, bool)>, p: int, node: u64) -> bool {
    exists|q: int| p < q < stack.len() && (#[trigger] stack[q]).0 == node
}

/// An entry for a node that has been emitted can be dropped.
proof fn lemma_walk_skip(
    graph: Map<u64, Seq<u64>>,
    start: Seq<u64>,
    stack: Seq<(u64, bool)>,
    visiting: Set<u64>,
    emitted: Set<u64>,
    order: Seq<u64>,
)
    requires
        is_closed(graph),
        stack.len() > 0,
        walk_invariant(graph, start, stack, visiting, emitted, order),
        emitted.contains(stack.last().0),
    ensures
        walk_invariant(graph, start, stack.drop_last(), visiting, emitted, order),
{
    let base = stack.drop_last();
    let (node, marked) = stack.last();
    let top = stack.len() - 1;
    let rev = reversed_neighbors(graph);
    lemma_reversed_closed(graph);
    let visited = visiting.union(emitted);
    assert(stack[top] == (node, marked));
    assert(!marked);
    lemma_postorder_single(rev, node, visited);
    let none = Seq::<u64>::empty();
    assert(visited.union(none.to_set()) =~= visited);
    let rest = pending(rev, base, visited);
    assert(none + rest =~= rest);
    assert forall|p: int| 0 <= p < base.len() implies #[trigger] base[p] == stack[p] by {}
    assert(is_chained(graph, base)) by {
        assert forall|q: int, p: int| #[trigger] is_holder(base, q, p) implies graph[base[q].0].contains(base[p].0) by {
            assert(is_holder(stack, q, p)) by {
                assert forall|m: int| q < m < p implies !(#[trigger] stack[m]).1 by {
                    assert(!base[m].1);
                }
            }
            assert(graph[stack[q].0].contains(stack[p].0));
        }
    }
    assert forall|x: u64| #[trigger] visiting.contains(x) implies is_marked(base, x) by {
        let p = choose|p: int| 0 <= p < stack.len() && #[trigger] stack[p] == (x, true);
        assert(base[p] == (x, true));
    }
    assert forall|p: int, x: u64|
        0 <= p < base.len() && (#[trigger] base[p]).1 && #[trigger] graph[base[p].0].contains(
            x,
        ) implies emitted.contains(x) || lies_above(base, p, x) by {
        assert(stack[p].1 && graph[stack[p].0].contains(x));
        if !emitted.contains(x) {
            let q = choose|q: int| p < q < stack.len() && (#[trigger] stack[q]).0 == x;
            assert(base[q].0 == x);
        }
    }
}

/// A node that has not been visited is marked, and its neighbors are pushed.
proof fn lemma_walk_open(
    graph: Map<u64, Seq<u64>>,
    start: Seq<u64>,
    stack: Seq<(u64, bool)>,
    visiting: Set<u64>,
    emitted: Set<u64>,
    order: Seq<u64>,
)
    requires
        is_closed(graph),
        stack.len() > 0,
        walk_invariant(graph, start, stack, visiting, emitted, order),
        !stack.last().1,
        !emitted.contains(stack.last().0),
        !visiting.contains(stack.last().0),
    ensures
        ({
            let node = stack.last().0;
            walk_invariant(
                graph,
                start,
                stack.drop_last().push((node, true)) + unmarked(graph[node]),
                visiting.insert(node),
                emitted,
                order,
            )
        }),
{
    let base = stack.drop_last();
    let node = stack.last().0;
    let top = stack.len() - 1;
    let rev = reversed_neighbors(graph);
    lemma_reversed_closed(graph);
    let visited = visiting.union(emitted);
    let inner = visiting.insert(node);
    let marked = base.push((node, true));
    let list = graph[node];
    let next = marked + unmarked(list);
    assert(stack[top] == (node, false));
    assert(graph.contains_key(stack[top].0));
    assert(inner.union(emitted) =~= visited.insert(node));
    // What is still to be emitted stays the same.
    lemma_pushed_reverse(marked, list);
    lemma_pending_pushed(rev, marked, list.reverse(), Set::empty(), visited.insert(node));
    lemma_postorder_single(rev, node, visited);
    let below = postorder(rev, rev[node], visited.insert(node));
    lemma_push_to_set(below, node);
    let seen = visited.insert(node).union(below.to_set());
    assert(visited.union(below.push(node).to_set()) =~= seen);
    assert(marked.drop_last() =~= base);
    let rest = pending(rev, base, seen);
    assert(pending(rev, next, visited.insert(node)) == below + (seq![node] + rest));
    assert(below + (seq![node] + rest) =~= below.push(node) + rest);
    assert forall|p: int| 0 <= p < base.len() implies #[trigger] next[p] == stack[p] by {}
    assert(next[top] == (node, true));
    assert forall|p: int| top < p < next.len() implies (#[trigger] next[p]) == (
        list[p - top - 1],
        false,
    ) by {}
    assert forall|p: int| 0 <= p < next.len() implies graph.contains_key((#[trigger] next[p]).0) by {
        if p < top {
            assert(graph.contains_key(stack[p].0));
        } else if p > top {
            assert(graph.contains_key(graph[node][p - top - 1]));
        }
    }
    assert forall|p: int| 0 <= p < next.len() implies reachable_from(
        graph,
        start,
        (#[trigger] next[p]).0,
    ) by {
        if p < top {
            assert(reachable_from(graph, start, stack[p].0));
        } else {
            assert(reachable_from(graph, start, stack[top].0));
            if p > top {
                let s = choose|s: u64| #[trigger] start.contains(s) && reachable(
                    edges_of(graph),
                    s,
                    node,
                );
                let path = choose|path: Seq<u64>| is_path(edges_of(graph), s, path, node);
                assert(list.contains(list[p - top - 1]));
                lemma_path_push(edges_of(graph), s, path, node, list[p - top - 1]);
                assert(reachable(edges_of(graph), s, list[p - top - 1]));
            }
        }
    }
    assert(is_chained(graph, next)) by {
        assert forall|q: int, p: int| #[trigger] is_holder(next, q, p) implies graph[next[q].0].contains(next[p].0) by {
            if p > top {
                assert(q == top) by {
                    if q < top {
                        assert(!next[top].1);
                    }
                }
                assert(list.contains(list[p - top - 1]));
            } else {
                assert(is_holder(stack, q, p)) by {
                    assert forall|m: int| q < m < p implies !(#[trigger] stack[m]).1 by {
                        assert(!next[m].1);
                    }
                }
                assert(graph[stack[q].0].contains(stack[p].0));
            }
        }
    }
    assert forall|x: u64| #[trigger] inner.contains(x) implies !emitted.contains(x) && is_marked(
        next,
        x,
    ) by {
        if x == node {
            assert(next[top] == (node, true));
        } else {
            let p = choose|p: int| 0 <= p < stack.len() && #[trigger] stack[p] == (x, true);
            assert(next[p] == (x, true));
        }
    }
    assert forall|p: int| 0 <= p < next.len() && (#[trigger] next[p]).1 implies inner.contains(
        next[p].0,
    ) by {
        if p < top {
            assert(stack[p].1);
        }
    }
    assert forall|p: int, q: int|
        0 <= p < q < next.len() && (#[trigger] next[p]).1 && (#[trigger] next[q]).1 implies next[p].0
        != next[q].0 by {
        assert(stack[p].1);
        if q < top {
            assert(stack[q].1);
        }
    }
    assert forall|p: int, x: u64|
        0 <= p < next.len() && (#[trigger] next[p]).1 && #[trigger] graph[next[p].0].contains(
            x,
        ) implies emitted.contains(x) || lies_above(next, p, x) by {
        if p < top {
            assert(stack[p].1 && graph[stack[p].0].contains(x));
            if !emitted.contains(x) {
                let q = choose|q: int| p < q < stack.len() && (#[trigger] stack[q]).0 == x;
                if q < top {
                    assert(next[q].0 == x);
                } else {
                    assert(next[top].0 == x);
                }
            }
        } else {
            let k = choose|k: int| 0 <= k < list.len() && list[k] == x;
            assert(next[top + 1 + k].0 == x);
        }
    }
}

/// A marked node is emitted once nothing lies above it.
proof fn lemma_walk_close(
    graph: Map<u64, Seq<u64>>,
    start: Seq<u64>,
    stack: Seq<(u64, bool)>,
    visiting: Set<u64>,
    emitted: Set<u64>,
    order: Seq<u64>,
)
    requires
        is_closed(graph),
        stack.len() > 0,
        walk_invariant(graph, start, stack, visiting, emitted, order),
        stack.last().1,
    ensures
        ({
            let node = stack.last().0;
            walk_invariant(
                graph,
                start,
                stack.drop_last(),
                visiting.remove(node),
                emitted.insert(node),
                order.push(node),
            )
        }),
        visiting.contains(stack.last().0),
{
    let base = stack.drop_last();
    let node = stack.last().0;
    let top = stack.len() - 1;
    let rev = reversed_neighbors(graph);
    let left = visiting.remove(node);
    let done = emitted.insert(node);
    let longer = order.push(node);
    assert(stack[top] == (node, true));
    assert(visiting.contains(stack[top].0));
    assert(left.union(done) =~= visiting.union(emitted));
    let rest = pending(rev, base, visiting.union(emitted));
    assert(order + (seq![node] + rest) =~= longer + rest);
    lemma_push_to_set(order, node);
    assert forall|p: int| 0 <= p < base.len() implies #[trigger] base[p] == stack[p] by {}
    assert(is_chained(graph, base)) by {
        assert forall|q: int, p: int| #[trigger] is_holder(base, q, p) implies graph[base[q].0].contains(base[p].0) by {
            assert(is_holder(stack, q, p)) by {
                assert forall|m: int| q < m < p implies !(#[trigger] stack[m]).1 by {
                    assert(!base[m].1);
                }
            }
            assert(graph[stack[q].0].contains(stack[p].0));
        }
    }
    assert forall|x: u64| #[trigger] left.contains(x) implies !done.contains(x) && is_marked(
        base,
        x,
    ) by {
        let p = choose|p: int| 0 <= p < stack.len() && #[trigger] stack[p] == (x, true);
        assert(base[p] == (x, true));
    }
    assert forall|p: int| 0 <= p < base.len() && (#[trigger] base[p]).1 implies left.contains(
        base[p].0,
    ) by {
        assert(stack[p].1 && stack[top].1);
    }
    assert forall|p: int, x: u64|
        0 <= p < base.len() && (#[trigger] base[p]).1 && #[trigger] graph[base[p].0].contains(
            x,
        ) implies done.contains(x) || lies_above(base, p, x) by {
        assert(stack[p].1 && graph[stack[p].0].contains(x));
        if !done.contains(x) {
            let q = choose|q: int| p < q < stack.len() && (#[trigger] stack[q]).0 == x;
            assert(base[q].0 == x);
        }
    }
    assert forall|i: int| 0 <= i < longer.len() implies #[trigger] neighbors_before(
        graph,
        longer,
        i,
    ) by {
        if i < order.len() {
            assert(neighbors_before(graph, order, i));
            assert(longer.take(i) =~= order.take(i));
        } else {
            assert forall|x: u64| #[trigger] graph[longer[i]].contains(x) implies longer.take(
                i,
            ).contains(x) by {
                assert(stack[top].1 && graph[stack[top].0].contains(x));
                assert(emitted.contains(x));
                assert(order.to_set().contains(x));
                assert(longer.take(i) =~= order);
            }
        }
    }
}

/// Returns the nodes that can be reached from `start`, neighbors before the
/// nodes that they are neighbors of. If there is a cycle, returns a node of it.
pub fn topo_order_forward(start: &[u64], neighbors: &HashMap<u64, Vec<u64>>) -> (result: Result<
    Vec<u64>,
    u64,
>)
    requires
        is_closed(neighbor_graph(neighbors@)),
        forall|i: int| 0 <= i < start@.len() ==> neighbors@.contains_key(#[trigger] start@[i]),
    ensures
        result is Err <==> has_cycle(neighbor_graph(neighbors@), start@),
        result matches Ok(order) ==> order@ == topo_order(neighbor_graph(neighbors@), start@)
            && is_topo_order(neighbor_graph(neighbors@), start@, order@),
        result matches Err(node) ==> lies_on_cycle(neighbor_graph(neighbors@), node),
{
    let ghost graph = neighbor_graph(neighbors@);
    let ghost rev = reversed_neighbors(graph);
    let mut stack: Vec<(u64, bool)> = Vec::new();
    let mut s: usize = 0;
    while s < start.len()
        invariant
            s <= start@.len(),
            stack@ == unmarked(start@.take(s as int)),
        decreases start@.len() - s,
    {
        stack.push((start[s], false));
        s += 1;
        assert(stack@ =~= unmarked(start@.take(s as int)));
    }
    let mut visiting: HashSet<u64> = HashSet::new();
    let mut emitted: HashSet<u64> = HashSet::new();
    let mut order: Vec<u64> = Vec::new();
    proof {
        lemma_reversed_closed(graph);
        assert(start@.take(start@.len() as int) =~= start@);
        let none = Seq::<(u64, bool)>::empty();
        lemma_pushed_reverse(none, start@);
        assert(none + unmarked(start@) =~= unmarked(start@));
        let empty = Set::<u64>::empty();
        lemma_pending_pushed(rev, none, start@.reverse(), empty, empty);
        assert(visiting@.union(emitted@) =~= empty);
        let goal = topo_order(graph, start@);
        assert(goal + Seq::<u64>::empty() =~= goal);
        assert(order@ + pending(rev, stack@, empty) =~= goal);
        assert forall|p: int| 0 <= p < stack@.len() implies reachable_from(
            graph,
            start@,
            (#[trigger] stack@[p]).0,
        ) by {
            lemma_path_single(edges_of(graph), start@[p]);
            assert(start@.contains(start@[p]));
            assert(reachable(edges_of(graph), start@[p], start@[p]));
        }
        assert(order@.to_set() =~= emitted@);
    }
    while stack.len() > 0
        invariant
            graph == neighbor_graph(neighbors@),
            rev == reversed_neighbors(graph),
            is_closed(graph),
            is_closed(rev),
            rev.dom() == graph.dom(),
            walk_invariant(graph, start@, stack@, visiting@, emitted@, order@),
        decreases unvisited(rev, visiting@.union(emitted@)), stack@.len(),
    {
        let ghost full = stack@;
        let ghost visiting_before = visiting@;
        let ghost emitted_before = emitted@;
        let ghost order_before = order@;
        let (node, marked) = stack.pop().unwrap();
        let ghost base = stack@;
        proof {
            assert(base =~= full.drop_last());
            assert(full[full.len() - 1] == (node, marked));
        }
        if emitted.contains(&node) {
            proof {
                lemma_walk_skip(
                    graph,
                    start@,
                    full,
                    visiting_before,
                    emitted_before,
                    order_before,
                );
            }
        } else if marked {
            proof {
                lemma_walk_close(
                    graph,
                    start@,
                    full,
                    visiting_before,
                    emitted_before,
                    order_before,
                );
                assert(visiting_before.union(emitted_before) =~= visiting_before.remove(
                    node,
                ).union(emitted_before.insert(node)));
            }
            visiting.remove(&node);
            emitted.insert(node);
            order.push(node);
        } else {
            if !visiting.insert(node) {
                proof {
                    let q = choose|q: int|
                        0 <= q < full.len() && #[trigger] full[q] == (node, true);
                    let path = lemma_path_on_stack(graph, full, q, full.len() - 1);
                    assert(is_cycle(graph, node, path));
                    assert(lies_on_cycle(graph, node));
                    assert(reachable_from(graph, start@, full[full.len() - 1].0));
                }
                return Err(node);
            }
            let list: &Vec<u64> = neighbors.get(&node).unwrap();
            stack.push((node, true));
            let mut k: usize = 0;
            assert(stack@ =~= base.push((node, true)) + unmarked(list@.take(0)));
            while k < list.len()
                invariant
                    k <= list@.len(),
                    stack@ == base.push((node, true)) + unmarked(list@.take(k as int)),
                decreases list@.len() - k,
            {
                stack.push((list[k], false));
                k += 1;
                assert(stack@ =~= base.push((node, true)) + unmarked(list@.take(k as int)));
            }
            proof {
                assert(list@.take(list@.len() as int) =~= list@);
                lemma_walk_open(
                    graph,
                    start@,
                    full,
                    visiting_before,
                    emitted_before,
                    order_before,
                );
                let visited = visiting_before.union(emitted_before);
                assert(visiting@.union(emitted@) =~= visited.insert(node));
                lemma_unvisited_visit(rev, visited, node);
            }
        }
    }
    proof {
        assert(order@ + Seq::<u64>::empty() =~= order@);
        lemma_topo_order(graph, start@);
        assert(is_topo_order(graph, start@, order@));
        if has_cycle(graph, start@) {
            let (node, path) = choose|node: u64, path: Seq<u64>| #[trigger]
                is_cycle(graph, node, path) && reachable_from(graph, start@, node);
            assert(order@.contains(node));
            let a = choose|a: int| 0 <= a < order@.len() && order@[a] == node;
            lemma_no_cycle(graph, order@, path, a, node);
        }
    }
    Ok(order)
}

/// A walk meets exactly the nodes that can be reached from the start nodes,
/// each of them once.
pub proof fn lemma_topo_order(graph: Map<u64, Seq<u64>>, start: Seq<u64>)
    requires
        is_closed(graph),
        forall|i: int| 0 <= i < start.len() ==> graph.contains_key(#[trigger] start[i]),
    ensures
        topo_order(graph, start).no_duplicates(),
        forall|node: u64| #[trigger]
            topo_order(graph, start).contains(node) <==> reachable_from(graph, start, node),
{
    let order = topo_order(graph, start);
    let rev = reversed_neighbors(graph);
    lemma_reversed_closed(graph);
    lemma_postorder_parts(rev, start.reverse(), Set::empty());
    assert forall|node: u64| #[trigger] order.contains(node) <==> reachable_from(
        graph,
        start,
        node,
    ) by {
        if order.contains(node) {
            let i = choose|i: int| 0 <= i < order.len() && order[i] == node;
            lemma_order_reachable(graph, start, i);
        }
        if reachable_from(graph, start, node) {
            let s = choose|s: u64| #[trigger] start.contains(s) && reachable(
                edges_of(graph),
                s,
                node,
            );
            let k = choose|k: int| 0 <= k < start.len() && start[k] == s;
            assert(graph.contains_key(start[k]));
            let path = choose|path: Seq<u64>| is_path(edges_of(graph), s, path, node);
            lemma_order_complete(graph, start, s, path, node);
        }
    }
}

/// If no cycle can be reached, neighbors come before the nodes that they are
/// neighbors of.
pub proof fn lemma_topo_order_acyclic(graph: Map<u64, Seq<u64>>, start: Seq<u64>)
    requires
        is_closed(graph),
        forall|i: int| 0 <= i < start.len() ==> graph.contains_key(#[trigger] start[i]),
        !has_cycle(graph, start),
    ensures
        is_topo_order(graph, start, topo_order(graph, start)),
{
    let order = topo_order(graph, start);
    let rev = reversed_neighbors(graph);
    lemma_topo_order(graph, start);
    lemma_reversed_closed(graph);
    lemma_postorder_parts(rev, start.reverse(), Set::empty());
    assert(edges_of(rev) =~= edges_of(graph)) by {
        assert forall|e: (u64, u64)| #[trigger] edges_of(rev).contains(e) <==> edges_of(
            graph,
        ).contains(e) by {
            if graph.contains_key(e.0) {
                lemma_reversed_contains(graph[e.0], e.1);
            }
        }
    }
    assert forall|i: int| 0 <= i < order.len() implies #[trigger] neighbors_before(
        graph,
        order,
        i,
    ) by {
        let node = order[i];
        assert(order.contains(node));
        assert forall|child: u64| #[trigger] graph[node].contains(child) implies order.take(
            i,
        ).contains(child) by {
            lemma_reversed_contains(graph[node], child);
            assert(rev[node].contains(child));
            lemma_postorder_neighbors(rev, start.reverse(), Set::empty(), i, child);
            if reachable(edges_of(graph), child, node) {
                let path = choose|path: Seq<u64>| is_path(edges_of(graph), child, path, node);
                let cycle = seq![node] + path;
                assert forall|k: int| 0 <= k < cycle.len() - 1 implies #[trigger] edge_at(
                    edges_of(graph),
                    cycle,
                    k,
                ) by {
                    if k > 0 {
                        assert(edge_at(edges_of(graph), path, k - 1));
                        assert(cycle[k] == path[k - 1]);
                        assert(cycle[k + 1] == path[k]);
                    } else {
                        assert(cycle[1] == path[0]);
                    }
                }
                assert(is_cycle(graph, node, cycle));
                assert(reachable_from(graph, start, node));
            }
        }
    }
}

proof fn lemma_reversed_contains(list: Seq<u64>, node: u64)
    ensures
        list.reverse().contains(node) <==> list.contains(node),
{
    if list.contains(node) {
        let k = choose|k: int| 0 <= k < list.len() && list[k] == node;
        assert(list.reverse()[list.len() - 1 - k] == node);
    }
    if list.reverse().contains(node) {
        let k = choose|k: int| 0 <= k < list.len() && list.reverse()[k] == node;
        assert(list[list.len() - 1 - k] == node);
    }
}

proof fn lemma_order_reachable(graph: Map<u64, Seq<u64>>, start: Seq<u64>, i: int)
    requires
        is_closed(graph),
        0 <= i < topo_order(graph, start).len(),
    ensures
        reachable_from(graph, start, topo_order(graph, start)[i]),
    decreases topo_order(graph, start).len() - i,
{
    let order = topo_order(graph, start);
    let rev = reversed_neighbors(graph);
    lemma_reversed_closed(graph);
    lemma_postorder_parts(rev, start.reverse(), Set::empty());
    let node = order[i];
    if start.reverse().contains(node) {
        let k = choose|k: int| 0 <= k < start.reverse().len() && start.reverse()[k] == node;
        assert(start[start.len() - 1 - k] == node);
        assert(start.contains(node));
        lemma_path_single(edges_of(graph), node);
        assert(reachable(edges_of(graph), node, node));
    } else {
        assert(crate::dfs::has_later_pred(rev, order, i));
        let j = choose|j: int|
            i < j < order.len() && #[trigger] edges_of(rev).contains((order[j], order[i]));
        lemma_order_reachable(graph, start, j);
        let s = choose|s: u64| #[trigger] start.contains(s) && reachable(
            edges_of(graph),
            s,
            order[j],
        );
        let path = choose|path: Seq<u64>| is_path(edges_of(graph), s, path, order[j]);
        let k = choose|k: int| 0 <= k < rev[order[j]].len() && rev[order[j]][k] == node;
        assert(graph[order[j]][graph[order[j]].len() - 1 - k] == node);
        assert(graph[order[j]].contains(node));
        lemma_path_push(edges_of(graph), s, path, order[j], node);
        assert(reachable(edges_of(graph), s, node));
    }
}

/// Returns the nodes that can be reached from `start`, neighbors after the
/// nodes that they are neighbors of. If there is a cycle, returns a node of it.
pub fn topo_order_reverse(start: &[u64], neighbors: &HashMap<u64, Vec<u64>>) -> (result: Result<
    Vec<u64>,
    u64,
>)
    requires
        is_closed(neighbor_graph(neighbors@)),
        forall|i: int| 0 <= i < start@.len() ==> neighbors@.contains_key(#[trigger] start@[i]),
    ensures
        result is Err <==> has_cycle(neighbor_graph(neighbors@), start@),
        result matches Ok(order) ==> order@ == topo_order(
            neighbor_graph(neighbors@),
            start@,
        ).reverse() && is_topo_order(neighbor_graph(neighbors@), start@, order@.reverse()),
        result matches Err(node) ==> lies_on_cycle(neighbor_graph(neighbors@), node),
{
    match topo_order_forward(start, neighbors) {
        Ok(order) => {
            let mut reversed: Vec<u64> = Vec::new();
            let mut i: usize = order.len();
            while i > 0
                invariant
                    i <= order@.len(),
                    reversed@ == order@.skip(i as int).reverse(),
                decreases i,
            {
                i -= 1;
                reversed.push(order[i]);
                assert(reversed@ =~= order@.skip(i as int).reverse());
            }
            assert(order@.skip(0) =~= order@);
            assert(order@.reverse().reverse() =~= order@);
            Ok(reversed)
        },
        Err(node) => Err(node),
    }
}

/// Of the start nodes, the first one comes last, with what only it leads to: the
/// order from the others comes before it as it is. If they lead to it, it adds
/// nothing.
pub proof fn lemma_topo_order_starts(graph: Map<u64, Seq<u64>>, first: u64, rest: Seq<u64>)
    requires
        is_closed(graph),
        graph.contains_key(first),
    ensures
        topo_order(graph, rest).is_prefix_of(topo_order(graph, seq![first] + rest)),
        topo_order(graph, rest).contains(first) ==> topo_order(graph, seq![first] + rest)
            == topo_order(graph, rest),
        !topo_order(graph, rest).contains(first) ==> topo_order(graph, seq![first] + rest).len() > 0
            && topo_order(graph, seq![first] + rest).last() == first,
{
    let rev = reversed_neighbors(graph);
    let none = Set::<u64>::empty();
    let before = topo_order(graph, rest);
    lemma_reversed_closed(graph);
    assert((seq![first] + rest).reverse() =~= rest.reverse() + seq![first]);
    lemma_postorder_concat(rev, rest.reverse(), seq![first], none);
    let seen = none.union(before.to_set());
    lemma_postorder_single(rev, first, seen);
    let own = postorder(rev, seq![first], seen);
    let all = topo_order(graph, seq![first] + rest);
    assert(all == before + own);
    assert(before =~= all.take(before.len() as int));
    if before.contains(first) {
        assert(all =~= before);
    }
}

/// What a node leads to comes before it, in the order that its neighbors have on
/// their own: of them, too, the first one comes last.
pub proof fn lemma_topo_order_neighbors(graph: Map<u64, Seq<u64>>, node: u64)
    requires
        is_closed(graph),
        graph.contains_key(node),
        !lies_on_cycle(graph, node),
    ensures
        topo_order(graph, seq![node]) == topo_order(graph, graph[node]).push(node),
{
    let rev = reversed_neighbors(graph);
    let none = Set::<u64>::empty();
    let edges = edges_of(graph);
    lemma_reversed_closed(graph);
    assert(seq![node].reverse() =~= seq![node]);
    lemma_postorder_single(rev, node, none);
    let within = Set::new(|x: u64| reachable_from(graph, graph[node], x));
    let nodes = graph[node].reverse();
    assert forall|i: int| 0 <= i < nodes.len() implies within.contains(#[trigger] nodes[i]) by {
        let s = nodes[i];
        assert(graph[node][graph[node].len() - 1 - i] == s);
        lemma_path_single(edges, s);
        assert(graph[node].contains(s) && reachable(edges, s, s));
    }
    assert forall|x: u64, k: int|
        rev.contains_key(x) && within.contains(x) && 0 <= k < rev[x].len() implies within.contains(
        #[trigger] rev[x][k],
    ) by {
        let y = rev[x][k];
        assert(graph[x][graph[x].len() - 1 - k] == y);
        assert(edges.contains((x, y)));
        let s = choose|s: u64| #[trigger] graph[node].contains(s) && reachable(edges, s, x);
        let path = choose|path: Seq<u64>| is_path(edges, s, path, x);
        lemma_path_push(edges, s, path, x, y);
        assert(graph[node].contains(s) && reachable(edges, s, y));
    }
    assert(!within.contains(node)) by {
        if within.contains(node) {
            let s = choose|s: u64| #[trigger] graph[node].contains(s) && reachable(edges, s, node);
            let path = choose|path: Seq<u64>| is_path(edges, s, path, node);
            let cycle = seq![node] + path;
            assert forall|k: int| 0 <= k < cycle.len() - 1 implies #[trigger] edge_at(
                edges,
                cycle,
                k,
            ) by {
                if k > 0 {
                    assert(edge_at(edges, path, k - 1));
                    assert(cycle[k] == path[k - 1]);
                    assert(cycle[k + 1] == path[k]);
                } else {
                    assert(cycle[1] == path[0]);
                }
            }
            assert(is_cycle(graph, node, cycle));
        }
    }
    lemma_postorder_within(rev, nodes, none.insert(node), none, within);
}

} // verus!
