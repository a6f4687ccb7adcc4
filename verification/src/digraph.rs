//! The mathematical model of a directed graph with an order of its nodes.
//!
//! A graph is the sequence of its nodes, each with the sequence of the nodes
//! that its edges lead to.

use vstd::prelude::*;

use crate::dfs::edges_of;
use crate::dfs::is_closed;
use crate::index_collections::keys_of;
use crate::seq_util::dedup;
use crate::seq_util::lemma_dedup;

verus! {

/// Whether the graph has the node.
pub open spec fn has_node(graph: Seq<(u64, Seq<u64>)>, node: u64) -> bool {
    keys_of(graph).contains(node)
}

/// The place of a node in the graph.
pub open spec fn place_of(graph: Seq<(u64, Seq<u64>)>, node: u64) -> int {
    keys_of(graph).index_of(node)
}

/// The nodes that the edges out of a node lead to.
pub open spec fn children_of(graph: Seq<(u64, Seq<u64>)>, node: u64) -> Seq<u64> {
    graph[place_of(graph, node)].1
}

/// Whether the graph is in canonical form: every node and every edge occurs
/// once, and both ends of every edge are nodes.
pub open spec fn is_canonical(graph: Seq<(u64, Seq<u64>)>) -> bool {
    &&& keys_of(graph).no_duplicates()
    &&& forall|i: int| 0 <= i < graph.len() ==> (#[trigger] graph[i]).1.no_duplicates()
    &&& forall|i: int, j: int|
        0 <= i < graph.len() && 0 <= j < graph[i].1.len() ==> has_node(
            graph,
            #[trigger] graph[i].1[j],
        )
}

/// The edges of the graph.
pub open spec fn edge_set(graph: Seq<(u64, Seq<u64>)>) -> Set<(u64, u64)> {
    Set::new(|e: (u64, u64)| has_node(graph, e.0) && children_of(graph, e.0).contains(e.1))
}

/// The ends of a list of edges, in order.
pub open spec fn endpoints(edges: Seq<(u64, u64)>) -> Seq<u64>
    decreases edges.len(),
{
    if edges.len() == 0 {
        Seq::empty()
    } else {
        endpoints(edges.drop_last()).push(edges.last().0).push(edges.last().1)
    }
}

/// Where the edges of a list that leave `node` lead to, in order.
pub open spec fn targets_from(edges: Seq<(u64, u64)>, node: u64) -> Seq<u64>
    decreases edges.len(),
{
    if edges.len() == 0 {
        Seq::empty()
    } else {
        let front = targets_from(edges.drop_last(), node);
        if edges.last().0 == node {
            front.push(edges.last().1)
        } else {
            front
        }
    }
}

/// The graph with the given edges: its nodes are the ends of the edges in the
/// order in which they first occur, and so are the children of each node.
pub open spec fn graph_of(edges: Seq<(u64, u64)>) -> Seq<(u64, Seq<u64>)> {
    dedup(endpoints(edges)).map_values(|node: u64| (node, dedup(targets_from(edges, node))))
}

/// Both ends of an edge are endpoints.
pub proof fn lemma_targets_are_endpoints(edges: Seq<(u64, u64)>, node: u64, target: u64)
    requires
        targets_from(edges, node).contains(target),
    ensures
        endpoints(edges).contains(target),
        endpoints(edges).contains(node),
    decreases edges.len(),
{
    let list = targets_from(edges, node);
    let i = choose|i: int| 0 <= i < list.len() && list[i] == target;
    let front = edges.drop_last();
    let ends = endpoints(edges);
    if edges.last().0 == node && i == list.len() - 1 {
        assert(ends[ends.len() - 1] == target);
        assert(ends[ends.len() - 2] == node);
    } else {
        assert(targets_from(front, node)[i] == target);
        lemma_targets_are_endpoints(front, node, target);
        let j = choose|j: int| 0 <= j < endpoints(front).len() && endpoints(front)[j] == target;
        let k = choose|k: int| 0 <= k < endpoints(front).len() && endpoints(front)[k] == node;
        assert(ends[j] == target);
        assert(ends[k] == node);
    }
}

/// The graph of a list of edges is in canonical form.
pub proof fn lemma_graph_of_canonical(edges: Seq<(u64, u64)>)
    ensures
        is_canonical(graph_of(edges)),
        keys_of(graph_of(edges)) == dedup(endpoints(edges)),
{
    let graph = graph_of(edges);
    lemma_dedup(endpoints(edges));
    assert(keys_of(graph) =~= dedup(endpoints(edges)));
    assert forall|i: int| 0 <= i < graph.len() implies (#[trigger] graph[i]).1.no_duplicates() by {
        lemma_dedup(targets_from(edges, graph[i].0));
    }
    assert forall|i: int, j: int| 0 <= i < graph.len() && 0 <= j < graph[i].1.len() implies has_node(
        graph,
        #[trigger] graph[i].1[j],
    ) by {
        let node = graph[i].0;
        lemma_dedup(targets_from(edges, node));
        assert(graph[i].1.contains(graph[i].1[j]));
        lemma_targets_are_endpoints(edges, node, graph[i].1[j]);
        assert(dedup(endpoints(edges)).contains(graph[i].1[j]));
    }
}

/// The graph of a list of edges has exactly these edges.
pub proof fn lemma_graph_of_edges(edges: Seq<(u64, u64)>)
    ensures
        forall|e: (u64, u64)| #![auto] edge_set(graph_of(edges)).contains(e) <==> edges.contains(e),
{
    let graph = graph_of(edges);
    lemma_graph_of_canonical(edges);
    assert forall|e: (u64, u64)| #![auto]
        edge_set(graph).contains(e) <==> edges.contains(e) by {
        lemma_targets_from(edges, e.0, e.1);
        lemma_dedup(targets_from(edges, e.0));
        lemma_dedup(endpoints(edges));
        if edges.contains(e) {
            lemma_targets_are_endpoints(edges, e.0, e.1);
            assert(dedup(endpoints(edges)).contains(e.0));
        }
        if has_node(graph, e.0) {
            let p = place_of(graph, e.0);
            assert(keys_of(graph)[p] == e.0);
            assert(graph[p] == (e.0, dedup(targets_from(edges, e.0))));
        }
    }
}

proof fn lemma_targets_from(edges: Seq<(u64, u64)>, node: u64, target: u64)
    ensures
        targets_from(edges, node).contains(target) <==> edges.contains((node, target)),
    decreases edges.len(),
{
    if edges.len() > 0 {
        let front = edges.drop_last();
        lemma_targets_from(front, node, target);
        let list = targets_from(edges, node);
        let sub = targets_from(front, node);
        if list.contains(target) {
            let i = choose|i: int| 0 <= i < list.len() && list[i] == target;
            if i < sub.len() {
                assert(sub[i] == target);
                let j = choose|j: int| 0 <= j < front.len() && front[j] == (node, target);
                assert(edges[j] == (node, target));
            } else {
                assert(edges.last() == (node, target));
            }
        }
        if edges.contains((node, target)) {
            let j = choose|j: int| 0 <= j < edges.len() && edges[j] == (node, target);
            if j < front.len() {
                assert(front[j] == (node, target));
                let i = choose|i: int| 0 <= i < sub.len() && sub[i] == target;
                assert(list[i] == target);
            } else {
                assert(list[list.len() - 1] == target);
            }
        }
    }
}

/// The graph without the order of its nodes.
pub open spec fn adjacency_map(graph: Seq<(u64, Seq<u64>)>) -> Map<u64, Seq<u64>> {
    Map::new(|node: u64| has_node(graph, node), |node: u64| children_of(graph, node))
}

/// A graph in canonical form is closed without the order of its nodes, and has
/// the same edges.
pub proof fn lemma_adjacency_map(graph: Seq<(u64, Seq<u64>)>)
    requires
        is_canonical(graph),
    ensures
        is_closed(adjacency_map(graph)),
        edges_of(adjacency_map(graph)) == edge_set(graph),
{
    let map = adjacency_map(graph);
    vstd::seq_lib::seq_to_set_is_finite(keys_of(graph));
    assert(map.dom() =~= keys_of(graph).to_set());
    assert forall|node: u64, k: int|
        map.contains_key(node) && 0 <= k < map[node].len() implies map.contains_key(
        #[trigger] map[node][k],
    ) by {
        let p = place_of(graph, node);
        assert(keys_of(graph)[p] == node);
        assert(has_node(graph, graph[p].1[k]));
    }
    assert(edges_of(map) =~= edge_set(graph));
}

} // verus!
