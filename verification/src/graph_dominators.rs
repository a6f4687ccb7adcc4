//! The "closest common dominator" algorithm for directed graphs.
//!
//! Loosely speaking the algorithm finds the choke point for a set of nodes in
//! a directed graph with an entry node: the node closest to the set that all
//! paths from the entry node to the set go through. What that means is stated
//! in [`crate::dominance`].
//!
//! For any flow graph there is a dominator tree: its root is the entry node,
//! and the children of a node are the nodes that it immediately dominates. The
//! closest common dominator of a set of nodes is their lowest common ancestor
//! in that tree. The tree is built in [`crate::dominator_tree`].

use std::collections::HashMap;
use std::collections::HashSet;

use indexmap::IndexMap;
use indexmap::IndexSet;
use vstd::prelude::*;

use crate::dfs::has_later_pred;
use crate::dfs::is_closed;
use crate::dfs::lemma_pending_pushed;
use crate::dfs::lemma_postorder;
use crate::dfs::lemma_postorder_single;
use crate::dfs::lemma_unvisited_visit;
use crate::dfs::pending;
use crate::dfs::postorder;
use crate::dfs::postorder_from;
use crate::dfs::pushed;
use crate::dfs::unvisited;
use crate::digraph::adjacency_map;
use crate::digraph::children_of;
use crate::digraph::edge_set;
use crate::digraph::endpoints;
use crate::digraph::graph_of;
use crate::digraph::has_node;
use crate::digraph::is_canonical;
use crate::digraph::lemma_adjacency_map;
use crate::digraph::lemma_graph_of_canonical;
use crate::digraph::place_of;
use crate::digraph::targets_from;
use crate::dominance::dominates;
use crate::dominance::edge_at;
use crate::dominance::is_closest_common_dominator;
use crate::dominance::is_common_dominator;
use crate::dominance::is_immediate_dominator;
use crate::dominance::is_path;
use crate::dominance::reachable;
use crate::dominance::strictly_dominates;
use crate::dominator_tree::calculate_immediate_dominators;
use crate::dominator_tree::find_lowest_common_ancestor;
use crate::dominator_tree::has_higher_pred;
use crate::dominator_tree::higher_pred;
use crate::dominator_tree::id_edges;
use crate::dominator_tree::is_ancestor;
use crate::dominator_tree::is_common_ancestor;
use crate::dominator_tree::is_dominator_tree;
use crate::dominator_tree::lemma_ancestors_are_dominators;
use crate::dominator_tree::lemma_descending_path;
use crate::dominator_tree::postorder_numbered;
use crate::dominator_tree::processed;
use crate::dominator_tree::start_id;
use crate::index_collections::adjacency;
use crate::index_collections::keys_of;
use crate::index_collections::map_contains_key;
use crate::index_collections::map_entry_or_default;
use crate::index_collections::map_get;
use crate::index_collections::map_get_index;
use crate::index_collections::map_len;
use crate::index_collections::map_new;
use crate::index_collections::members;
use crate::index_collections::set_get_index;
use crate::index_collections::set_insert;
use crate::index_collections::set_len;
use crate::seq_util::dedup;
use crate::seq_util::lemma_dedup;
use crate::seq_util::lemma_dedup_push;
use crate::seq_util::lemma_push_contains;
use crate::seq_util::lemma_push_to_set;

verus! {

broadcast use vstd::std_specs::hash::group_hash_axioms;

/// An immutable directed graph with a minimal interface for iterating over
/// nodes and their adjacent nodes.
#[derive(Debug)]
pub struct SimpleDirectedGraph {
    /// The children of each node. Both ends of every edge have an entry, even
    /// if no edge leaves them.
    adj: IndexMap<u64, IndexSet<u64>>,
}

impl View for SimpleDirectedGraph {
    type V = Seq<(u64, Seq<u64>)>;

    closed spec fn view(&self) -> Seq<(u64, Seq<u64>)> {
        adjacency(self.adj)
    }
}

/// The edges of a graph in the order of its nodes.
pub open spec fn edge_list(graph: Seq<(u64, Seq<u64>)>) -> Seq<(u64, u64)>
    decreases graph.len(),
{
    if graph.len() == 0 {
        Seq::empty()
    } else {
        edge_list(graph.drop_last()) + graph.last().1.map_values(
            |child: u64| (graph.last().0, child),
        )
    }
}

/// The items of a set as a vector.
fn members_to_vec(set: &IndexSet<u64>) -> (items: Vec<u64>)
    ensures
        items@ == members(*set),
{
    let len: usize = set_len(set);
    let mut items: Vec<u64> = Vec::new();
    let mut i: usize = 0;
    while i < len
        invariant
            len == members(*set).len(),
            i <= len,
            items@ == members(*set).take(i as int),
        decreases len - i,
    {
        if let Some(item) = set_get_index(set, i) {
            items.push(item);
        }
        i += 1;
        assert(items@ =~= members(*set).take(i as int));
    }
    assert(members(*set).take(len as int) =~= members(*set));
    items
}

/// The first edge of a node that is not in the graph yet adds the node.
proof fn lemma_graph_of_push(edges: Seq<(u64, u64)>, parent: u64, child: u64)
    ensures
        ({
            let old_graph = graph_of(edges);
            let old_nodes = dedup(endpoints(edges));
            let mid_nodes = if old_nodes.contains(parent) {
                old_nodes
            } else {
                old_nodes.push(parent)
            };
            let new_nodes = if mid_nodes.contains(child) {
                mid_nodes
            } else {
                mid_nodes.push(child)
            };
            let list = dedup(targets_from(edges, parent));
            let new_list = if list.contains(child) {
                list
            } else {
                list.push(child)
            };
            let new_edges = edges.push((parent, child));
            &&& dedup(endpoints(new_edges)) == new_nodes
            &&& dedup(targets_from(new_edges, parent)) == new_list
            &&& forall|node: u64|
                node != parent ==> #[trigger] targets_from(new_edges, node) == targets_from(
                    edges,
                    node,
                )
            &&& forall|node: u64|
                !old_nodes.contains(node) ==> #[trigger] targets_from(edges, node)
                    == Seq::<u64>::empty()
        }),
{
    let new_edges = edges.push((parent, child));
    assert(new_edges.drop_last() =~= edges);
    lemma_dedup_push(endpoints(edges), parent);
    lemma_dedup_push(endpoints(edges).push(parent), child);
    lemma_dedup_push(targets_from(edges, parent), child);
    assert forall|node: u64| !dedup(endpoints(edges)).contains(node) implies #[trigger] targets_from(
        edges,
        node,
    ) == Seq::<u64>::empty() by {
        lemma_dedup(endpoints(edges));
        if targets_from(edges, node).len() > 0 {
            let target = targets_from(edges, node)[0];
            assert(targets_from(edges, node).contains(target));
            crate::digraph::lemma_targets_are_endpoints(edges, node, target);
        }
    }
}

impl SimpleDirectedGraph {
    #[verifier::type_invariant]
    spec fn canonical(self) -> bool {
        is_canonical(adjacency(self.adj))
    }

    /// Constructs a graph from a list of edges.
    pub fn new(edges: &[(u64, u64)]) -> (graph: Self)
        ensures
            graph@ == graph_of(edges@),
    {
        let mut adj: IndexMap<u64, IndexSet<u64>> = map_new();
        let mut i: usize = 0;
        assert(graph_of(edges@.take(0)) =~= Seq::<(u64, Seq<u64>)>::empty());
        while i < edges.len()
            invariant
                i <= edges@.len(),
                adjacency(adj) == graph_of(edges@.take(i as int)),
            decreases edges@.len() - i,
        {
            let (parent, child) = edges[i];
            let ghost before = edges@.take(i as int);
            let ghost g0 = graph_of(before);
            proof {
                lemma_graph_of_canonical(before);
                lemma_graph_of_push(before, parent, child);
                assert(edges@.take(i + 1) =~= before.push((parent, child)));
                if keys_of(g0).contains(parent) {
                    assert(g0[place_of(g0, parent)].0 == parent) by {
                        assert(keys_of(g0)[place_of(g0, parent)] == parent);
                    }
                }
            }
            let set: &mut IndexSet<u64> = map_entry_or_default(&mut adj, parent);
            set_insert(set, child);
            let ghost g1 = adjacency(adj);
            proof {
                let list = dedup(targets_from(before, parent));
                let new_list = dedup(targets_from(before.push((parent, child)), parent));
                if keys_of(g0).contains(parent) {
                    let p = place_of(g0, parent);
                    assert(g0[p] == (parent, list));
                    assert(g1 == g0.update(p, (parent, new_list)));
                    assert(keys_of(g1) =~= keys_of(g0));
                } else {
                    assert(list == Seq::<u64>::empty());
                    assert(g1 == g0.push((parent, new_list)));
                    assert(keys_of(g1) =~= keys_of(g0).push(parent));
                }
                if keys_of(g1).contains(child) {
                    let p = keys_of(g1).index_of(child);
                    assert(keys_of(g1)[p] == child);
                    assert(g1[p].0 == child);
                }
            }
            let _child_set: &mut IndexSet<u64> = map_entry_or_default(&mut adj, child);
            proof {
                let g2 = adjacency(adj);
                let after = before.push((parent, child));
                lemma_graph_of_canonical(after);
                if keys_of(g1).contains(child) {
                    let p = keys_of(g1).index_of(child);
                    assert(g2 =~= g1);
                } else {
                    assert(targets_from(before, child) == Seq::<u64>::empty()) by {
                        if dedup(endpoints(before)).contains(child) {
                            assert(keys_of(g0).contains(child));
                            let q = keys_of(g0).index_of(child);
                            assert(keys_of(g1)[q] == child);
                        }
                    }
                    assert(child != parent) by {
                        if keys_of(g0).contains(parent) {
                            assert(keys_of(g1)[place_of(g0, parent)] == parent);
                        } else {
                            assert(keys_of(g1).last() == parent);
                        }
                    }
                    assert(g2 == g1.push((child, Seq::<u64>::empty())));
                }
                assert(g2 =~= graph_of(after));
            }
            i += 1;
        }
        proof {
            assert(edges@.take(edges@.len() as int) =~= edges@);
            lemma_graph_of_canonical(edges@);
        }
        SimpleDirectedGraph { adj }
    }

    /// Returns the nodes in this graph.
    pub fn nodes(&self) -> (nodes: Vec<u64>)
        ensures
            nodes@ == keys_of(self@),
    {
        let len: usize = map_len(&self.adj);
        let mut nodes: Vec<u64> = Vec::new();
        let mut i: usize = 0;
        while i < len
            invariant
                len == self@.len(),
                i <= len,
                nodes@ == keys_of(self@).take(i as int),
            decreases len - i,
        {
            if let Some((node, _)) = map_get_index(&self.adj, i) {
                nodes.push(node);
            }
            i += 1;
            assert(nodes@ =~= keys_of(self@).take(i as int));
        }
        assert(keys_of(self@).take(len as int) =~= keys_of(self@));
        nodes
    }

    /// Returns the number of nodes in this graph.
    pub fn num_nodes(&self) -> (num: usize)
        ensures
            num == self@.len(),
    {
        map_len(&self.adj)
    }

    /// Returns the edges in this graph.
    pub fn edges(&self) -> (edges: Vec<(u64, u64)>)
        ensures
            edges@ == edge_list(self@),
    {
        let len: usize = map_len(&self.adj);
        let mut edges: Vec<(u64, u64)> = Vec::new();
        let mut i: usize = 0;
        while i < len
            invariant
                len == self@.len(),
                i <= len,
                edges@ == edge_list(self@.take(i as int)),
            decreases len - i,
        {
            if let Some((parent, set)) = map_get_index(&self.adj, i) {
                let children: Vec<u64> = members_to_vec(set);
                let ghost base = edges@;
                let ghost pairs = children@.map_values(|child: u64| (parent, child));
                let mut j: usize = 0;
                while j < children.len()
                    invariant
                        j <= children@.len(),
                        pairs == children@.map_values(|child: u64| (parent, child)),
                        edges@ == base + pairs.take(j as int),
                    decreases children@.len() - j,
                {
                    edges.push((parent, children[j]));
                    j += 1;
                    assert(edges@ =~= base + pairs.take(j as int));
                }
                proof {
                    assert(pairs.take(children@.len() as int) =~= pairs);
                    let longer = self@.take(i + 1);
                    assert(longer.drop_last() =~= self@.take(i as int));
                    assert(longer.last() == (parent, children@));
                    assert(edges@ =~= edge_list(longer));
                }
            }
            i += 1;
        }
        assert(self@.take(len as int) =~= self@);
        edges
    }

    /// Returns the adjacent nodes for the given node, or `None` if the node is
    /// not in the graph.
    pub fn adjacent_nodes(&self, node: u64) -> (adjacent: Option<Vec<u64>>)
        ensures
            adjacent is Some <==> has_node(self@, node),
            adjacent matches Some(nodes) ==> nodes@ == children_of(self@, node),
    {
        proof {
            use_type_invariant(self);
        }
        match map_get(&self.adj, node) {
            Some(set) => {
                proof {
                    let i = choose|i: int| 0 <= i < self@.len() && self@[i] == (node, members(*set));
                    assert(keys_of(self@)[i] == node);
                    assert(keys_of(self@)[place_of(self@, node)] == node);
                }
                Some(members_to_vec(set))
            },
            None => None,
        }
    }

    /// Returns whether this graph contains the given node.
    pub fn contains_node(&self, node: u64) -> (found: bool)
        ensures
            found == has_node(self@, node),
    {
        map_contains_key(&self.adj, node)
    }

    /// Returns a postorder traversal of the nodes in this graph starting from
    /// the given node.
    pub fn get_postorder(&self, start_node: u64) -> (order: Vec<u64>)
        requires
            has_node(self@, start_node),
        ensures
            order@ == postorder_from(adjacency_map(self@), start_node),
    {
        post_order(start_node, self)
    }
}

/// Traverses nodes from `start_node` in post-order.
fn post_order(start_node: u64, graph: &SimpleDirectedGraph) -> (order: Vec<u64>)
    requires
        has_node(graph@, start_node),
    ensures
        order@ == postorder_from(adjacency_map(graph@), start_node),
{
    let ghost map = adjacency_map(graph@);
    proof {
        use_type_invariant(graph);
        lemma_adjacency_map(graph@);
    }
    let ghost goal = postorder_from(map, start_node);
    let mut order: Vec<u64> = Vec::new();
    let mut stack: Vec<(u64, bool)> = vec![(start_node, false)];
    let mut visited: HashSet<u64> = HashSet::new();
    proof {
        assert(stack@.drop_last() =~= Seq::<(u64, bool)>::empty());
        reveal_with_fuel(pending, 2);
        assert(visited@ =~= Set::<u64>::empty());
        assert(order@ + pending(map, stack@, visited@) =~= goal);
    }
    while stack.len() > 0
        invariant
            map == adjacency_map(graph@),
            is_closed(map),
            forall|i: int| 0 <= i < stack@.len() ==> map.contains_key((#[trigger] stack@[i]).0),
            order@ + pending(map, stack@, visited@) == goal,
        decreases unvisited(map, visited@), stack@.len(),
    {
        let ghost full = stack@;
        let (node, marked) = stack.pop().unwrap();
        let ghost base = stack@;
        let ghost before = visited@;
        assert(base =~= full.drop_last());
        assert(full.last() == (node, marked));
        assert(map.contains_key(full[full.len() - 1].0));
        assert(forall|i: int| 0 <= i < base.len() ==> map.contains_key((#[trigger] base[i]).0)) by {
            assert(forall|i: int| 0 <= i < base.len() ==> base[i] == full[i]);
        }
        if marked {
            // The nodes below this one have been emitted.
            proof {
                let rest = pending(map, base, before);
                assert(order@ + (seq![node] + rest) =~= order@.push(node) + rest);
            }
            order.push(node);
        } else if visited.insert(node) {
            assert(visited@ =~= before.insert(node));
            // The node is emitted after its children, which are pushed in
            // reverse, so that they are processed in their own order.
            let neighbors: Vec<u64> = graph.adjacent_nodes(node).unwrap();
            stack.push((node, true));
            let ghost marked_stack = base.push((node, true));
            let mut i: usize = neighbors.len();
            assert(neighbors@.skip(i as int) =~= Seq::<u64>::empty());
            while i > 0
                invariant
                    i <= neighbors@.len(),
                    stack@ == pushed(marked_stack, neighbors@.skip(i as int), visited@),
                    forall|k: int|
                        0 <= k < stack@.len() ==> map.contains_key((#[trigger] stack@[k]).0),
                    forall|k: int|
                        0 <= k < neighbors@.len() ==> map.contains_key(#[trigger] neighbors@[k]),
                decreases i,
            {
                i -= 1;
                let neighbor: u64 = neighbors[i];
                let ghost tail = neighbors@.skip(i as int);
                assert(tail.drop_first() =~= neighbors@.skip(i + 1));
                assert(tail[0] == neighbor);
                if !visited.contains(&neighbor) {
                    stack.push((neighbor, false));
                }
            }
            proof {
                assert(neighbors@.skip(0) =~= neighbors@);
                lemma_pending_pushed(map, marked_stack, neighbors@, visited@, visited@);
                lemma_postorder_single(map, node, before);
                let below = postorder(map, neighbors@, visited@);
                lemma_push_to_set(below, node);
                let seen = visited@.union(below.to_set());
                assert(before.union(below.push(node).to_set()) =~= seen);
                assert(marked_stack.drop_last() =~= base);
                let rest = pending(map, base, seen);
                assert(pending(map, stack@, visited@) == below + (seq![node] + rest));
                assert(below + (seq![node] + rest) =~= below.push(node) + rest);
                lemma_unvisited_visit(map, before, node);
            }
        } else {
            proof {
                assert(visited@ =~= before);
                lemma_postorder_single(map, node, before);
                let none = Seq::<u64>::empty();
                assert(before.union(none.to_set()) =~= before);
                let rest = pending(map, base, before);
                assert(none + rest =~= rest);
            }
        }
    }
    assert(order@ + Seq::<u64>::empty() =~= order@);
    order
}

/// A FlowGraph is a directed graph with a designated start node.
///
/// Any node in the graph can be the start node. Some nodes may be unreachable
/// from it, it may have incoming edges, and the graph may be disconnected.
#[derive(Debug)]
pub struct FlowGraph {
    /// The graph.
    pub graph: SimpleDirectedGraph,
    /// The start node.
    pub start_node: u64,
}

impl FlowGraph {
    /// Constructs a new FlowGraph.
    pub fn new(graph: SimpleDirectedGraph, start_node: u64) -> (flow_graph: Self)
        ensures
            flow_graph.graph == graph,
            flow_graph.start_node == start_node,
    {
        FlowGraph { graph, start_node }
    }
}

/// Errors that can occur while finding dominators.
#[derive(Debug, PartialEq, Eq, Structural, Clone, Copy)]
pub enum DominatorFinderError {
    /// The flow graph is invalid: some nodes are unreachable from the start
    /// node.
    UnreachableNodesInFlowGraph,
    /// The target set is empty.
    EmptyTargetSet,
    /// The target set contains a node which is not in the flow graph.
    UnknownNodeInTargetSet,
}

/// Calculates the dominators in a flow graph. Also has a method for finding the
/// closest common dominator of a set of nodes.
pub struct DominatorFinder {
    /// Map from nodes to their places in postorder. The start node is last.
    node_to_id: HashMap<u64, usize>,
    /// The inverse of `node_to_id`.
    id_to_node: Vec<u64>,
    /// The immediate dominator for each node. That of the start node is the
    /// start node itself.
    immediate_dominators: Vec<usize>,
    /// The graph that the dominators belong to.
    flow: Ghost<(Seq<(u64, Seq<u64>)>, u64)>,
    /// The predecessors of each node, by the numbers of the nodes.
    preds: Ghost<Seq<Vec<usize>>>,
}

/// Whether the numbers of the nodes in `order` stand for the nodes, and `preds`
/// for the edges between them.
spec fn numbers_graph(
    edges: Set<(u64, u64)>,
    start: u64,
    order: Seq<u64>,
    preds: Seq<Vec<usize>>,
) -> bool {
    &&& postorder_numbered(preds)
    &&& order.len() == preds.len()
    &&& order.no_duplicates()
    &&& order.last() == start
    &&& forall|a: usize, b: usize|
        a < order.len() && b < order.len() ==> (#[trigger] id_edges(preds).contains((a, b))
            <==> edges.contains((order[a as int], order[b as int])))
    &&& forall|x: u64, y: u64| #[trigger]
        edges.contains((x, y)) && order.contains(x) ==> order.contains(y)
}

proof fn lemma_path_in_order(
    edges: Set<(u64, u64)>,
    start: u64,
    order: Seq<u64>,
    preds: Seq<Vec<usize>>,
    path: Seq<u64>,
    end: u64,
    i: int,
)
    requires
        numbers_graph(edges, start, order, preds),
        is_path(edges, start, path, end),
        0 <= i < path.len(),
    ensures
        order.contains(path[i]),
    decreases i,
{
    if i == 0 {
        assert(order[order.len() - 1] == start);
    } else {
        lemma_path_in_order(edges, start, order, preds, path, end, i - 1);
        assert(edge_at(edges, path, i - 1));
        assert(edges.contains((path[i - 1], path[i])));
    }
}

/// Dominance between numbers is dominance between the nodes they stand for.
proof fn lemma_numbered_dominance(
    edges: Set<(u64, u64)>,
    start: u64,
    order: Seq<u64>,
    preds: Seq<Vec<usize>>,
    a: usize,
    b: usize,
)
    requires
        numbers_graph(edges, start, order, preds),
        a < order.len(),
        b < order.len(),
    ensures
        dominates(id_edges(preds), start_id(preds), a, b) <==> dominates(
            edges,
            start,
            order[a as int],
            order[b as int],
        ),
{
    let ids = id_edges(preds);
    let n = order.len();
    if dominates(ids, start_id(preds), a, b) {
        assert forall|path: Seq<u64>| #[trigger]
            is_path(edges, start, path, order[b as int]) implies path.contains(
            order[a as int],
        ) by {
            let numbers = path.map_values(|x: u64| order.index_of(x) as usize);
            assert forall|i: int| 0 <= i < path.len() implies (#[trigger] numbers[i]) < n
                && order[numbers[i] as int] == path[i] by {
                lemma_path_in_order(edges, start, order, preds, path, order[b as int], i);
            }
            assert forall|i: int| 0 <= i < numbers.len() - 1 implies #[trigger] edge_at(
                ids,
                numbers,
                i,
            ) by {
                assert(edge_at(edges, path, i));
                assert(order[numbers[i] as int] == path[i]);
                assert(order[numbers[i + 1] as int] == path[i + 1]);
            }
            assert(order[numbers[0] as int] == path[0]);
            assert(numbers[0] == start_id(preds));
            assert(order[numbers[path.len() - 1] as int] == path[path.len() - 1]);
            assert(numbers.last() == b);
            assert(is_path(ids, start_id(preds), numbers, b));
            let i = choose|i: int| 0 <= i < numbers.len() && numbers[i] == a;
            assert(path[i] == order[a as int]);
        }
    }
    if dominates(edges, start, order[a as int], order[b as int]) {
        assert forall|numbers: Seq<usize>| #[trigger]
            is_path(ids, start_id(preds), numbers, b) implies numbers.contains(a) by {
            let path = numbers.map_values(|x: usize| order[x as int]);
            assert forall|i: int| 0 <= i < numbers.len() implies (#[trigger] numbers[i]) < n by {
                if i > 0 {
                    assert(edge_at(ids, numbers, i - 1));
                }
            }
            assert forall|i: int| 0 <= i < path.len() - 1 implies #[trigger] edge_at(
                edges,
                path,
                i,
            ) by {
                assert(edge_at(ids, numbers, i));
                assert(numbers[i] < n);
                assert(numbers[i + 1] < n);
                assert(ids.contains((numbers[i], numbers[i + 1])));
            }
            assert(is_path(edges, start, path, order[b as int]));
            let i = choose|i: int| 0 <= i < path.len() && path[i] == order[a as int];
            assert(order[numbers[i] as int] == order[a as int]);
            assert(numbers[i] == a);
        }
    }
}

/// A dominator of a node of the graph is a node of the graph.
proof fn lemma_dominator_in_order(
    edges: Set<(u64, u64)>,
    start: u64,
    order: Seq<u64>,
    preds: Seq<Vec<usize>>,
    dom: u64,
    b: usize,
)
    requires
        numbers_graph(edges, start, order, preds),
        b < order.len(),
        dominates(edges, start, dom, order[b as int]),
    ensures
        order.contains(dom),
{
    let numbers = lemma_descending_path(preds, b);
    let path = numbers.map_values(|x: usize| order[x as int]);
    let ids = id_edges(preds);
    assert forall|i: int| 0 <= i < path.len() - 1 implies #[trigger] edge_at(edges, path, i) by {
        assert(edge_at(ids, numbers, i));
        assert(numbers[i] < order.len());
        assert(numbers[i + 1] < order.len());
        assert(ids.contains((numbers[i], numbers[i + 1])));
    }
    assert(is_path(edges, start, path, order[b as int]));
    let i = choose|i: int| 0 <= i < path.len() && path[i] == dom;
    lemma_path_in_order(edges, start, order, preds, path, order[b as int], i);
}

/// The immediate dominator of a node is what the table says.
proof fn lemma_numbered_immediate_dominator(
    edges: Set<(u64, u64)>,
    start: u64,
    order: Seq<u64>,
    preds: Seq<Vec<usize>>,
    idoms: Seq<usize>,
    b: usize,
)
    requires
        numbers_graph(edges, start, order, preds),
        is_dominator_tree(preds, idoms),
        b < order.len() - 1,
    ensures
        idoms[b as int] < order.len(),
        is_immediate_dominator(edges, start, order[idoms[b as int] as int], order[b as int]),
{
    let ids = id_edges(preds);
    let s = start_id(preds);
    let up = idoms[b as int];
    assert(is_immediate_dominator(ids, s, up, b));
    crate::dominator_tree::lemma_dominator_is_higher(preds, up, b);
    lemma_numbered_dominance(edges, start, order, preds, up, b);
    assert forall|other: u64| #[trigger]
        strictly_dominates(edges, start, other, order[b as int]) implies dominates(
        edges,
        start,
        other,
        order[up as int],
    ) by {
        lemma_dominator_in_order(edges, start, order, preds, other, b);
        let o = order.index_of(other) as usize;
        assert(order[o as int] == other);
        lemma_numbered_dominance(edges, start, order, preds, o, b);
        assert(strictly_dominates(ids, s, o, b));
        lemma_numbered_dominance(edges, start, order, preds, o, up);
    }
}

proof fn lemma_edge_list_push(graph: Seq<(u64, Seq<u64>)>, i: int, e: (u64, u64))
    requires
        0 <= i <= graph.len(),
    ensures
        edge_list(graph.take(i)).contains(e) <==> exists|k: int|
            0 <= k < i && (#[trigger] graph[k]).0 == e.0 && graph[k].1.contains(e.1),
    decreases i,
{
    if i > 0 {
        let longer = graph.take(i);
        let shorter = graph.take(i - 1);
        assert(longer.drop_last() =~= shorter);
        lemma_edge_list_push(graph, i - 1, e);
        let last = graph[i - 1];
        let pairs = last.1.map_values(|child: u64| (last.0, child));
        assert(longer.last() == last);
        assert(edge_list(longer) =~= edge_list(shorter) + pairs);
        if edge_list(longer).contains(e) {
            let j = choose|j: int| 0 <= j < edge_list(longer).len() && edge_list(longer)[j] == e;
            if j < edge_list(shorter).len() {
                assert(edge_list(shorter)[j] == e);
                let k = choose|k: int|
                    0 <= k < i - 1 && (#[trigger] graph[k]).0 == e.0 && graph[k].1.contains(e.1);
            } else {
                let m = j - edge_list(shorter).len();
                assert(pairs[m] == e);
                assert(last.1[m] == e.1);
            }
        }
        if exists|k: int| 0 <= k < i && (#[trigger] graph[k]).0 == e.0 && graph[k].1.contains(e.1) {
            let k = choose|k: int|
                0 <= k < i && (#[trigger] graph[k]).0 == e.0 && graph[k].1.contains(e.1);
            if k < i - 1 {
                assert(edge_list(shorter).contains(e));
                let j = choose|j: int|
                    0 <= j < edge_list(shorter).len() && edge_list(shorter)[j] == e;
                assert(edge_list(longer)[j] == e);
            } else {
                let m = choose|m: int| 0 <= m < last.1.len() && last.1[m] == e.1;
                assert(pairs[m] == e);
                assert(edge_list(longer)[edge_list(shorter).len() + m] == e);
            }
        }
    }
}

/// The list of the edges holds the edges of the graph.
pub proof fn lemma_edge_list(graph: Seq<(u64, Seq<u64>)>)
    requires
        is_canonical(graph),
    ensures
        forall|e: (u64, u64)| #[trigger]
            edge_list(graph).contains(e) <==> edge_set(graph).contains(e),
{
    assert forall|e: (u64, u64)| #[trigger] edge_list(graph).contains(e) <==> edge_set(
        graph,
    ).contains(e) by {
        lemma_edge_list_push(graph, graph.len() as int, e);
        assert(graph.take(graph.len() as int) =~= graph);
        if edge_list(graph).contains(e) {
            let k = choose|k: int|
                0 <= k < graph.len() && (#[trigger] graph[k]).0 == e.0 && graph[k].1.contains(e.1);
            assert(keys_of(graph)[k] == e.0);
            assert(keys_of(graph)[place_of(graph, e.0)] == e.0);
        }
        if edge_set(graph).contains(e) {
            let k = place_of(graph, e.0);
            assert(keys_of(graph)[k] == e.0);
            assert(graph[k].0 == e.0);
        }
    }
}

impl DominatorFinder {
    /// The graph that the dominators belong to.
    pub closed spec fn graph(&self) -> Seq<(u64, Seq<u64>)> {
        self.flow@.0
    }

    /// The start node of the graph.
    pub closed spec fn start(&self) -> u64 {
        self.flow@.1
    }

    #[verifier::type_invariant]
    spec fn well_formed(self) -> bool {
        let order = self.id_to_node@;
        &&& is_canonical(self.graph())
        &&& numbers_graph(edge_set(self.graph()), self.start(), order, self.preds@)
        &&& is_dominator_tree(self.preds@, self.immediate_dominators@)
        &&& forall|i: int|
            0 <= i < order.len() ==> self.node_to_id@.contains_key(#[trigger] order[i])
                && self.node_to_id@[order[i]] == i
        &&& forall|node: u64| #[trigger]
            self.node_to_id@.contains_key(node) ==> order.contains(node)
        &&& forall|node: u64| #[trigger] has_node(self.graph(), node) <==> order.contains(node)
    }

    /// Constructs a new DominatorFinder. Returns an error if some node is
    /// unreachable from the start node.
    pub fn calculate(flow_graph: &FlowGraph) -> (result: Result<Self, DominatorFinderError>)
        requires
            has_node(flow_graph.graph@, flow_graph.start_node),
        ensures
            result is Ok <==> forall|node: u64| #[trigger]
                has_node(flow_graph.graph@, node) ==> reachable(
                    edge_set(flow_graph.graph@),
                    flow_graph.start_node,
                    node,
                ),
            result matches Ok(finder) ==> finder.graph() == flow_graph.graph@ && finder.start()
                == flow_graph.start_node,
            result matches Err(error) ==> error
                == DominatorFinderError::UnreachableNodesInFlowGraph,
    {
        let ghost graph = flow_graph.graph@;
        let ghost start = flow_graph.start_node;
        let ghost edges = edge_set(graph);
        let graph_ref: &SimpleDirectedGraph = &flow_graph.graph;
        proof {
            use_type_invariant(graph_ref);
        }
        let id_to_node: Vec<u64> = flow_graph.graph.get_postorder(flow_graph.start_node);
        let ghost order = id_to_node@;
        proof {
            lemma_adjacency_map(graph);
    lemma_postorder(adjacency_map(graph), start);
            lemma_all_reachable(graph, start);
        }
        if id_to_node.len() != flow_graph.graph.num_nodes() {
            return Err(DominatorFinderError::UnreachableNodesInFlowGraph);
        }
        let num_nodes: usize = id_to_node.len();
        let mut node_to_id: HashMap<u64, usize> = HashMap::new();
        let mut rev_adj: Vec<Vec<usize>> = Vec::new();
        let mut index: usize = 0;
        while index < num_nodes
            invariant
                order == id_to_node@,
                order.no_duplicates(),
                num_nodes == order.len(),
                index <= num_nodes,
                forall|i: int|
                    0 <= i < index ==> node_to_id@.contains_key(#[trigger] order[i])
                        && node_to_id@[order[i]] == i,
                forall|node: u64| #[trigger]
                    node_to_id@.contains_key(node) ==> order.contains(node),
                rev_adj@.len() == index,
                forall|i: int| 0 <= i < index ==> (#[trigger] rev_adj@[i])@.len() == 0,
            decreases num_nodes - index,
        {
            node_to_id.insert(id_to_node[index], index);
            rev_adj.push(Vec::new());
            assert(order.contains(order[index as int]));
            index += 1;
        }
        let edge_vec: Vec<(u64, u64)> = flow_graph.graph.edges();
        proof {
            lemma_edge_list(graph);
        }
        let mut next: usize = 0;
        while next < edge_vec.len()
            invariant
                order == id_to_node@,
                order.no_duplicates(),
                num_nodes == order.len(),
                num_nodes == rev_adj@.len(),
                is_canonical(graph),
                edges == edge_set(graph),
                forall|e: (u64, u64)| #[trigger] edge_vec@.contains(e) <==> edges.contains(e),
                forall|node: u64| #[trigger] has_node(graph, node) ==> order.contains(node),
                forall|i: int|
                    0 <= i < order.len() ==> node_to_id@.contains_key(#[trigger] order[i])
                        && node_to_id@[order[i]] == i,
                next <= edge_vec@.len(),
                forall|b: int, k: int|
                    0 <= b < num_nodes && 0 <= k < rev_adj@[b]@.len() ==> (
                    #[trigger] rev_adj@[b]@[k]) < num_nodes,
                forall|a: usize, b: usize|
                    a < num_nodes && b < num_nodes ==> (#[trigger] rev_adj@[b as int]@.contains(a)
                        <==> edge_vec@.take(next as int).contains(
                        (order[a as int], order[b as int]),
                    )),
            decreases edge_vec@.len() - next,
        {
            let (u, v) = edge_vec[next];
            proof {
                assert(edge_vec@.contains((u, v)));
                assert(has_node(graph, u));
                let p = place_of(graph, u);
                assert(keys_of(graph)[p] == u);
                let k = choose|k: int| 0 <= k < graph[p].1.len() && graph[p].1[k] == v;
                assert(has_node(graph, graph[p].1[k]));
                assert(order[order.index_of(u)] == u);
                assert(order[order.index_of(v)] == v);
            }
            let uid: usize = *node_to_id.get(&u).unwrap();
            let vid: usize = *node_to_id.get(&v).unwrap();
            let ghost before = rev_adj@;
            let ghost taken = edge_vec@.take(next as int);
            rev_adj[vid].push(uid);
            next += 1;
            proof {
                let list = before[vid as int]@;
                assert(edge_vec@.take(next as int) =~= taken.push((u, v)));
                assert(rev_adj@[vid as int]@ =~= list.push(uid));
                assert forall|a: usize, b: usize|
                    a < num_nodes && b < num_nodes implies (#[trigger] rev_adj@[b as int]@.contains(a)
                    <==> taken.push((u, v)).contains((order[a as int], order[b as int]))) by {
                    lemma_push_contains(taken, (u, v), (order[a as int], order[b as int]));
                    lemma_push_contains(list, uid, a);
                    assert(before[b as int]@.contains(a) <==> taken.contains(
                        (order[a as int], order[b as int]),
                    ));
                    if b != vid {
                        assert(rev_adj@[b as int] == before[b as int]);
                    }
                }
            }
        }
        proof {
            assert(edge_vec@.take(edge_vec@.len() as int) =~= edge_vec@);
            lemma_numbers_graph(graph, start, order, rev_adj@);
        }
        let immediate_dominators: Vec<usize> = calculate_immediate_dominators(&rev_adj);
        Ok(
            DominatorFinder {
                node_to_id,
                id_to_node,
                immediate_dominators,
                flow: Ghost((graph, start)),
                preds: Ghost(rev_adj@),
            },
        )
    }

    /// Returns a map from each node to its immediate dominator. The start node
    /// is mapped to itself.
    pub fn get_immediate_dominators(&self) -> (idoms: HashMap<u64, u64>)
        ensures
            forall|node: u64| #[trigger]
                idoms@.contains_key(node) <==> has_node(self.graph(), node),
            forall|node: u64| #[trigger]
                idoms@.contains_key(node) && node != self.start() ==> is_immediate_dominator(
                    edge_set(self.graph()),
                    self.start(),
                    idoms@[node],
                    node,
                ),
            idoms@[self.start()] == self.start(),
            has_node(self.graph(), self.start()),
    {
        proof {
            use_type_invariant(self);
        }
        let ghost order = self.id_to_node@;
        let mut idoms: HashMap<u64, u64> = HashMap::new();
        let mut index: usize = 0;
        while index < self.id_to_node.len()
            invariant
                self.well_formed(),
                order == self.id_to_node@,
                index <= order.len(),
                forall|node: u64| #[trigger]
                    idoms@.contains_key(node) <==> order.take(index as int).contains(node),
                forall|i: int|
                    0 <= i < index ==> idoms@[#[trigger] order[i]]
                        == order[self.immediate_dominators@[i] as int],
            decreases order.len() - index,
        {
            let idom: usize = self.immediate_dominators[index];
            proof {
                self.lemma_all_processed(index as int);
            }
            let node: u64 = self.id_to_node[index];
            let ghost taken = order.take(index as int);
            idoms.insert(node, self.id_to_node[idom]);
            index += 1;
            proof {
                assert(order.take(index as int) =~= taken.push(node));
                assert forall|x: u64| #[trigger] idoms@.contains_key(x) <==> order.take(
                    index as int,
                ).contains(x) by {
                    lemma_push_contains(taken, node, x);
                }
            }
        }
        proof {
            assert(order.take(order.len() as int) =~= order);
            let last = order.len() - 1;
            assert(order[last] == self.start());
            assert(order.contains(self.start()));
            assert forall|node: u64| #[trigger]
                idoms@.contains_key(node) && node != self.start() implies is_immediate_dominator(
                edge_set(self.graph()),
                self.start(),
                idoms@[node],
                node,
            ) by {
                let b = order.index_of(node) as usize;
                assert(order[b as int] == node);
                lemma_numbered_immediate_dominator(
                    edge_set(self.graph()),
                    self.start(),
                    order,
                    self.preds@,
                    self.immediate_dominators@,
                    b,
                );
            }
        }
        idoms
    }

    /// Finds the closest common dominator of a set of nodes.
    pub fn find_closest_common_dominator(&self, target_set: &[u64]) -> (result: Result<
        u64,
        DominatorFinderError,
    >)
        ensures
            result == Err::<u64, DominatorFinderError>(
                DominatorFinderError::UnknownNodeInTargetSet,
            ) <==> exists|i: int|
                0 <= i < target_set@.len() && !has_node(self.graph(), #[trigger] target_set@[i]),
            result == Err::<u64, DominatorFinderError>(DominatorFinderError::EmptyTargetSet)
                <==> target_set@.len() == 0,
            result != Err::<u64, DominatorFinderError>(
                DominatorFinderError::UnreachableNodesInFlowGraph,
            ),
            result matches Ok(dom) ==> has_node(self.graph(), dom) && is_closest_common_dominator(
                edge_set(self.graph()),
                self.start(),
                dom,
                target_set@,
            ),
    {
        proof {
            use_type_invariant(self);
        }
        let ghost order = self.id_to_node@;
        let mut target_ids: Vec<usize> = Vec::new();
        let mut i: usize = 0;
        while i < target_set.len()
            invariant
                self.well_formed(),
                order == self.id_to_node@,
                i <= target_set@.len(),
                target_ids@.len() == i,
                forall|k: int|
                    0 <= k < i ==> (#[trigger] target_ids@[k]) < order.len()
                        && order[target_ids@[k] as int] == target_set@[k],
                forall|k: int| 0 <= k < i ==> has_node(self.graph(), #[trigger] target_set@[k]),
            decreases target_set@.len() - i,
        {
            let node: u64 = target_set[i];
            match self.node_to_id.get(&node) {
                Some(id) => {
                    proof {
                        assert(order.contains(node));
                        assert(order[order.index_of(node)] == node);
                    }
                    target_ids.push(*id);
                },
                None => {
                    proof {
                        if order.contains(node) {
                            assert(order[order.index_of(node)] == node);
                        }
                        assert(!has_node(self.graph(), target_set@[i as int]));
                    }
                    return Err(DominatorFinderError::UnknownNodeInTargetSet);
                },
            }
            i += 1;
        }
        if target_ids.len() == 0 {
            return Err(DominatorFinderError::EmptyTargetSet);
        }
        proof {
            assert forall|k: int| 0 <= k < target_ids@.len() implies (#[trigger] target_ids@[k])
                < self.immediate_dominators@.len() && processed(
                self.immediate_dominators@,
                target_ids@[k] as int,
            ) by {
                self.lemma_all_processed(target_ids@[k] as int);
            }
        }
        let common: usize = find_lowest_common_ancestor(&target_ids, &self.immediate_dominators);
        let dom: u64 = self.id_to_node[common];
        proof {
            let edges = edge_set(self.graph());
            let start = self.start();
            let preds = self.preds@;
            let idoms = self.immediate_dominators@;
            assert(order.contains(dom));
            assert forall|k: int| 0 <= k < target_set@.len() implies dominates(
                edges,
                start,
                dom,
                #[trigger] target_set@[k],
            ) by {
                let t = target_ids@[k];
                assert(is_ancestor(idoms, common as int, t as int));
                lemma_ancestors_are_dominators(preds, idoms, common, t);
                lemma_numbered_dominance(edges, start, order, preds, common, t);
            }
            assert forall|other: u64| #[trigger]
                is_common_dominator(edges, start, other, target_set@) implies dominates(
                edges,
                start,
                other,
                dom,
            ) by {
                let t0 = target_ids@[0];
                assert(dominates(edges, start, other, target_set@[0]));
                lemma_dominator_in_order(edges, start, order, preds, other, t0);
                let o = order.index_of(other) as usize;
                assert(order[o as int] == other);
                assert forall|k: int| 0 <= k < target_ids@.len() implies is_ancestor(
                    idoms,
                    o as int,
                    #[trigger] target_ids@[k] as int,
                ) by {
                    let t = target_ids@[k];
                    assert(dominates(edges, start, other, target_set@[k]));
                    lemma_numbered_dominance(edges, start, order, preds, o, t);
                    lemma_ancestors_are_dominators(preds, idoms, o, t);
                }
                assert(is_common_ancestor(idoms, o as int, target_ids@));
                lemma_ancestors_are_dominators(preds, idoms, o, common);
                lemma_numbered_dominance(edges, start, order, preds, o, common);
            }
        }
        Ok(dom)
    }

    proof fn lemma_all_processed(&self, node: int)
        requires
            self.well_formed(),
            0 <= node < self.immediate_dominators@.len(),
        ensures
            processed(self.immediate_dominators@, node),
            self.immediate_dominators@[node] < self.immediate_dominators@.len(),
    {
        if node < self.immediate_dominators@.len() - 1 {
            let u = node as usize;
            assert(is_immediate_dominator(
                id_edges(self.preds@),
                start_id(self.preds@),
                self.immediate_dominators@[u as int],
                u,
            ));
            crate::dominator_tree::lemma_dominator_is_higher(
                self.preds@,
                self.immediate_dominators@[u as int],
                u,
            );
        }
    }
}

/// A traversal meets as many nodes as the graph has exactly if all nodes can
/// be reached.
proof fn lemma_all_reachable(graph: Seq<(u64, Seq<u64>)>, start: u64)
    requires
        is_canonical(graph),
        has_node(graph, start),
    ensures
        (postorder_from(adjacency_map(graph), start).len() == graph.len()) <==> forall|node: u64| #[trigger]
            has_node(graph, node) ==> reachable(edge_set(graph), start, node),
        postorder_from(adjacency_map(graph), start).len() == graph.len() ==> forall|node: u64| #[trigger]
            has_node(graph, node) <==> postorder_from(adjacency_map(graph), start).contains(node),
{
    lemma_adjacency_map(graph);
    lemma_postorder(adjacency_map(graph), start);
    let order = postorder_from(adjacency_map(graph), start);
    let keys = keys_of(graph);
    order.unique_seq_to_set();
    keys.unique_seq_to_set();
    assert(order.to_set().subset_of(keys.to_set())) by {
        assert forall|x: u64| order.to_set().contains(x) implies keys.to_set().contains(x) by {
            let i = choose|i: int| 0 <= i < order.len() && order[i] == x;
            assert(has_node(graph, order[i]));
        }
    }
    if order.len() == graph.len() {
        vstd::set_lib::lemma_subset_equality(order.to_set(), keys.to_set());
        assert forall|node: u64| #[trigger] has_node(graph, node) <==> order.contains(node) by {
            assert(keys.to_set().contains(node) <==> order.to_set().contains(node));
        }
    }
    if forall|node: u64| #[trigger]
        has_node(graph, node) ==> reachable(edge_set(graph), start, node) {
        assert(keys.to_set() =~= order.to_set()) by {
            assert forall|x: u64| keys.to_set().contains(x) implies order.to_set().contains(x) by {
                assert(has_node(graph, x));
                assert(order.contains(x));
            }
        }
    }
}

proof fn lemma_numbers_graph(
    graph: Seq<(u64, Seq<u64>)>,
    start: u64,
    order: Seq<u64>,
    preds: Seq<Vec<usize>>,
)
    requires
        is_canonical(graph),
        has_node(graph, start),
        order == postorder_from(adjacency_map(graph), start),
        preds.len() == order.len(),
        preds.len() <= usize::MAX,
        forall|node: u64| #[trigger] has_node(graph, node) ==> order.contains(node),
        forall|b: int, k: int|
            0 <= b < preds.len() && 0 <= k < preds[b]@.len() ==> (#[trigger] preds[b]@[k])
                < preds.len(),
        forall|a: usize, b: usize|
            a < preds.len() && b < preds.len() ==> (#[trigger] preds[b as int]@.contains(a)
                <==> edge_set(graph).contains((order[a as int], order[b as int]))),
    ensures
        numbers_graph(edge_set(graph), start, order, preds),
{
    let edges = edge_set(graph);
    lemma_adjacency_map(graph);
    lemma_postorder(adjacency_map(graph), start);
    assert forall|u: int| 0 <= u < preds.len() - 1 implies #[trigger] has_higher_pred(
        preds,
        u,
    ) by {
        assert(has_later_pred(adjacency_map(graph), order, u));
        let j = choose|j: int|
            u < j < order.len() && #[trigger] edges.contains((order[j], order[u]));
        let a = j as usize;
        let b = u as usize;
        assert(preds[b as int]@.contains(a));
        assert(higher_pred(preds, u, a));
    }
    assert forall|a: usize, b: usize| a < order.len() && b < order.len() implies (
    #[trigger] id_edges(preds).contains((a, b)) <==> edges.contains(
        (order[a as int], order[b as int]),
    )) by {
        assert(preds[b as int]@.contains(a) <==> edges.contains(
            (order[a as int], order[b as int]),
        ));
    }
    assert forall|x: u64, y: u64| #[trigger] edges.contains((x, y)) && order.contains(x) implies order.contains(
        y,
    ) by {
        let p = place_of(graph, x);
        assert(keys_of(graph)[p] == x);
        let k = choose|k: int| 0 <= k < graph[p].1.len() && graph[p].1[k] == y;
        assert(has_node(graph, graph[p].1[k]));
    }
}

} // verus!
