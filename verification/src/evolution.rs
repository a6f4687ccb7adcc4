//! Commit evolution history.
//!
//! Operations record which commits were made from which others. Loading
//! operations and commits is out of reach here: what is loaded is handed in.
//! Commits are known by numbers, which are ordered as the ids of the commits.

use std::collections::BTreeMap;
use std::collections::HashMap;
use std::collections::VecDeque;

use vstd::prelude::*;

use crate::btree_util::ascending;
use crate::btree_util::is_ascending;
use crate::btree_util::lemma_ascending_empty;
use crate::btree_util::lemma_ascending_lists;
use crate::btree_util::lists;
use crate::btree_util::sorted_keys;
use crate::commit::Commit;
use crate::dag_walk::has_cycle;
use crate::dag_walk::is_cycle;
use crate::dag_walk::is_topo_order;
use crate::dag_walk::lies_on_cycle;
use crate::dag_walk::neighbor_graph;
use crate::dag_walk::neighbors_before;
use crate::dag_walk::reachable_from;
use crate::dag_walk::topo_order;
use crate::dag_walk::topo_order_forward;
use crate::dag_walk::topo_order_reverse;
use crate::dfs::edges_of;
use crate::dfs::is_closed;
use crate::dfs::lemma_unvisited_visit;
use crate::dfs::unvisited;
use crate::dominance::edge_at;
use crate::dominance::is_path;
use crate::dominance::lemma_path_push;
use crate::dominance::lemma_path_single;
use crate::dominance::reachable;
use crate::seq_util::dedup;
use crate::seq_util::lemma_dedup;
use crate::seq_util::lemma_dedup_push;
use crate::seq_util::lemma_push_contains;
use crate::seq_util::lemma_push_to_set;

verus! {

broadcast use {
    vstd::std_specs::btree::group_btree_axioms,
    vstd::std_specs::hash::group_hash_axioms,
};

/// An operation on a repository.
#[derive(Debug)]
pub struct Operation {
    /// The operation.
    pub id: u64,
    /// The operations that it follows.
    pub parent_ids: Vec<u64>,
    /// Which commits the operation made from which others, if that was
    /// recorded.
    pub commit_predecessors: Option<BTreeMap<u64, Vec<u64>>>,
}

impl Operation {
    /// The recorded predecessors.
    pub open spec fn predecessors(&self) -> Map<u64, Seq<u64>> {
        match self.commit_predecessors {
            Some(map) => neighbor_graph(map@),
            None => Map::empty(),
        }
    }

    /// Returns whether predecessors were recorded.
    pub fn stores_commit_predecessors(&self) -> (stored: bool)
        ensures
            stored == self.commit_predecessors is Some,
    {
        self.commit_predecessors.is_some()
    }

    /// Returns the recorded predecessors of a commit.
    pub fn predecessors_for_commit(&self, commit_id: u64) -> (ids: Option<&Vec<u64>>)
        ensures
            ids is Some <==> self.predecessors().contains_key(commit_id),
            ids matches Some(ids) ==> ids@ == self.predecessors()[commit_id],
    {
        match &self.commit_predecessors {
            Some(map) => map.get(&commit_id),
            None => None,
        }
    }
}

/// Commit with predecessor information.
#[derive(Debug)]
pub struct CommitEvolutionEntry {
    /// Commit id and metadata.
    pub commit: Commit,
    /// Operation where the commit was created or rewritten.
    pub operation: Option<Operation>,
}

impl CommitEvolutionEntry {
    /// Predecessor ids of this commit. The operation has recorded the commit.
    pub fn predecessor_ids(&self) -> (ids: Vec<u64>)
        requires
            self.operation matches Some(op) ==> op.predecessors().contains_key(self.commit.id),
        ensures
            ids@ == (match self.operation {
                Some(op) => op.predecessors()[self.commit.id],
                None => Seq::empty(),
            }),
    {
        match &self.operation {
            Some(op) => copy_ids(op.predecessors_for_commit(self.commit.id).unwrap()),
            None => Vec::new(),
        }
    }
}

/// Why commit predecessors cannot be told.
#[derive(Debug, PartialEq, Eq)]
pub enum WalkPredecessorsError {
    /// A commit could not be loaded.
    Backend(String),
    /// An operation could not be loaded.
    OpStore(String),
    /// A commit is its own predecessor.
    CycleDetected(u64),
}

impl WalkPredecessorsError {
    /// Returns the message, given how a commit on a cycle is written.
    pub fn message(&self, commit_id: &str) -> (message: String)
        ensures
            match self {
                WalkPredecessorsError::Backend(text) => message@ == text@,
                WalkPredecessorsError::OpStore(text) => message@ == text@,
                WalkPredecessorsError::CycleDetected(_) => message@
                    == "Predecessors cycle detected around commit "@ + commit_id@,
            },
    {
        match self {
            WalkPredecessorsError::Backend(text) => text.clone(),
            WalkPredecessorsError::OpStore(text) => text.clone(),
            WalkPredecessorsError::CycleDetected(_) => {
                let mut message: String = "Predecessors cycle detected around commit ".to_owned();
                message.append(commit_id);
                message
            },
        }
    }
}

fn copy_ids(ids: &Vec<u64>) -> (copy: Vec<u64>)
    ensures
        copy@ == ids@,
{
    let copy: Vec<u64> = ids.clone();
    assert(copy@ =~= ids@);
    copy
}

/// Whether a node is a neighbor of some other node.
pub open spec fn is_neighbor(graph: Map<u64, Seq<u64>>, node: u64) -> bool {
    exists|from: u64| #[trigger] graph.contains_key(from) && graph[from].contains(node)
}

/// The graph with all nodes that are mentioned.
pub open spec fn completed(graph: Map<u64, Seq<u64>>, start: Seq<u64>) -> Map<u64, Seq<u64>> {
    Map::new(
        |node: u64| graph.contains_key(node) || start.contains(node) || is_neighbor(graph, node),
        |node: u64|
            if graph.contains_key(node) {
                graph[node]
            } else {
                Seq::empty()
            },
    )
}

/// Nodes that are only mentioned have no edges.
proof fn lemma_completed_edges(graph: Map<u64, Seq<u64>>, start: Seq<u64>)
    ensures
        edges_of(completed(graph, start)) == edges_of(graph),
{
    assert(edges_of(completed(graph, start)) =~= edges_of(graph));
}

/// Makes the graph that holds all nodes that are mentioned.
fn complete_graph(map: &BTreeMap<u64, Vec<u64>>, start: &[u64]) -> (graph: HashMap<u64, Vec<u64>>)
    ensures
        neighbor_graph(graph@) == completed(neighbor_graph(map@), start@),
        is_closed(neighbor_graph(graph@)),
        forall|i: int| 0 <= i < start@.len() ==> graph@.contains_key(#[trigger] start@[i]),
        edges_of(neighbor_graph(graph@)) == edges_of(neighbor_graph(map@)),
{
    let ghost edges = neighbor_graph(map@);
    let mut graph: HashMap<u64, Vec<u64>> = HashMap::new();
    let keys: Vec<u64> = sorted_keys(map);
    let mut i: usize = 0;
    while i < keys.len()
        invariant
            i <= keys@.len(),
            edges == neighbor_graph(map@),
            lists(keys@, map@.dom()),
            forall|node: u64| #[trigger]
                graph@.contains_key(node) ==> edges.contains_key(node) || is_neighbor(edges, node),
            forall|node: u64| #[trigger]
                graph@.contains_key(node) ==> graph@[node]@ == (if edges.contains_key(node) {
                    edges[node]
                } else {
                    Seq::empty()
                }),
            forall|k: int| 0 <= k < i ==> graph@.contains_key(#[trigger] keys@[k]),
            forall|k: int, n: u64|
                0 <= k < i && #[trigger] edges[keys@[k]].contains(n) ==> graph@.contains_key(n),
        decreases keys@.len() - i,
    {
        let key: u64 = keys[i];
        assert(keys@.contains(key));
        let neighbors: &Vec<u64> = map.get(&key).unwrap();
        assert(edges[key] == neighbors@);
        graph.insert(key, copy_ids(neighbors));
        let mut j: usize = 0;
        while j < neighbors.len()
            invariant
                j <= neighbors@.len(),
                i < keys@.len(),
                key == keys@[i as int],
                edges == neighbor_graph(map@),
                edges.contains_key(key),
                edges[key] == neighbors@,
                lists(keys@, map@.dom()),
                graph@.contains_key(key),
                forall|node: u64| #[trigger]
                    graph@.contains_key(node) ==> edges.contains_key(node) || is_neighbor(
                        edges,
                        node,
                    ),
                forall|node: u64| #[trigger]
                    graph@.contains_key(node) ==> graph@[node]@ == (if edges.contains_key(node) {
                        edges[node]
                    } else {
                        Seq::empty()
                    }),
                forall|k: int| 0 <= k < i ==> graph@.contains_key(#[trigger] keys@[k]),
                forall|k: int, n: u64|
                    0 <= k < i && #[trigger] edges[keys@[k]].contains(n) ==> graph@.contains_key(n),
                forall|k: int| 0 <= k < j ==> graph@.contains_key(#[trigger] neighbors@[k]),
            decreases neighbors@.len() - j,
        {
            let neighbor: u64 = neighbors[j];
            if !map.contains_key(&neighbor) {
                proof {
                    assert(edges[key].contains(neighbor));
                    assert(is_neighbor(edges, neighbor));
                }
                let none: Vec<u64> = Vec::new();
                assert(none@ =~= Seq::<u64>::empty());
                graph.insert(neighbor, none);
            } else {
                graph.insert(neighbor, copy_ids(map.get(&neighbor).unwrap()));
            }
            j += 1;
        }
        i += 1;
    }
    let ghost walked = graph@;
    let mut s: usize = 0;
    while s < start.len()
        invariant
            s <= start@.len(),
            edges == neighbor_graph(map@),
            forall|node: u64| #[trigger]
                graph@.contains_key(node) ==> edges.contains_key(node) || is_neighbor(edges, node)
                    || start@.contains(node),
            forall|node: u64| #[trigger]
                graph@.contains_key(node) ==> graph@[node]@ == (if edges.contains_key(node) {
                    edges[node]
                } else {
                    Seq::empty()
                }),
            forall|node: u64| #[trigger]
                walked.contains_key(node) ==> graph@.contains_key(node),
            forall|k: int| 0 <= k < s ==> graph@.contains_key(#[trigger] start@[k]),
        decreases start@.len() - s,
    {
        let node: u64 = start[s];
        assert(start@.contains(node));
        if !map.contains_key(&node) {
            let none: Vec<u64> = Vec::new();
            assert(none@ =~= Seq::<u64>::empty());
            graph.insert(node, none);
        } else {
            graph.insert(node, copy_ids(map.get(&node).unwrap()));
        }
        s += 1;
    }
    proof {
        let all = neighbor_graph(graph@);
        let goal = completed(edges, start@);
        assert forall|node: u64| #[trigger] goal.contains_key(node) implies graph@.contains_key(
            node,
        ) by {
            if edges.contains_key(node) {
                assert(keys@.contains(node));
                let k = choose|k: int| 0 <= k < keys@.len() && keys@[k] == node;
                assert(walked.contains_key(keys@[k]));
            } else if start@.contains(node) {
                let k = choose|k: int| 0 <= k < start@.len() && start@[k] == node;
                assert(graph@.contains_key(start@[k]));
            } else {
                let from = choose|from: u64| #[trigger]
                    edges.contains_key(from) && edges[from].contains(node);
                assert(keys@.contains(from));
                let k = choose|k: int| 0 <= k < keys@.len() && keys@[k] == from;
                assert(edges[keys@[k]].contains(node));
                assert(walked.contains_key(node));
            }
        }
        assert(all =~= goal);
        lemma_completed_edges(edges, start@);
        assert forall|node: u64, k: int|
            all.contains_key(node) && 0 <= k < all[node].len() implies all.contains_key(
            #[trigger] all[node][k],
        ) by {
            assert(edges.contains_key(node));
            assert(edges[node].contains(all[node][k]));
            assert(is_neighbor(edges, all[node][k]));
            assert(goal.contains_key(all[node][k]));
        }
        assert(all.dom() =~= graph@.dom());
    }
    graph
}

/// What a look for predecessors within an operation comes to.
pub struct OpWalk {
    /// The commits that the operation did not make, in the order found.
    pub kept: Seq<u64>,
    /// The commits that the operation made, in the order found.
    pub emitted: Seq<u64>,
    /// Whether one of the latter was found more than once.
    pub repeated: bool,
}

/// Follows the predecessors of pending commits, first come first served, each
/// commit that the operation made once.
pub open spec fn walk_op(
    graph: Map<u64, Seq<u64>>,
    pending: Seq<u64>,
    so_far: OpWalk,
) -> OpWalk
    decreases unvisited(graph, so_far.emitted.to_set()), pending.len(),
    when graph.dom().finite()
{
    if pending.len() == 0 {
        so_far
    } else {
        let id = pending[0];
        let rest = pending.skip(1);
        if !graph.contains_key(id) {
            walk_op(graph, rest, OpWalk { kept: so_far.kept.push(id), ..so_far })
        } else if so_far.emitted.contains(id) {
            walk_op(graph, rest, OpWalk { repeated: true, ..so_far })
        } else {
            proof {
                lemma_push_to_set(so_far.emitted, id);
                lemma_unvisited_visit(graph, so_far.emitted.to_set(), id);
            }
            walk_op(
                graph,
                graph[id] + rest,
                OpWalk { emitted: so_far.emitted.push(id), ..so_far },
            )
        }
    }
}

/// Nothing was found yet.
pub open spec fn no_walk() -> OpWalk {
    OpWalk { kept: Seq::empty(), emitted: Seq::empty(), repeated: false }
}

/// Whether a look has found a commit.
pub open spec fn is_found(graph: Map<u64, Seq<u64>>, walk: OpWalk, id: u64) -> bool {
    if graph.contains_key(id) {
        walk.emitted.contains(id)
    } else {
        walk.kept.contains(id)
    }
}

/// Whether what a look has found between two points is found rightly: all that
/// was pending, and with every commit its predecessors.
spec fn is_right(
    graph: Map<u64, Seq<u64>>,
    pending: Seq<u64>,
    before: OpWalk,
    after: OpWalk,
) -> bool {
    &&& before.emitted.no_duplicates() ==> after.emitted.no_duplicates()
    &&& before.repeated ==> after.repeated
    &&& forall|id: u64| #[trigger] before.emitted.contains(id) ==> after.emitted.contains(id)
    &&& forall|id: u64| #[trigger] before.kept.contains(id) ==> after.kept.contains(id)
    &&& forall|id: u64| #[trigger] pending.contains(id) ==> is_found(graph, after, id)
    &&& forall|id: u64| #[trigger]
        pending.contains(id) && before.emitted.contains(id) && graph.contains_key(id)
            ==> after.repeated
    &&& forall|id: u64, to: u64|
        #![trigger after.emitted.contains(id), graph[id].contains(to)]
        after.emitted.contains(id) && !before.emitted.contains(id) && graph[id].contains(to)
            ==> is_found(graph, after, to) && (id == to ==> after.repeated)
    &&& forall|id: u64| #[trigger]
        after.emitted.contains(id) ==> before.emitted.contains(id) || (graph.contains_key(id)
            && reachable_from(graph, pending, id))
    &&& forall|id: u64| #[trigger]
        after.kept.contains(id) ==> before.kept.contains(id) || (!graph.contains_key(id)
            && reachable_from(graph, pending, id))
}

proof fn lemma_pending_first(pending: Seq<u64>, id: u64)
    requires
        pending.len() > 0,
    ensures
        pending.contains(id) <==> id == pending[0] || pending.skip(1).contains(id),
{
    if pending.contains(id) {
        let i = choose|i: int| 0 <= i < pending.len() && pending[i] == id;
        if i > 0 {
            assert(pending.skip(1)[i - 1] == id);
        }
    }
    if pending.skip(1).contains(id) {
        let i = choose|i: int| 0 <= i < pending.skip(1).len() && pending.skip(1)[i] == id;
        assert(pending[i + 1] == id);
    }
    if id == pending[0] {
        assert(pending.contains(pending[0]));
    }
}

proof fn lemma_concat_contains(a: Seq<u64>, b: Seq<u64>, id: u64)
    ensures
        (a + b).contains(id) <==> a.contains(id) || b.contains(id),
{
    crate::seq_util::lemma_concat_to_set(a, b);
    assert((a + b).to_set().contains(id) <==> a.to_set().union(b.to_set()).contains(id));
}

/// What can be reached from the rest or along the first can be reached from all.
proof fn lemma_reach_first(
    graph: Map<u64, Seq<u64>>,
    pending: Seq<u64>,
    others: Seq<u64>,
    node: u64,
)
    requires
        pending.len() > 0,
        reachable_from(graph, others, node),
        forall|id: u64| #[trigger]
            others.contains(id) ==> pending.contains(id) || (graph.contains_key(pending[0])
                && graph[pending[0]].contains(id)),
    ensures
        reachable_from(graph, pending, node),
{
    let edges = edges_of(graph);
    let s = choose|s: u64| #[trigger] others.contains(s) && reachable(edges, s, node);
    let path = choose|path: Seq<u64>| is_path(edges, s, path, node);
    if !pending.contains(s) {
        let first = pending[0];
        let longer = seq![first] + path;
        assert forall|i: int| 0 <= i < longer.len() - 1 implies #[trigger] edge_at(
            edges,
            longer,
            i,
        ) by {
            if i > 0 {
                assert(edge_at(edges, path, i - 1));
            }
        }
        assert(is_path(edges, first, longer, node));
        assert(reachable(edges, first, node));
        assert(pending.contains(first));
    }
}

proof fn lemma_reach_self(graph: Map<u64, Seq<u64>>, pending: Seq<u64>)
    requires
        pending.len() > 0,
    ensures
        reachable_from(graph, pending, pending[0]),
{
    lemma_path_single(edges_of(graph), pending[0]);
    assert(reachable(edges_of(graph), pending[0], pending[0]));
    assert(pending.contains(pending[0]));
}

#[verifier::rlimit(40)]
proof fn lemma_walk_is_right(graph: Map<u64, Seq<u64>>, pending: Seq<u64>, so_far: OpWalk)
    requires
        graph.dom().finite(),
    ensures
        is_right(graph, pending, so_far, walk_op(graph, pending, so_far)),
    decreases unvisited(graph, so_far.emitted.to_set()), pending.len(),
{
    let after = walk_op(graph, pending, so_far);
    if pending.len() > 0 {
        let id = pending[0];
        let rest = pending.skip(1);
        lemma_reach_self(graph, pending);
        assert forall|x: u64| #[trigger] pending.contains(x) implies x == id || rest.contains(x) by {
            lemma_pending_first(pending, x);
        }
        assert forall|x: u64| #[trigger] rest.contains(x) implies pending.contains(x) by {
            lemma_pending_first(pending, x);
        }
        if !graph.contains_key(id) {
            let next = OpWalk { kept: so_far.kept.push(id), ..so_far };
            lemma_walk_is_right(graph, rest, next);
            assert forall|x: u64| #[trigger] next.kept.contains(x) <==> so_far.kept.contains(x)
                || x == id by {
                lemma_push_contains(so_far.kept, id, x);
            }
            assert(next.kept.contains(id));
            lemma_walk_step(graph, pending, rest, so_far, next, after);
        } else if so_far.emitted.contains(id) {
            let next = OpWalk { repeated: true, ..so_far };
            lemma_walk_is_right(graph, rest, next);
            lemma_walk_step(graph, pending, rest, so_far, next, after);
        } else {
            let next = OpWalk { emitted: so_far.emitted.push(id), ..so_far };
            let more = graph[id] + rest;
            lemma_push_to_set(so_far.emitted, id);
            lemma_unvisited_visit(graph, so_far.emitted.to_set(), id);
            lemma_walk_is_right(graph, more, next);
            assert forall|x: u64| #[trigger] next.emitted.contains(x) <==> so_far.emitted.contains(
                x,
            ) || x == id by {
                lemma_push_contains(so_far.emitted, id, x);
            }
            assert(next.emitted.contains(id));
            assert forall|x: u64| #[trigger] more.contains(x) <==> graph[id].contains(x)
                || rest.contains(x) by {
                lemma_concat_contains(graph[id], rest, x);
            }
            lemma_walk_step(graph, pending, more, so_far, next, after);
        }
    }
}

/// One step of a look, and the rest of it.
proof fn lemma_walk_step(
    graph: Map<u64, Seq<u64>>,
    pending: Seq<u64>,
    more: Seq<u64>,
    before: OpWalk,
    next: OpWalk,
    after: OpWalk,
)
    requires
        pending.len() > 0,
        is_right(graph, more, next, after),
        reachable_from(graph, pending, pending[0]),
        forall|x: u64| #[trigger] pending.contains(x) ==> x == pending[0] || more.contains(x),
        forall|x: u64| #[trigger]
            more.contains(x) ==> pending.contains(x) || (graph.contains_key(pending[0])
                && graph[pending[0]].contains(x)),
        before.emitted.no_duplicates() ==> next.emitted.no_duplicates(),
        before.repeated ==> next.repeated,
        forall|x: u64| #[trigger] before.emitted.contains(x) ==> next.emitted.contains(x),
        forall|x: u64| #[trigger] before.kept.contains(x) ==> next.kept.contains(x),
        is_found(graph, next, pending[0]),
        before.emitted.contains(pending[0]) && graph.contains_key(pending[0]) ==> next.repeated,
        forall|x: u64| #[trigger]
            next.emitted.contains(x) ==> before.emitted.contains(x) || (x == pending[0]
                && graph.contains_key(x) && forall|to: u64| #[trigger]
                graph[x].contains(to) ==> more.contains(to)),
        forall|x: u64| #[trigger]
            next.kept.contains(x) ==> before.kept.contains(x) || (x == pending[0]
                && !graph.contains_key(x)),
    ensures
        is_right(graph, pending, before, after),
{
    let id = pending[0];
    assert forall|x: u64| #[trigger] pending.contains(x) implies is_found(graph, after, x) by {
        if x != id {
            assert(more.contains(x));
        }
    }
    assert forall|x: u64| #[trigger]
        pending.contains(x) && before.emitted.contains(x) && graph.contains_key(
            x,
        ) implies after.repeated by {
        if x != id {
            assert(more.contains(x));
            assert(next.emitted.contains(x));
        }
    }
    assert forall|x: u64, to: u64|
        #![trigger after.emitted.contains(x), graph[x].contains(to)]
        after.emitted.contains(x) && !before.emitted.contains(x) && graph[x].contains(
            to,
        ) implies is_found(graph, after, to) && (x == to ==> after.repeated) by {
        if next.emitted.contains(x) {
            assert(more.contains(to));
        }
    }
    assert forall|x: u64| #[trigger] after.emitted.contains(x) implies before.emitted.contains(x)
        || (graph.contains_key(x) && reachable_from(graph, pending, x)) by {
        if !next.emitted.contains(x) {
            lemma_reach_first(graph, pending, more, x);
        }
    }
    assert forall|x: u64| #[trigger] after.kept.contains(x) implies before.kept.contains(x) || (
    !graph.contains_key(x) && reachable_from(graph, pending, x)) by {
        if !next.kept.contains(x) {
            lemma_reach_first(graph, pending, more, x);
        }
    }
}

/// A look finds exactly what can be reached from the commits it starts from
/// along predecessors: those that the operation made, each of them once, and
/// those that it did not make.
pub proof fn lemma_walk_op(graph: Map<u64, Seq<u64>>, to_visit: Seq<u64>)
    requires
        graph.dom().finite(),
    ensures
        walk_op(graph, to_visit, no_walk()).emitted.no_duplicates(),
        forall|id: u64| #[trigger]
            walk_op(graph, to_visit, no_walk()).emitted.contains(id) <==> graph.contains_key(id)
                && reachable_from(graph, to_visit, id),
        forall|id: u64| #[trigger]
            walk_op(graph, to_visit, no_walk()).kept.contains(id) <==> !graph.contains_key(id)
                && reachable_from(graph, to_visit, id),
{
    let walk = walk_op(graph, to_visit, no_walk());
    lemma_walk_is_right(graph, to_visit, no_walk());
    assert forall|id: u64| reachable_from(graph, to_visit, id) implies #[trigger] is_found(
        graph,
        walk,
        id,
    ) by {
        let edges = edges_of(graph);
        let s = choose|s: u64| #[trigger] to_visit.contains(s) && reachable(edges, s, id);
        let path = choose|path: Seq<u64>| is_path(edges, s, path, id);
        lemma_path_found(graph, to_visit, s, path, id);
    }
    assert forall|id: u64| #[trigger] walk.emitted.contains(id) <==> graph.contains_key(id)
        && reachable_from(graph, to_visit, id) by {
        if graph.contains_key(id) && reachable_from(graph, to_visit, id) {
            assert(is_found(graph, walk, id));
        }
    }
    assert forall|id: u64| #[trigger] walk.kept.contains(id) <==> !graph.contains_key(id)
        && reachable_from(graph, to_visit, id) by {
        if !graph.contains_key(id) && reachable_from(graph, to_visit, id) {
            assert(is_found(graph, walk, id));
        }
    }
}

proof fn lemma_path_found(
    graph: Map<u64, Seq<u64>>,
    to_visit: Seq<u64>,
    start: u64,
    path: Seq<u64>,
    end: u64,
)
    requires
        is_right(graph, to_visit, no_walk(), walk_op(graph, to_visit, no_walk())),
        to_visit.contains(start),
        is_path(edges_of(graph), start, path, end),
    ensures
        is_found(graph, walk_op(graph, to_visit, no_walk()), end),
    decreases path.len(),
{
    let walk = walk_op(graph, to_visit, no_walk());
    if path.len() > 1 {
        let front = path.drop_last();
        assert forall|i: int| 0 <= i < front.len() - 1 implies #[trigger] edge_at(
            edges_of(graph),
            front,
            i,
        ) by {
            assert(edge_at(edges_of(graph), path, i));
        }
        lemma_path_found(graph, to_visit, start, front, front.last());
        assert(edge_at(edges_of(graph), path, path.len() - 2));
        let from = path[path.len() - 2];
        assert(graph.contains_key(from) && graph[from].contains(end));
        assert(walk.emitted.contains(from));
        assert(graph[from].contains(end));
    }
}

/// Whether the commits that were found have to be put in order: not if there is
/// one, and it was found once.
pub open spec fn needs_order(walk: OpWalk) -> bool {
    walk.emitted.len() > 1 || (walk.emitted.len() == 1 && walk.repeated)
}

/// Those of the commits that have recorded predecessors.
pub open spec fn keys_only(order: Seq<u64>, graph: Map<u64, Seq<u64>>) -> Seq<u64>
    decreases order.len(),
{
    if order.len() == 0 {
        Seq::empty()
    } else {
        let front = keys_only(order.drop_last(), graph);
        if graph.contains_key(order.last()) {
            front.push(order.last())
        } else {
            front
        }
    }
}

/// The commits that were found, in reverse topological order.
pub open spec fn emission(graph: Map<u64, Seq<u64>>, walk: OpWalk) -> Seq<u64> {
    if needs_order(walk) {
        keys_only(
            topo_order(completed(graph, walk.emitted), walk.emitted).reverse(),
            graph,
        )
    } else {
        walk.emitted
    }
}

/// Whether no commit comes after one of its predecessors.
pub open spec fn no_predecessor_first(graph: Map<u64, Seq<u64>>, order: Seq<u64>) -> bool {
    forall|i: int, to: u64|
        0 <= i < order.len() && #[trigger] graph[order[i]].contains(to) ==> !order.take(
            i + 1,
        ).contains(to)
}

proof fn lemma_keys_only(order: Seq<u64>, graph: Map<u64, Seq<u64>>)
    ensures
        forall|id: u64| #[trigger]
            keys_only(order, graph).contains(id) <==> order.contains(id) && graph.contains_key(id),
    decreases order.len(),
{
    let kept = keys_only(order, graph);
    if order.len() > 0 {
        let front = order.drop_last();
        let last = order.last();
        lemma_keys_only(front, graph);
        assert(order =~= front.push(last));
        assert forall|id: u64| #[trigger] kept.contains(id) <==> order.contains(id)
            && graph.contains_key(id) by {
            lemma_push_contains(front, last, id);
            lemma_push_contains(keys_only(front, graph), last, id);
        }
    }
}

/// A path, and another from where it ends.
proof fn lemma_reach_through(graph: Map<u64, Seq<u64>>, start: Seq<u64>, between: u64, end: u64)
    requires
        reachable_from(graph, start, between),
        reachable(edges_of(graph), between, end),
    ensures
        reachable_from(graph, start, end),
{
    let edges = edges_of(graph);
    let s = choose|s: u64| #[trigger] start.contains(s) && reachable(edges, s, between);
    let a = choose|path: Seq<u64>| is_path(edges, s, path, between);
    let b = choose|path: Seq<u64>| is_path(edges, between, path, end);
    let path = a + b.skip(1);
    assert forall|i: int| 0 <= i < path.len() - 1 implies #[trigger] edge_at(edges, path, i) by {
        if i < a.len() - 1 {
            assert(edge_at(edges, a, i));
        } else {
            assert(edge_at(edges, b, i - a.len() + 1));
        }
    }
    assert(is_path(edges, s, path, end));
    assert(reachable(edges, s, end));
}

/// A cycle can be reached from the commits that a look has found if and only if
/// one can be reached from those it started from, and then an order is asked
/// for.
proof fn lemma_cycle_found(graph: Map<u64, Seq<u64>>, to_visit: Seq<u64>)
    requires
        graph.dom().finite(),
    ensures
        has_cycle(graph, to_visit) <==> needs_order(walk_op(graph, to_visit, no_walk()))
            && has_cycle(graph, walk_op(graph, to_visit, no_walk()).emitted),
{
    let edges = edges_of(graph);
    let walk = walk_op(graph, to_visit, no_walk());
    lemma_walk_op(graph, to_visit);
    lemma_walk_is_right(graph, to_visit, no_walk());
    if has_cycle(graph, to_visit) {
        let (node, path) = choose|node: u64, path: Seq<u64>| #[trigger]
            is_cycle(graph, node, path) && reachable_from(graph, to_visit, node);
        assert(edge_at(edges, path, 0));
        let next = path[1];
        assert(graph[node].contains(next));
        assert(walk.emitted.contains(node));
        lemma_path_single(edges, node);
        assert(reachable(edges, node, node));
        assert(reachable_from(graph, walk.emitted, node));
        assert(is_cycle(graph, node, path));
        if walk.emitted.len() == 1 {
            if path.len() > 2 {
                assert(edge_at(edges, path, 1));
                lemma_path_push(edges, node, seq![node], node, next);
                assert(reachable(edges, node, next));
                lemma_reach_through(graph, to_visit, node, next);
                assert(walk.emitted.contains(next));
            }
            assert(next == node);
        } else {
            assert(walk.emitted.len() > 0);
        }
    }
    if has_cycle(graph, walk.emitted) {
        let (node, path) = choose|node: u64, path: Seq<u64>| #[trigger]
            is_cycle(graph, node, path) && reachable_from(graph, walk.emitted, node);
        let s = choose|s: u64| #[trigger] walk.emitted.contains(s) && reachable(edges, s, node);
        lemma_reach_through(graph, to_visit, s, node);
        assert(is_cycle(graph, node, path) && reachable_from(graph, to_visit, node));
    }
}

/// In a completed graph there are the same cycles, and the same nodes can be
/// reached.
proof fn lemma_completed_same(graph: Map<u64, Seq<u64>>, start: Seq<u64>)
    ensures
        has_cycle(completed(graph, start), start) == has_cycle(graph, start),
        forall|node: u64| #[trigger]
            lies_on_cycle(completed(graph, start), node) == lies_on_cycle(graph, node),
        forall|node: u64| #[trigger]
            reachable_from(completed(graph, start), start, node) == reachable_from(
                graph,
                start,
                node,
            ),
{
    let all = completed(graph, start);
    lemma_completed_edges(graph, start);
    assert forall|node: u64, path: Seq<u64>| #[trigger]
        is_cycle(all, node, path) == is_cycle(graph, node, path) by {}
    assert forall|node: u64| #[trigger] lies_on_cycle(all, node) == lies_on_cycle(graph, node) by {
        if lies_on_cycle(graph, node) {
            let path = choose|path: Seq<u64>| is_cycle(graph, node, path);
            assert(is_cycle(all, node, path));
        }
        if lies_on_cycle(all, node) {
            let path = choose|path: Seq<u64>| is_cycle(all, node, path);
            assert(is_cycle(graph, node, path));
        }
    }
    if has_cycle(graph, start) {
        let (node, path) = choose|node: u64, path: Seq<u64>| #[trigger]
            is_cycle(graph, node, path) && reachable_from(graph, start, node);
        assert(is_cycle(all, node, path) && reachable_from(all, start, node));
    }
    if has_cycle(all, start) {
        let (node, path) = choose|node: u64, path: Seq<u64>| #[trigger]
            is_cycle(all, node, path) && reachable_from(all, start, node);
        assert(is_cycle(graph, node, path) && reachable_from(graph, start, node));
    }
}

/// Leaving commits out repeats none.
proof fn lemma_keys_only_once(order: Seq<u64>, graph: Map<u64, Seq<u64>>)
    requires
        order.no_duplicates(),
    ensures
        keys_only(order, graph).no_duplicates(),
    decreases order.len(),
{
    if order.len() > 0 {
        let front = order.drop_last();
        lemma_keys_only_once(front, graph);
        lemma_keys_only(front, graph);
        let kept = keys_only(front, graph);
        assert(!kept.contains(order.last())) by {
            if kept.contains(order.last()) {
                assert(front.contains(order.last()));
                let i = choose|i: int| 0 <= i < front.len() && front[i] == order.last();
                assert(order[i] == order[order.len() - 1]);
            }
        }
    }
}

/// In the reverse of a topological order no node comes after a neighbor.
proof fn lemma_reverse_topo(
    graph: Map<u64, Seq<u64>>,
    start: Seq<u64>,
    all: Map<u64, Seq<u64>>,
    order: Seq<u64>,
)
    requires
        is_topo_order(all, start, order.reverse()),
        all == completed(graph, start),
    ensures
        forall|i: int, to: u64|
            0 <= i < order.len() && graph.contains_key(order[i])
                && #[trigger] graph[order[i]].contains(to) ==> !order.take(i + 1).contains(to),
{
    let forward = order.reverse();
    assert forall|i: int, to: u64|
        0 <= i < order.len() && graph.contains_key(order[i])
            && #[trigger] graph[order[i]].contains(to) implies !order.take(i + 1).contains(to) by {
        let k = order.len() - 1 - i;
        assert(forward[k] == order[i]);
        assert(neighbors_before(all, forward, k));
        assert(all[forward[k]].contains(to));
        let before = forward.take(k);
        assert(before.contains(to));
        let j = choose|j: int| 0 <= j < before.len() && before[j] == to;
        assert(forward[j] == to);
        if order.take(i + 1).contains(to) {
            let part = order.take(i + 1);
            let m = choose|m: int| 0 <= m < part.len() && part[m] == to;
            assert(order[m] == to);
            assert(forward[order.len() - 1 - m] == to);
            assert(forward[j] != forward[order.len() - 1 - m]);
        }
    }
}

/// Where there is no cycle, the commits that a look has found come out, each
/// before its predecessors.
proof fn lemma_emission(graph: Map<u64, Seq<u64>>, to_visit: Seq<u64>)
    requires
        graph.dom().finite(),
        !has_cycle(graph, to_visit),
        ({
            let walk = walk_op(graph, to_visit, no_walk());
            let all = completed(graph, walk.emitted);
            needs_order(walk) ==> is_topo_order(all, walk.emitted, topo_order(all, walk.emitted))
        }),
    ensures
        ({
            let order = emission(graph, walk_op(graph, to_visit, no_walk()));
            &&& forall|id: u64| #[trigger]
                order.contains(id) <==> graph.contains_key(id) && reachable_from(
                    graph,
                    to_visit,
                    id,
                )
            &&& no_predecessor_first(graph, order)
            &&& order.no_duplicates()
        }),
{
    let walk = walk_op(graph, to_visit, no_walk());
    let order = emission(graph, walk);
    lemma_walk_op(graph, to_visit);
    lemma_walk_is_right(graph, to_visit, no_walk());
    lemma_cycle_found(graph, to_visit);
    if needs_order(walk) {
        let all = completed(graph, walk.emitted);
        let sorted = topo_order(all, walk.emitted).reverse();
        lemma_completed_same(graph, walk.emitted);
        assert(sorted.reverse() =~= topo_order(all, walk.emitted));
        lemma_reverse_topo(graph, walk.emitted, all, sorted);
        lemma_keys_only_reverse(sorted, graph);
        assert(sorted.no_duplicates()) by {
            let forward = sorted.reverse();
            assert forall|i: int, j: int|
                0 <= i < sorted.len() && 0 <= j < sorted.len() && i != j implies sorted[i]
                != sorted[j] by {
                assert(forward[sorted.len() - 1 - i] == sorted[i]);
                assert(forward[sorted.len() - 1 - j] == sorted[j]);
            }
        }
        lemma_keys_only_once(sorted, graph);
        assert forall|id: u64| #[trigger] order.contains(id) <==> graph.contains_key(id)
            && reachable_from(graph, to_visit, id) by {
            assert(order.contains(id) <==> sorted.contains(id) && graph.contains_key(id));
            assert(sorted.contains(id) <==> sorted.reverse().contains(id)) by {
                if sorted.contains(id) {
                    let i = choose|i: int| 0 <= i < sorted.len() && sorted[i] == id;
                    assert(sorted.reverse()[sorted.len() - 1 - i] == id);
                }
                if sorted.reverse().contains(id) {
                    let i = choose|i: int|
                        0 <= i < sorted.reverse().len() && sorted.reverse()[i] == id;
                    assert(sorted[sorted.len() - 1 - i] == id);
                }
            }
            if sorted.contains(id) {
                assert(reachable_from(graph, walk.emitted, id));
                let s = choose|s: u64| #[trigger]
                    walk.emitted.contains(s) && reachable(edges_of(graph), s, id);
                lemma_reach_through(graph, to_visit, s, id);
            }
            if graph.contains_key(id) && reachable_from(graph, to_visit, id) {
                assert(walk.emitted.contains(id));
                lemma_path_single(edges_of(graph), id);
                assert(reachable(edges_of(graph), id, id));
                assert(reachable_from(graph, walk.emitted, id));
                assert(reachable_from(all, walk.emitted, id));
            }
        }
    } else {
        assert forall|i: int, to: u64|
            0 <= i < order.len() && #[trigger] graph[order[i]].contains(to) implies !order.take(
            i + 1,
        ).contains(to) by {
            assert(walk.emitted.contains(order[i]));
            if order.take(i + 1).contains(to) {
                assert(order.take(1)[0] == order[0]);
                assert(to == order[0]);
            }
        }
    }
}

proof fn lemma_keys_only_reverse(order: Seq<u64>, graph: Map<u64, Seq<u64>>)
    requires
        forall|i: int, to: u64|
            0 <= i < order.len() && graph.contains_key(order[i])
                && #[trigger] graph[order[i]].contains(to) ==> !order.take(i + 1).contains(to),
    ensures
        forall|id: u64| #[trigger]
            keys_only(order, graph).contains(id) <==> order.contains(id) && graph.contains_key(id),
        no_predecessor_first(graph, keys_only(order, graph)),
    decreases order.len(),
{
    let kept = keys_only(order, graph);
    lemma_keys_only(order, graph);
    if order.len() > 0 {
        let front = order.drop_last();
        assert forall|i: int, to: u64|
            0 <= i < front.len() && graph.contains_key(front[i])
                && #[trigger] graph[front[i]].contains(to) implies !front.take(i + 1).contains(
            to,
        ) by {
            assert(graph[order[i]].contains(to));
            assert(front.take(i + 1) =~= order.take(i + 1));
        }
        lemma_keys_only_reverse(front, graph);
        let old_kept = keys_only(front, graph);
        assert forall|i: int, to: u64|
            0 <= i < kept.len() && #[trigger] graph[kept[i]].contains(to) implies !kept.take(
            i + 1,
        ).contains(to) by {
            if i < old_kept.len() {
                assert(kept[i] == old_kept[i]);
                assert(graph[old_kept[i]].contains(to));
                assert(kept.take(i + 1) =~= old_kept.take(i + 1));
            } else {
                assert(graph[order[order.len() - 1]].contains(to));
                assert(order.take(order.len() as int) =~= order);
                assert(kept.take(i + 1) =~= kept);
            }
        }
    }
}

/// A commit to load, and the operation that made it.
#[derive(Debug, PartialEq, Eq, Structural, Clone, Copy)]
pub struct QueuedCommit {
    /// The commit.
    pub commit_id: u64,
    /// The operation where the commit was created or rewritten.
    pub operation: Option<u64>,
}

/// The commits, and the operation that made them.
pub open spec fn queued_by(ids: Seq<u64>, operation: Option<u64>) -> Seq<QueuedCommit> {
    ids.map_values(|id: u64| QueuedCommit { commit_id: id, operation })
}

/// What a walk along predecessors waits for.
#[derive(Debug, PartialEq, Eq, Structural, Clone, Copy)]
pub enum WalkStep {
    /// The next operation, from the latest to the earliest.
    NextOperation,
    /// A commit is emitted.
    Entry(QueuedCommit),
    /// The walk is over.
    Done,
}

/// A walk along predecessors, operation by operation.
#[derive(Debug)]
pub struct WalkPredecessors {
    /// The commits whose predecessors are looked for.
    pub to_visit: Vec<u64>,
    /// The commits that are emitted next.
    pub queued: VecDeque<QueuedCommit>,
}

/// Walks operations to emit commit predecessors in reverse topological order.
pub fn walk_predecessors(start_commits: &[u64]) -> (walk: WalkPredecessors)
    ensures
        walk.to_visit@ == start_commits@,
        walk.queued@.len() == 0,
{
    let mut to_visit: Vec<u64> = Vec::new();
    let mut i: usize = 0;
    while i < start_commits.len()
        invariant
            i <= start_commits@.len(),
            to_visit@ == start_commits@.take(i as int),
        decreases start_commits@.len() - i,
    {
        to_visit.push(start_commits[i]);
        i += 1;
        assert(to_visit@ =~= start_commits@.take(i as int));
    }
    assert(start_commits@.take(i as int) =~= start_commits@);
    WalkPredecessors { to_visit, queued: VecDeque::new() }
}

fn contains_id(ids: &Vec<u64>, id: u64) -> (found: bool)
    ensures
        found == ids@.contains(id),
{
    let mut i: usize = 0;
    while i < ids.len()
        invariant
            i <= ids@.len(),
            forall|k: int| 0 <= k < i ==> ids@[k] != id,
        decreases ids@.len() - i,
    {
        if ids[i] == id {
            assert(ids@.contains(ids@[i as int]));
            return true;
        }
        i += 1;
    }
    false
}

impl WalkPredecessors {
    /// Tells what the walk waits for.
    pub fn next(&mut self) -> (step: WalkStep)
        ensures
            final(self).to_visit == old(self).to_visit,
            match step {
                WalkStep::NextOperation => old(self).to_visit@.len() > 0 && old(self).queued@.len()
                    == 0 && final(self).queued@ == old(self).queued@,
                WalkStep::Entry(entry) => old(self).queued@.len() > 0 && entry == old(
                    self,
                ).queued@[0] && final(self).queued@ == old(self).queued@.skip(1),
                WalkStep::Done => old(self).to_visit@.len() == 0 && old(self).queued@.len() == 0
                    && final(self).queued@ == old(self).queued@,
            },
    {
        if self.to_visit.len() > 0 && self.queued.len() == 0 {
            return WalkStep::NextOperation;
        }
        match self.queued.pop_front() {
            Some(entry) => WalkStep::Entry(entry),
            None => WalkStep::Done,
        }
    }

    /// Takes the next operation, or notes that there are no more. Where
    /// predecessors were not recorded, those of earlier operations are ignored.
    pub fn visit(&mut self, op: Option<&Operation>) -> (result: Result<(), WalkPredecessorsError>)
        ensures
            match op {
                Some(op) if op.commit_predecessors is Some => {
                    let graph = op.predecessors();
                    let walk = walk_op(graph, old(self).to_visit@, no_walk());
                    let order = emission(graph, walk);
                    &&& final(self).to_visit@ == walk.kept
                    &&& result is Err <==> has_cycle(graph, old(self).to_visit@)
                    &&& result is Ok ==> final(self).queued@ == old(self).queued@ + queued_by(
                        order,
                        Some(op.id),
                    ) && no_predecessor_first(graph, order) && order.no_duplicates() && forall|
                        id: u64,
                    | #[trigger]
                        order.contains(id) <==> graph.contains_key(id) && reachable_from(
                            graph,
                            old(self).to_visit@,
                            id,
                        )
                    &&& result matches Err(error) ==> final(self).queued@ == old(self).queued@ && (
                    error matches WalkPredecessorsError::CycleDetected(id) && lies_on_cycle(
                        graph,
                        id,
                    ))
                },
                _ => {
                    &&& result is Ok
                    &&& final(self).to_visit@.len() == 0
                    &&& final(self).queued@ == old(self).queued@ + queued_by(
                        old(self).to_visit@,
                        None,
                    )
                },
            },
    {
        match op {
            Some(op) => {
                if op.stores_commit_predecessors() {
                    return self.visit_op(op);
                }
            },
            None => {},
        }
        self.flush_commits();
        Ok(())
    }

    /// Looks for predecessors within the given operation.
    fn visit_op(&mut self, op: &Operation) -> (result: Result<(), WalkPredecessorsError>)
        requires
            op.commit_predecessors is Some,
        ensures
            ({
                let graph = op.predecessors();
                let walk = walk_op(graph, old(self).to_visit@, no_walk());
                let order = emission(graph, walk);
                &&& final(self).to_visit@ == walk.kept
                &&& result is Err <==> has_cycle(graph, old(self).to_visit@)
                &&& result is Ok ==> final(self).queued@ == old(self).queued@ + queued_by(
                    order,
                    Some(op.id),
                ) && no_predecessor_first(graph, order) && order.no_duplicates() && forall|
                    id: u64,
                | #[trigger]
                    order.contains(id) <==> graph.contains_key(id) && reachable_from(
                        graph,
                        old(self).to_visit@,
                        id,
                    )
                &&& result matches Err(error) ==> final(self).queued@ == old(self).queued@ && (
                error matches WalkPredecessorsError::CycleDetected(id) && lies_on_cycle(graph, id))
            }),
    {
        let map: &BTreeMap<u64, Vec<u64>> = op.commit_predecessors.as_ref().unwrap();
        let ghost graph = op.predecessors();
        let ghost start = self.to_visit@;
        let ghost goal = walk_op(graph, start, no_walk());
        assert(graph.dom() =~= map@.dom());
        let mut pending: Vec<u64> = Vec::new();
        let mut i: usize = self.to_visit.len();
        while i > 0
            invariant
                i <= self.to_visit@.len(),
                pending@.reverse() == self.to_visit@.skip(i as int),
                self.to_visit@ == start,
                self.queued@ == old(self).queued@,
            decreases i,
        {
            i -= 1;
            proof {
                lemma_push_reverse(pending@, self.to_visit@[i as int]);
                assert(self.to_visit@.skip(i as int) =~= seq![self.to_visit@[i as int]]
                    + self.to_visit@.skip(i + 1));
            }
            pending.push(self.to_visit[i]);
        }
        assert(self.to_visit@.skip(0) =~= start);
        let mut kept: Vec<u64> = Vec::new();
        let mut to_emit: Vec<u64> = Vec::new();
        let mut has_dup: bool = false;
        assert(OpWalk { kept: kept@, emitted: to_emit@, repeated: has_dup } == no_walk()) by {
            assert(kept@ =~= Seq::<u64>::empty());
            assert(to_emit@ =~= Seq::<u64>::empty());
        }
        while pending.len() > 0
            invariant
                graph == op.predecessors(),
                graph.dom().finite(),
                goal == walk_op(
                    graph,
                    pending@.reverse(),
                    OpWalk { kept: kept@, emitted: to_emit@, repeated: has_dup },
                ),
                self.to_visit@ == start,
                self.queued@ == old(self).queued@,
            decreases unvisited(graph, to_emit@.to_set()), pending@.len(),
        {
            let ghost before = pending@;
            let cur_id: u64 = pending.pop().unwrap();
            proof {
                assert(before.reverse()[0] == cur_id);
                assert(before.reverse().skip(1) =~= pending@.reverse());
            }
            match op.predecessors_for_commit(cur_id) {
                Some(next_ids) => {
                    if contains_id(&to_emit, cur_id) {
                        has_dup = true;
                    } else {
                        let ghost rest = pending@.reverse();
                        proof {
                            lemma_push_to_set(to_emit@, cur_id);
                            lemma_unvisited_visit(graph, to_emit@.to_set(), cur_id);
                        }
                        to_emit.push(cur_id);
                        let mut k: usize = next_ids.len();
                        assert(next_ids@.skip(k as int) + rest =~= rest);
                        while k > 0
                            invariant
                                k <= next_ids@.len(),
                                pending@.reverse() == next_ids@.skip(k as int) + rest,
                            decreases k,
                        {
                            k -= 1;
                            proof {
                                lemma_push_reverse(pending@, next_ids@[k as int]);
                                assert(next_ids@.skip(k as int) + rest =~= seq![
                                    next_ids@[k as int],
                                ] + (next_ids@.skip(k + 1) + rest));
                            }
                            pending.push(next_ids[k]);
                        }
                        assert(next_ids@.skip(0) =~= next_ids@);
                    }
                },
                None => {
                    kept.push(cur_id);
                },
            }
        }
        let ghost walk = OpWalk { kept: kept@, emitted: to_emit@, repeated: has_dup };
        assert(walk == goal);
        self.to_visit = kept;
        proof {
            lemma_cycle_found(graph, start);
            lemma_completed_same(graph, to_emit@);
        }
        if to_emit.len() > 1 || (to_emit.len() == 1 && has_dup) {
            let neighbors: HashMap<u64, Vec<u64>> = complete_graph(map, &to_emit);
            match topo_order_reverse(&to_emit, &neighbors) {
                Ok(sorted_ids) => {
                    let ghost all = completed(graph, to_emit@);
                    proof {
                        assert(topo_order(all, to_emit@).reverse().reverse() =~= topo_order(
                            all,
                            to_emit@,
                        ));
                        lemma_emission(graph, start);
                    }
                    self.emit_made(&sorted_ids, op);
                    Ok(())
                },
                Err(id) => Err(WalkPredecessorsError::CycleDetected(id)),
            }
        } else {
            proof {
                lemma_emission(graph, start);
                lemma_walk_op(graph, start);
                assert forall|i: int| 0 <= i < to_emit@.len() implies graph.contains_key(
                    #[trigger] to_emit@[i],
                ) by {
                    assert(to_emit@.contains(to_emit@[i]));
                }
                lemma_all_keys(to_emit@, graph);
            }
            self.emit_made(&to_emit, op);
            Ok(())
        }
    }

    /// Moves the commits that an operation made to the output queue.
    fn emit_made(&mut self, ids: &Vec<u64>, op: &Operation)
        ensures
            final(self).to_visit == old(self).to_visit,
            final(self).queued@ == old(self).queued@ + queued_by(
                keys_only(ids@, op.predecessors()),
                Some(op.id),
            ),
    {
        let ghost graph = op.predecessors();
        let ghost before = self.queued@;
        let mut i: usize = 0;
        assert(self.queued@ =~= before + queued_by(keys_only(ids@.take(0), graph), Some(op.id)));
        while i < ids.len()
            invariant
                i <= ids@.len(),
                graph == op.predecessors(),
                self.to_visit == old(self).to_visit,
                self.queued@ == before + queued_by(
                    keys_only(ids@.take(i as int), graph),
                    Some(op.id),
                ),
            decreases ids@.len() - i,
        {
            let ghost done = keys_only(ids@.take(i as int), graph);
            assert(ids@.take(i + 1).drop_last() =~= ids@.take(i as int));
            if op.predecessors_for_commit(ids[i]).is_some() {
                let entry: QueuedCommit = QueuedCommit {
                    commit_id: ids[i],
                    operation: Some(op.id),
                };
                self.queued.push_back(entry);
                assert(queued_by(done.push(ids@[i as int]), Some(op.id)) =~= queued_by(
                    done,
                    Some(op.id),
                ).push(entry));
                assert(self.queued@ =~= before + queued_by(done, Some(op.id)).push(entry));
            }
            i += 1;
        }
        assert(ids@.take(i as int) =~= ids@);
    }

    /// Moves remainder commits to output queue.
    fn flush_commits(&mut self)
        ensures
            final(self).to_visit@.len() == 0,
            final(self).queued@ == old(self).queued@ + queued_by(old(self).to_visit@, None),
    {
        let ghost before = self.queued@;
        let ghost ids = self.to_visit@;
        let mut i: usize = 0;
        assert(self.queued@ =~= before + queued_by(ids.take(0), None));
        while i < self.to_visit.len()
            invariant
                i <= self.to_visit@.len(),
                self.to_visit@ == ids,
                self.queued@ == before + queued_by(ids.take(i as int), None),
            decreases self.to_visit@.len() - i,
        {
            let entry: QueuedCommit = QueuedCommit {
                commit_id: self.to_visit[i],
                operation: None,
            };
            self.queued.push_back(entry);
            assert(queued_by(ids.take(i + 1), None) =~= queued_by(ids.take(i as int), None).push(
                entry,
            ));
            assert(self.queued@ =~= before + queued_by(ids.take(i as int), None).push(entry));
            i += 1;
        }
        assert(ids.take(i as int) =~= ids);
        self.to_visit.clear();
    }
}

proof fn lemma_push_reverse(ids: Seq<u64>, id: u64)
    ensures
        ids.push(id).reverse() == seq![id] + ids.reverse(),
{
    assert(ids.push(id).reverse() =~= seq![id] + ids.reverse());
}

proof fn lemma_all_keys(ids: Seq<u64>, graph: Map<u64, Seq<u64>>)
    requires
        forall|i: int| 0 <= i < ids.len() ==> graph.contains_key(#[trigger] ids[i]),
    ensures
        keys_only(ids, graph) == ids,
    decreases ids.len(),
{
    if ids.len() > 0 {
        lemma_all_keys(ids.drop_last(), graph);
        assert(ids =~= ids.drop_last().push(ids.last()));
    }
}

/// What stands for a commit: what it was resolved to, or itself.
pub open spec fn looked_up(resolved: Map<u64, Seq<u64>>, id: u64) -> Seq<u64> {
    if resolved.contains_key(id) {
        resolved[id]
    } else {
        seq![id]
    }
}

/// What stands for commits, in order.
pub open spec fn flattened(resolved: Map<u64, Seq<u64>>, ids: Seq<u64>) -> Seq<u64>
    decreases ids.len(),
{
    if ids.len() == 0 {
        Seq::empty()
    } else {
        flattened(resolved, ids.drop_last()) + looked_up(resolved, ids.last())
    }
}

/// Whether transitive edges were resolved: for each node that has edges and can
/// be reached, there is what stands for its neighbors, without repetitions.
pub open spec fn is_resolved(
    graph: Map<u64, Seq<u64>>,
    start: Seq<u64>,
    resolved: Map<u64, Seq<u64>>,
) -> bool {
    &&& forall|id: u64| #[trigger]
        resolved.contains_key(id) <==> graph.contains_key(id) && reachable_from(graph, start, id)
    &&& forall|id: u64| #[trigger]
        resolved.contains_key(id) ==> resolved[id] == dedup(flattened(resolved, graph[id]))
}

/// Whether the edges of resolved nodes lead to the nodes without edges that can
/// be reached from them.
pub open spec fn leads_to_ends(
    graph: Map<u64, Seq<u64>>,
    resolved: Map<u64, Seq<u64>>,
) -> bool {
    forall|id: u64, end: u64| #[trigger]
        resolved.contains_key(id) ==> (#[trigger] resolved[id].contains(end) <==> !graph.contains_key(
            end,
        ) && reachable(edges_of(graph), id, end))
}

proof fn lemma_flattened_contains(resolved: Map<u64, Seq<u64>>, ids: Seq<u64>, end: u64)
    ensures
        flattened(resolved, ids).contains(end) <==> exists|i: int|
            0 <= i < ids.len() && #[trigger] looked_up(resolved, ids[i]).contains(end),
    decreases ids.len(),
{
    if ids.len() > 0 {
        let front = ids.drop_last();
        lemma_flattened_contains(resolved, front, end);
        lemma_concat_contains(
            flattened(resolved, front),
            looked_up(resolved, ids.last()),
            end,
        );
        if flattened(resolved, front).contains(end) {
            let i = choose|i: int|
                0 <= i < front.len() && #[trigger] looked_up(resolved, front[i]).contains(end);
            assert(looked_up(resolved, ids[i]).contains(end));
        }
        if looked_up(resolved, ids.last()).contains(end) {
            assert(looked_up(resolved, ids[ids.len() - 1]).contains(end));
        }
        if exists|i: int|
            0 <= i < ids.len() && #[trigger] looked_up(resolved, ids[i]).contains(end) {
            let i = choose|i: int|
                0 <= i < ids.len() && #[trigger] looked_up(resolved, ids[i]).contains(end);
            if i < front.len() {
                assert(looked_up(resolved, front[i]).contains(end));
            }
        }
    }
}

/// What is resolved later does not change what stands for other commits.
proof fn lemma_flattened_insert(
    resolved: Map<u64, Seq<u64>>,
    id: u64,
    value: Seq<u64>,
    ids: Seq<u64>,
)
    requires
        !ids.contains(id),
    ensures
        flattened(resolved.insert(id, value), ids) == flattened(resolved, ids),
    decreases ids.len(),
{
    if ids.len() > 0 {
        let front = ids.drop_last();
        assert(ids.contains(ids.last()));
        if front.contains(id) {
            let i = choose|i: int| 0 <= i < front.len() && front[i] == id;
            assert(ids[i] == id);
        }
        lemma_flattened_insert(resolved, id, value, front);
    }
}

/// The first edge of a path, and the rest of it.
proof fn lemma_reach_next(graph: Map<u64, Seq<u64>>, from: u64, end: u64)
    requires
        graph.contains_key(from),
        from != end,
    ensures
        reachable(edges_of(graph), from, end) <==> exists|i: int|
            0 <= i < graph[from].len() && reachable(
                edges_of(graph),
                #[trigger] graph[from][i],
                end,
            ),
{
    let edges = edges_of(graph);
    if reachable(edges, from, end) {
        let path = choose|path: Seq<u64>| is_path(edges, from, path, end);
        assert(path.len() > 1);
        assert(edge_at(edges, path, 0));
        let next = path[1];
        let rest = path.skip(1);
        assert forall|i: int| 0 <= i < rest.len() - 1 implies #[trigger] edge_at(
            edges,
            rest,
            i,
        ) by {
            assert(edge_at(edges, path, i + 1));
        }
        assert(is_path(edges, next, rest, end));
        assert(graph[from].contains(next));
        let i = choose|i: int| 0 <= i < graph[from].len() && graph[from][i] == next;
        assert(reachable(edges, graph[from][i], end));
    }
    if exists|i: int|
        0 <= i < graph[from].len() && reachable(edges, #[trigger] graph[from][i], end) {
        let i = choose|i: int|
            0 <= i < graph[from].len() && reachable(edges, #[trigger] graph[from][i], end);
        let next = graph[from][i];
        assert(graph[from].contains(next));
        let path = choose|path: Seq<u64>| is_path(edges, next, path, end);
        let longer = seq![from] + path;
        assert forall|k: int| 0 <= k < longer.len() - 1 implies #[trigger] edge_at(
            edges,
            longer,
            k,
        ) by {
            if k > 0 {
                assert(edge_at(edges, path, k - 1));
            }
        }
        assert(is_path(edges, from, longer, end));
    }
}

/// From a node without edges only itself can be reached.
proof fn lemma_end_reaches_itself(graph: Map<u64, Seq<u64>>, from: u64, to: u64)
    requires
        !graph.contains_key(from),
    ensures
        reachable(edges_of(graph), from, to) <==> from == to,
{
    let edges = edges_of(graph);
    lemma_path_single(edges, from);
    if reachable(edges, from, to) {
        let path = choose|path: Seq<u64>| is_path(edges, from, path, to);
        if path.len() > 1 {
            assert(edge_at(edges, path, 0));
        }
    }
}

/// The list of what stands for a node's neighbors leads where the node leads.
proof fn lemma_leads_to_ends_step(
    graph: Map<u64, Seq<u64>>,
    resolved: Map<u64, Seq<u64>>,
    id: u64,
)
    requires
        graph.contains_key(id),
        leads_to_ends(graph, resolved),
        forall|k: int|
            0 <= k < graph[id].len() && graph.contains_key(graph[id][k])
                ==> resolved.contains_key(#[trigger] graph[id][k]),
        forall|node: u64| #[trigger] resolved.contains_key(node) ==> graph.contains_key(node),
    ensures
        forall|end: u64| #[trigger]
            dedup(flattened(resolved, graph[id])).contains(end) <==> !graph.contains_key(end)
                && reachable(edges_of(graph), id, end),
{
    let ids = graph[id];
    let flat = flattened(resolved, ids);
    assert forall|end: u64| #[trigger] dedup(flat).contains(end) <==> !graph.contains_key(end)
        && reachable(edges_of(graph), id, end) by {
        lemma_dedup(flat);
        lemma_flattened_contains(resolved, ids, end);
        if flat.contains(end) {
            let i = choose|i: int|
                0 <= i < ids.len() && #[trigger] looked_up(resolved, ids[i]).contains(end);
            if resolved.contains_key(ids[i]) {
                assert(resolved[ids[i]].contains(end));
            } else {
                assert(end == ids[i]);
                lemma_end_reaches_itself(graph, end, end);
            }
            assert(reachable(edges_of(graph), ids[i], end));
            lemma_reach_next(graph, id, end);
        }
        if !graph.contains_key(end) && reachable(edges_of(graph), id, end) {
            lemma_reach_next(graph, id, end);
            let i = choose|i: int|
                0 <= i < ids.len() && reachable(edges_of(graph), #[trigger] ids[i], end);
            if graph.contains_key(ids[i]) {
                assert(resolved.contains_key(ids[i]));
                assert(resolved[ids[i]].contains(end));
            } else {
                lemma_end_reaches_itself(graph, ids[i], end);
                assert(looked_up(resolved, ids[i])[0] == end);
            }
            assert(looked_up(resolved, ids[i]).contains(end));
        }
    }
}

/// Appends those of the ids that are not in the list.
fn extend_unique(list: &mut Vec<u64>, ids: &[u64], Ghost(all): Ghost<Seq<u64>>)
    requires
        old(list)@ == dedup(all),
    ensures
        final(list)@ == dedup(all + ids@),
{
    let mut i: usize = 0;
    assert(all + ids@.take(0) =~= all);
    while i < ids.len()
        invariant
            i <= ids@.len(),
            list@ == dedup(all + ids@.take(i as int)),
        decreases ids@.len() - i,
    {
        proof {
            lemma_dedup_push(all + ids@.take(i as int), ids@[i as int]);
            assert((all + ids@.take(i as int)).push(ids@[i as int]) =~= all + ids@.take(i + 1));
        }
        if !contains_id(list, ids[i]) {
            list.push(ids[i]);
        }
        i += 1;
    }
    assert(ids@.take(i as int) =~= ids@);
}

/// Resolves transitive edges in `graph` starting from the `start` nodes,
/// returns new DAG. The returned DAG only holds edges reachable from the
/// `start` nodes.
pub fn resolve_transitive_edges(graph: &BTreeMap<u64, Vec<u64>>, start: &[u64]) -> (result: Result<
    BTreeMap<u64, Vec<u64>>,
    u64,
>)
    ensures
        result is Err <==> has_cycle(neighbor_graph(graph@), start@),
        result matches Err(id) ==> lies_on_cycle(neighbor_graph(graph@), id),
        result matches Ok(resolved) ==> is_resolved(
            neighbor_graph(graph@),
            start@,
            neighbor_graph(resolved@),
        ) && leads_to_ends(neighbor_graph(graph@), neighbor_graph(resolved@)),
{
    let ghost edges = neighbor_graph(graph@);
    let neighbors: HashMap<u64, Vec<u64>> = complete_graph(graph, start);
    let ghost all = completed(edges, start@);
    proof {
        lemma_completed_same(edges, start@);
    }
    let sorted_ids: Vec<u64> = match topo_order_forward(start, &neighbors) {
        Ok(sorted_ids) => sorted_ids,
        Err(id) => {
            return Err(id);
        },
    };
    let ghost order = sorted_ids@;
    let mut new_graph: BTreeMap<u64, Vec<u64>> = BTreeMap::new();
    let mut i: usize = 0;
    while i < sorted_ids.len()
        invariant
            i <= sorted_ids@.len(),
            order == sorted_ids@,
            edges == neighbor_graph(graph@),
            all == completed(edges, start@),
            is_topo_order(all, start@, order),
            forall|id: u64| #[trigger]
                neighbor_graph(new_graph@).contains_key(id) <==> edges.contains_key(id)
                    && order.take(i as int).contains(id),
            forall|id: u64| #[trigger]
                neighbor_graph(new_graph@).contains_key(id) ==> neighbor_graph(new_graph@)[id]
                    == dedup(flattened(neighbor_graph(new_graph@), edges[id])),
            leads_to_ends(edges, neighbor_graph(new_graph@)),
        decreases sorted_ids@.len() - i,
    {
        let cur_id: u64 = sorted_ids[i];
        let ghost before = neighbor_graph(new_graph@);
        let ghost done = order.take(i as int);
        proof {
            assert(order.take(i + 1) =~= done.push(cur_id));
            assert forall|id: u64| #[trigger] order.take(i + 1).contains(id) <==> done.contains(id)
                || id == cur_id by {
                lemma_push_contains(done, cur_id, id);
            }
            assert(neighbors_before(all, order, i as int));
            assert(!done.contains(cur_id)) by {
                if done.contains(cur_id) {
                    let k = choose|k: int| 0 <= k < done.len() && done[k] == cur_id;
                    assert(order[k] != order[i as int]);
                }
            }
        }
        if let Some(ids) = graph.get(&cur_id) {
            assert(edges[cur_id] == ids@);
            let mut new_neighbors: Vec<u64> = Vec::new();
            let ghost mut flat = Seq::<u64>::empty();
            let mut k: usize = 0;
            assert(new_neighbors@ =~= dedup(flat));
            assert(flat =~= flattened(before, ids@.take(0)));
            while k < ids.len()
                invariant
                    k <= ids@.len(),
                    before == neighbor_graph(new_graph@),
                    flat == flattened(before, ids@.take(k as int)),
                    new_neighbors@ == dedup(flat),
                decreases ids@.len() - k,
            {
                proof {
                    assert(ids@.take(k + 1).drop_last() =~= ids@.take(k as int));
                }
                let id: u64 = ids[k];
                match new_graph.get(&id) {
                    Some(found) => {
                        assert(before[id] == found@);
                        extend_unique(&mut new_neighbors, found, Ghost(flat));
                        proof {
                            flat = flat + found@;
                        }
                    },
                    None => {
                        assert(!before.contains_key(id));
                        proof {
                            lemma_dedup_push(flat, id);
                            assert(flat.push(id) =~= flat + seq![id]);
                        }
                        if !contains_id(&new_neighbors, id) {
                            new_neighbors.push(id);
                        }
                        proof {
                            flat = flat + seq![id];
                        }
                    },
                }
                k += 1;
            }
            proof {
                assert(ids@.take(k as int) =~= ids@);
                let value = new_neighbors@;
                let after = before.insert(cur_id, value);
                assert forall|n: int|
                    0 <= n < edges[cur_id].len() && edges.contains_key(
                        edges[cur_id][n],
                    ) implies before.contains_key(#[trigger] edges[cur_id][n]) by {
                    assert(all[order[i as int]].contains(edges[cur_id][n]));
                    assert(done.contains(edges[cur_id][n]));
                }
                lemma_leads_to_ends_step(edges, before, cur_id);
                assert forall|id: u64| #[trigger] after.contains_key(id) implies after[id]
                    == dedup(flattened(after, edges[id])) by {
                    assert(!edges[id].contains(cur_id)) by {
                        if edges[id].contains(cur_id) {
                            let at = if id == cur_id {
                                i as int
                            } else {
                                choose|at: int| 0 <= at < done.len() && done[at] == id
                            };
                            if id != cur_id {
                                assert(before.contains_key(id));
                                assert(done.contains(id));
                            }
                            assert(order[at] == id);
                            assert(neighbors_before(all, order, at));
                            assert(all[order[at]].contains(cur_id));
                            let early = order.take(at);
                            assert(early.contains(cur_id));
                            let b = choose|b: int| 0 <= b < early.len() && early[b] == cur_id;
                            assert(order[b] == order[i as int]);
                            assert(b < at <= i);
                            assert(order[b] != order[i as int]);
                        }
                    }
                    lemma_flattened_insert(before, cur_id, value, edges[id]);
                }
                assert(leads_to_ends(edges, after)) by {
                    assert forall|id: u64, end: u64| #[trigger] after.contains_key(id) implies (
                    #[trigger] after[id].contains(end) <==> !edges.contains_key(end) && reachable(
                        edges_of(edges),
                        id,
                        end,
                    )) by {
                        if id == cur_id {
                            assert(dedup(flattened(before, edges[cur_id])).contains(end)
                                <==> !edges.contains_key(end) && reachable(
                                edges_of(edges),
                                id,
                                end,
                            ));
                        } else {
                            assert(before.contains_key(id));
                            assert(before[id].contains(end) <==> !edges.contains_key(end)
                                && reachable(edges_of(edges), id, end));
                        }
                    }
                }
            }
            new_graph.insert(cur_id, new_neighbors);
            assert(neighbor_graph(new_graph@) =~= before.insert(cur_id, new_neighbors@));
        }
        i += 1;
    }
    proof {
        assert(order.take(i as int) =~= order);
        let resolved = neighbor_graph(new_graph@);
        assert forall|id: u64| #[trigger] resolved.contains_key(id) <==> edges.contains_key(id)
            && reachable_from(edges, start@, id) by {
            assert(order.contains(id) <==> reachable_from(all, start@, id));
        }
    }
    Ok(new_graph)
}

/// A node, as often as it leads to another.
pub open spec fn edges_to(from: u64, neighbors: Seq<u64>, to: u64) -> Seq<u64>
    decreases neighbors.len(),
{
    if neighbors.len() == 0 {
        Seq::empty()
    } else {
        let front = edges_to(from, neighbors.drop_last(), to);
        if neighbors.last() == to {
            front.push(from)
        } else {
            front
        }
    }
}

/// The nodes among `keys` that lead to a node.
pub open spec fn incoming(graph: Map<u64, Seq<u64>>, keys: Seq<u64>, to: u64) -> Seq<u64>
    decreases keys.len(),
{
    if keys.len() == 0 {
        Seq::empty()
    } else {
        incoming(graph, keys.drop_last(), to) + edges_to(keys.last(), graph[keys.last()], to)
    }
}

/// The graph with all edges turned round. The nodes that lead to a node are in
/// ascending order.
pub open spec fn reversed_edges(graph: Map<u64, Seq<u64>>) -> Map<u64, Seq<u64>> {
    Map::new(
        |node: u64| is_neighbor(graph, node),
        |node: u64| incoming(graph, ascending(graph.dom()), node),
    )
}

proof fn lemma_edges_to(from: u64, neighbors: Seq<u64>, to: u64)
    ensures
        edges_to(from, neighbors, to).len() > 0 <==> neighbors.contains(to),
        forall|id: u64| #[trigger]
            edges_to(from, neighbors, to).contains(id) <==> id == from && neighbors.contains(to),
    decreases neighbors.len(),
{
    if neighbors.len() > 0 {
        let front = neighbors.drop_last();
        lemma_edges_to(from, front, to);
        assert(neighbors =~= front.push(neighbors.last()));
        lemma_push_contains(front, neighbors.last(), to);
        assert forall|id: u64| #[trigger] edges_to(from, neighbors, to).contains(id) <==> id == from
            && neighbors.contains(to) by {
            lemma_push_contains(edges_to(from, front, to), from, id);
            assert(edges_to(from, front, to).contains(id) <==> id == from && front.contains(to));
        }
    }
}

proof fn lemma_incoming(graph: Map<u64, Seq<u64>>, keys: Seq<u64>, to: u64)
    ensures
        incoming(graph, keys, to).len() > 0 <==> exists|i: int|
            0 <= i < keys.len() && graph[#[trigger] keys[i]].contains(to),
        forall|id: u64| #[trigger]
            incoming(graph, keys, to).contains(id) <==> keys.contains(id) && graph[id].contains(to),
    decreases keys.len(),
{
    if keys.len() > 0 {
        let front = keys.drop_last();
        let last = keys.last();
        lemma_incoming(graph, front, to);
        lemma_edges_to(last, graph[last], to);
        assert(keys =~= front.push(last));
        assert forall|id: u64| #[trigger] incoming(graph, keys, to).contains(id) <==> keys.contains(
            id,
        ) && graph[id].contains(to) by {
            lemma_push_contains(front, last, id);
            lemma_concat_contains(
                incoming(graph, front, to),
                edges_to(last, graph[last], to),
                id,
            );
            assert(incoming(graph, front, to).contains(id) <==> front.contains(id)
                && graph[id].contains(to));
            assert(edges_to(last, graph[last], to).contains(id) <==> id == last
                && graph[last].contains(to));
        }
        if incoming(graph, front, to).len() > 0 {
            let i = choose|i: int|
                0 <= i < front.len() && graph[#[trigger] front[i]].contains(to);
            assert(graph[keys[i]].contains(to));
        }
        if graph[last].contains(to) {
            assert(graph[keys[keys.len() - 1]].contains(to));
        }
        if exists|i: int| 0 <= i < keys.len() && graph[#[trigger] keys[i]].contains(to) {
            let i = choose|i: int| 0 <= i < keys.len() && graph[#[trigger] keys[i]].contains(to);
            if i < front.len() {
                assert(graph[front[i]].contains(to));
            }
        }
    }
}

proof fn lemma_edges_to_count(from: u64, neighbors: Seq<u64>, to: u64)
    ensures
        edges_to(from, neighbors, to).to_multiset().count(from) == neighbors.to_multiset().count(
            to,
        ),
        forall|i: int|
            0 <= i < edges_to(from, neighbors, to).len() ==> #[trigger] edges_to(
                from,
                neighbors,
                to,
            )[i] == from,
    decreases neighbors.len(),
{
    broadcast use vstd::seq_lib::group_to_multiset_ensures;
    broadcast use vstd::multiset::group_multiset_axioms;

    if neighbors.len() > 0 {
        let front = neighbors.drop_last();
        lemma_edges_to_count(from, front, to);
        assert(neighbors =~= front.push(neighbors.last()));
        assert(neighbors.to_multiset() =~= front.to_multiset().insert(neighbors.last()));
        assert(edges_to(from, front, to).push(from).to_multiset() =~= edges_to(
            from,
            front,
            to,
        ).to_multiset().insert(from));
    } else {
        assert(edges_to(from, neighbors, to) =~= neighbors);
        assert(neighbors.to_multiset() =~= vstd::multiset::Multiset::<u64>::empty());
    }
}

proof fn lemma_incoming_ascends(graph: Map<u64, Seq<u64>>, keys: Seq<u64>, to: u64)
    requires
        is_ascending(keys),
    ensures
        forall|i: int, j: int|
            0 <= i < j < incoming(graph, keys, to).len() ==> incoming(graph, keys, to)[i]
                <= incoming(graph, keys, to)[j],
        forall|i: int|
            0 <= i < incoming(graph, keys, to).len() ==> #[trigger] incoming(
                graph,
                keys,
                to,
            )[i] <= keys.last(),
    decreases keys.len(),
{
    if keys.len() > 0 {
        let front = keys.drop_last();
        let last = keys.last();
        lemma_incoming_ascends(graph, front, to);
        lemma_edges_to_count(last, graph[last], to);
        let list = incoming(graph, keys, to);
        let before = incoming(graph, front, to);
        let added = edges_to(last, graph[last], to);
        if before.len() > 0 {
            lemma_incoming(graph, front, to);
            assert(before.contains(before[0]));
            assert(front.len() > 0);
            assert(keys[front.len() - 1] < keys[front.len() as int]);
        }
        assert forall|i: int| 0 <= i < list.len() implies #[trigger] list[i] <= last by {
            if i < before.len() {
                assert(list[i] == before[i]);
            } else {
                assert(list[i] == added[i - before.len()]);
            }
        }
        assert forall|i: int, j: int| 0 <= i < j < list.len() implies list[i] <= list[j] by {
            if j < before.len() {
                assert(list[i] == before[i] && list[j] == before[j]);
            } else {
                assert(list[j] == added[j - before.len()]);
            }
        }
    }
}

proof fn lemma_incoming_count(graph: Map<u64, Seq<u64>>, keys: Seq<u64>, from: u64, to: u64)
    requires
        is_ascending(keys),
    ensures
        incoming(graph, keys, to).to_multiset().count(from) == (if keys.contains(from) {
            graph[from].to_multiset().count(to)
        } else {
            0
        }),
    decreases keys.len(),
{
    broadcast use vstd::seq_lib::group_to_multiset_ensures;
    broadcast use vstd::multiset::group_multiset_axioms;

    if keys.len() > 0 {
        let front = keys.drop_last();
        let last = keys.last();
        lemma_incoming_count(graph, front, from, to);
        lemma_edges_to_count(last, graph[last], to);
        let before = incoming(graph, front, to);
        let added = edges_to(last, graph[last], to);
        vstd::seq_lib::lemma_multiset_commutative(before, added);
        assert(keys =~= front.push(last));
        lemma_push_contains(front, last, from);
        if from == last {
            if front.contains(from) {
                let k = choose|k: int| 0 <= k < front.len() && front[k] == from;
                assert(keys[k] < keys[front.len() as int]);
            }
        } else {
            lemma_edges_to(last, graph[last], to);
            assert(!added.contains(from));
            assert(added.to_multiset().count(from) == 0);
        }
    } else {
        assert(incoming(graph, keys, to) =~= Seq::<u64>::empty());
        assert(incoming(graph, keys, to).to_multiset() =~= vstd::multiset::Multiset::<
            u64,
        >::empty());
    }
}

/// Turning the edges of a graph round gives an edge for each edge, as often as
/// there is that edge, and the nodes that lead to a node are in ascending order.
pub proof fn lemma_reversed_edges(graph: Map<u64, Seq<u64>>, from: u64, to: u64)
    requires
        graph.dom().finite(),
    ensures
        graph.contains_key(from) && graph[from].contains(to) <==> reversed_edges(
            graph,
        ).contains_key(to) && reversed_edges(graph)[to].contains(from),
        looked_in(reversed_edges(graph), to).to_multiset().count(from) == looked_in(
            graph,
            from,
        ).to_multiset().count(to),
        forall|i: int, j: int|
            0 <= i < j < looked_in(reversed_edges(graph), to).len() ==> looked_in(
                reversed_edges(graph),
                to,
            )[i] <= looked_in(reversed_edges(graph), to)[j],
{
    let keys = ascending(graph.dom());
    let list = looked_in(reversed_edges(graph), to);
    lemma_ascending_lists(graph.dom());
    lemma_incoming(graph, keys, to);
    assert(keys.contains(from) <==> graph.dom().contains(from));
    if graph.contains_key(from) && graph[from].contains(to) {
        assert(is_neighbor(graph, to));
    }
    lemma_incoming_ascends(graph, keys, to);
    lemma_incoming_count(graph, keys, from, to);
    let none = Seq::<u64>::empty();
    assert(none.to_multiset() =~= vstd::multiset::Multiset::<u64>::empty()) by {
        broadcast use vstd::seq_lib::group_to_multiset_ensures;
        broadcast use vstd::multiset::group_multiset_axioms;

    }
    if !is_neighbor(graph, to) {
        assert(incoming(graph, keys, to) =~= none) by {
            if incoming(graph, keys, to).len() > 0 {
                let i = choose|i: int|
                    0 <= i < keys.len() && graph[#[trigger] keys[i]].contains(to);
                assert(keys.contains(keys[i]));
                assert(graph.dom().contains(keys[i]));
            }
        }
    }
    assert(list == incoming(graph, keys, to));
}

/// Turns the edges of a graph round. The nodes that lead to a node are in the
/// order of their numbers, so numbers have to be ordered as the ids are that
/// they stand for.
pub fn reverse_edges(graph: BTreeMap<u64, Vec<u64>>) -> (reversed: BTreeMap<u64, Vec<u64>>)
    ensures
        neighbor_graph(reversed@) == reversed_edges(neighbor_graph(graph@)),
{
    let ghost edges = neighbor_graph(graph@);
    let keys: Vec<u64> = sorted_keys(&graph);
    let mut new_graph: BTreeMap<u64, Vec<u64>> = BTreeMap::new();
    let mut i: usize = 0;
    assert(edges.dom() =~= graph@.dom());
    while i < keys.len()
        invariant
            i <= keys@.len(),
            edges == neighbor_graph(graph@),
            edges.dom() == graph@.dom(),
            lists(keys@, graph@.dom()),
            forall|node: u64| #[trigger]
                looked_in(neighbor_graph(new_graph@), node) == incoming(
                    edges,
                    keys@.take(i as int),
                    node,
                ),
            forall|node: u64| #[trigger]
                new_graph@.contains_key(node) ==> new_graph@[node]@.len() > 0,
        decreases keys@.len() - i,
    {
        let node1: u64 = keys[i];
        let ghost before = keys@.take(i as int);
        assert(keys@.contains(node1));
        let neighbors: &Vec<u64> = graph.get(&node1).unwrap();
        assert(edges[node1] == neighbors@);
        let mut k: usize = 0;
        assert forall|node: u64| #[trigger] looked_in(neighbor_graph(new_graph@), node) == incoming(
            edges,
            before,
            node,
        ) + edges_to(node1, neighbors@.take(0), node) by {
            assert(incoming(edges, before, node) + edges_to(node1, neighbors@.take(0), node)
                =~= incoming(edges, before, node));
        }
        while k < neighbors.len()
            invariant
                k <= neighbors@.len(),
                forall|node: u64| #[trigger]
                    looked_in(neighbor_graph(new_graph@), node) == incoming(edges, before, node)
                        + edges_to(node1, neighbors@.take(k as int), node),
                forall|node: u64| #[trigger]
                    new_graph@.contains_key(node) ==> new_graph@[node]@.len() > 0,
            decreases neighbors@.len() - k,
        {
            let node2: u64 = neighbors[k];
            let ghost old_graph = neighbor_graph(new_graph@);
            assert(looked_in(old_graph, node2) == looked_in(old_graph, node2));
            let mut list: Vec<u64> = match new_graph.remove(&node2) {
                Some(list) => list,
                None => Vec::new(),
            };
            assert(list@ =~= looked_in(old_graph, node2));
            list.push(node1);
            new_graph.insert(node2, list);
            proof {
                let now = neighbor_graph(new_graph@);
                let more = neighbors@.take(k + 1);
                assert(more.drop_last() =~= neighbors@.take(k as int));
                assert forall|node: u64| #[trigger] looked_in(now, node) == incoming(
                    edges,
                    before,
                    node,
                ) + edges_to(node1, more, node) by {
                    assert(looked_in(old_graph, node) == incoming(edges, before, node) + edges_to(
                        node1,
                        neighbors@.take(k as int),
                        node,
                    ));
                    assert(looked_in(now, node) =~= incoming(edges, before, node) + edges_to(
                        node1,
                        more,
                        node,
                    ));
                }
            }
            k += 1;
        }
        proof {
            assert(neighbors@.take(k as int) =~= neighbors@);
            assert(keys@.take(i + 1).drop_last() =~= before);
            assert(keys@.take(i + 1).last() == node1);
        }
        i += 1;
    }
    proof {
        assert(keys@.take(i as int) =~= keys@);
        let now = neighbor_graph(new_graph@);
        let goal = reversed_edges(edges);
        assert forall|node: u64| #[trigger] now.contains_key(node) <==> goal.contains_key(node) by {
            assert(looked_in(now, node) == incoming(edges, keys@, node));
            lemma_incoming(edges, keys@, node);
            if goal.contains_key(node) {
                let from = choose|from: u64| #[trigger]
                    edges.contains_key(from) && edges[from].contains(node);
                assert(keys@.contains(from));
                let j = choose|j: int| 0 <= j < keys@.len() && keys@[j] == from;
                assert(edges[keys@[j]].contains(node));
            }
            if now.contains_key(node) {
                let j = choose|j: int|
                    0 <= j < keys@.len() && edges[#[trigger] keys@[j]].contains(node);
                assert(keys@.contains(keys@[j]));
                assert(edges.contains_key(keys@[j]));
            }
        }
        assert forall|node: u64| #[trigger] now.contains_key(node) implies now[node]
            == goal[node] by {
            assert(looked_in(now, node) == incoming(edges, keys@, node));
        }
        assert(now =~= goal);
    }
    new_graph
}

/// The neighbors of a node, none if there are none.
pub open spec fn looked_in(graph: Map<u64, Seq<u64>>, node: u64) -> Seq<u64> {
    if graph.contains_key(node) {
        graph[node]
    } else {
        Seq::empty()
    }
}

/// Whether predecessors were recorded for all operations.
pub open spec fn all_recorded(ops: Seq<Operation>) -> bool {
    forall|i: int| 0 <= i < ops.len() ==> (#[trigger] ops[i]).commit_predecessors is Some
}

/// The predecessors of operations, of which the later ones count, besides those
/// that are known.
pub open spec fn collected(known: Map<u64, Seq<u64>>, ops: Seq<Operation>) -> Map<u64, Seq<u64>>
    decreases ops.len(),
{
    if ops.len() == 0 {
        known
    } else {
        collected(known, ops.drop_last()).union_prefer_right(ops.last().predecessors())
    }
}

/// Collects the predecessors of operations.
fn try_collect_predecessors_into(
    collected: &mut BTreeMap<u64, Vec<u64>>,
    ops: &[Operation],
) -> (recorded: bool)
    ensures
        recorded == all_recorded(ops@),
        recorded ==> neighbor_graph(final(collected)@) == self::collected(
            neighbor_graph(old(collected)@),
            ops@,
        ),
{
    let ghost known = neighbor_graph(collected@);
    let mut i: usize = 0;
    while i < ops.len()
        invariant
            i <= ops@.len(),
            all_recorded(ops@.take(i as int)),
            neighbor_graph(collected@) == self::collected(known, ops@.take(i as int)),
        decreases ops@.len() - i,
    {
        let ghost before = neighbor_graph(collected@);
        proof {
            assert(ops@.take(i + 1).drop_last() =~= ops@.take(i as int));
            assert forall|k: int| 0 <= k < i implies (
            #[trigger] ops@[k]).commit_predecessors is Some by {
                assert(ops@.take(i as int)[k] == ops@[k]);
            }
        }
        let map: &BTreeMap<u64, Vec<u64>> = match &ops[i].commit_predecessors {
            Some(map) => map,
            None => {
                return false;
            },
        };
        let ghost new = ops@[i as int].predecessors();
        let keys: Vec<u64> = sorted_keys(map);
        let mut k: usize = 0;
        while k < keys.len()
            invariant
                k <= keys@.len(),
                new == neighbor_graph(map@),
                lists(keys@, map@.dom()),
                forall|id: u64| #[trigger]
                    neighbor_graph(collected@).contains_key(id) <==> before.contains_key(id)
                        || keys@.take(k as int).contains(id),
                forall|id: u64| #[trigger]
                    neighbor_graph(collected@).contains_key(id) ==> neighbor_graph(collected@)[id]
                        == (if keys@.take(k as int).contains(id) {
                        new[id]
                    } else {
                        before[id]
                    }),
            decreases keys@.len() - k,
        {
            let key: u64 = keys[k];
            let ghost held = neighbor_graph(collected@);
            assert(keys@.contains(key));
            let ids: Vec<u64> = copy_ids(map.get(&key).unwrap());
            collected.insert(key, ids);
            proof {
                let done = keys@.take(k as int);
                assert(keys@.take(k + 1) =~= done.push(key));
                assert forall|id: u64| #[trigger] keys@.take(k + 1).contains(id) <==> done.contains(
                    id,
                ) || id == key by {
                    lemma_push_contains(done, key, id);
                }
                assert(neighbor_graph(collected@) =~= held.insert(key, new[key]));
            }
            k += 1;
        }
        proof {
            assert(keys@.take(k as int) =~= keys@);
            assert(neighbor_graph(collected@) =~= before.union_prefer_right(new));
        }
        i += 1;
    }
    assert(ops@.take(i as int) =~= ops@);
    true
}

/// The ids of operations.
pub open spec fn op_ids(ops: Seq<Operation>) -> Seq<u64> {
    ops.map_values(|op: Operation| op.id)
}

/// The commits that operations have made, operation by operation.
pub open spec fn made_commits(ops: Seq<Operation>) -> Seq<u64>
    decreases ops.len(),
{
    if ops.len() == 0 {
        Seq::empty()
    } else {
        made_commits(ops.drop_last()) + ascending(ops.last().predecessors().dom())
    }
}

/// The graph whose transitive edges are resolved, and where that starts. None
/// if nothing can be told.
pub open spec fn to_resolve(
    new_ops: Seq<Operation>,
    old_ops: Seq<Operation>,
    reverse_ops: Seq<Operation>,
    forward_ops: Seq<Operation>,
) -> Option<(Map<u64, Seq<u64>>, Seq<u64>)> {
    if new_ops.len() == 0 || old_ops.len() == 0 {
        None
    } else if new_ops.len() == 1 && new_ops[0].parent_ids@ == op_ids(old_ops) {
        if new_ops[0].commit_predecessors is Some {
            Some((new_ops[0].predecessors(), ascending(new_ops[0].predecessors().dom())))
        } else {
            None
        }
    } else if all_recorded(reverse_ops) && all_recorded(forward_ops) {
        Some(
            (
                collected(reversed_edges(collected(Map::empty(), reverse_ops)), forward_ops),
                made_commits(new_ops),
            ),
        )
    } else {
        None
    }
}

/// Tells whether an operation directly follows operations.
fn follows(op: &Operation, old_ops: &[Operation]) -> (follows: bool)
    ensures
        follows == (op.parent_ids@ == op_ids(old_ops@)),
{
    if op.parent_ids.len() != old_ops.len() {
        assert(op_ids(old_ops@).len() == old_ops@.len());
        return false;
    }
    let mut i: usize = 0;
    while i < old_ops.len()
        invariant
            i <= old_ops@.len(),
            op.parent_ids@.len() == old_ops@.len(),
            forall|k: int| 0 <= k < i ==> op.parent_ids@[k] == old_ops@[k].id,
        decreases old_ops@.len() - i,
    {
        if op.parent_ids[i] != old_ops[i].id {
            assert(op_ids(old_ops@)[i as int] == old_ops@[i as int].id);
            return false;
        }
        i += 1;
    }
    assert(op.parent_ids@ =~= op_ids(old_ops@));
    true
}

/// Returns whether the operations between `old_ops` and `new_ops` are needed to
/// accumulate predecessors.
pub fn needs_walk(new_ops: &[Operation], old_ops: &[Operation]) -> (needed: bool)
    ensures
        needed == !(new_ops@.len() == 0 || old_ops@.len() == 0 || (new_ops@.len() == 1
            && new_ops@[0].parent_ids@ == op_ids(old_ops@))),
{
    if new_ops.len() == 0 || old_ops.len() == 0 {
        return false;
    }
    !(new_ops.len() == 1 && follows(&new_ops[0], old_ops))
}

/// Collects predecessor records from `new_ops` to `old_ops`, and resolves
/// transitive entries. The operations between them are handed in: those that
/// lead to `old_ops` only, and those that lead to `new_ops` only.
///
/// This function assumes that there exists a single greatest common ancestors
/// between `old_ops` and `new_ops`. If `old_ops` and `new_ops` have ancestors
/// and descendants each other, or if criss-crossed merges exist between these
/// operations, the returned mapping would be lossy.
pub fn accumulate_predecessors(
    new_ops: &[Operation],
    old_ops: &[Operation],
    reverse_ops: &[Operation],
    forward_ops: &[Operation],
) -> (result: Result<BTreeMap<u64, Vec<u64>>, WalkPredecessorsError>)
    ensures
        match to_resolve(new_ops@, old_ops@, reverse_ops@, forward_ops@) {
            Some((graph, start)) => {
                &&& result is Err <==> has_cycle(graph, start)
                &&& result matches Err(error) ==> (error matches
                    WalkPredecessorsError::CycleDetected(id) && lies_on_cycle(graph, id))
                &&& result matches Ok(resolved) ==> is_resolved(
                    graph,
                    start,
                    neighbor_graph(resolved@),
                ) && leads_to_ends(graph, neighbor_graph(resolved@))
            },
            None => result matches Ok(resolved) && resolved@ == Map::<u64, Vec<u64>>::empty(),
        },
        result matches Ok(resolved) ==> is_accumulated(
            new_ops@,
            old_ops@,
            reverse_ops@,
            forward_ops@,
            neighbor_graph(resolved@),
        ),
{
    assert(neighbor_graph(Map::<u64, Vec<u64>>::empty()) =~= Map::<u64, Seq<u64>>::empty());
    if new_ops.len() == 0 || old_ops.len() == 0 {
        return Ok(BTreeMap::new());  // No common ancestor exists

    }
    // Fast path for the single forward operation case.
    if new_ops.len() == 1 && follows(&new_ops[0], old_ops) {
        return match &new_ops[0].commit_predecessors {
            Some(map) => {
                let start: Vec<u64> = sorted_keys(map);
                assert(neighbor_graph(map@).dom() =~= map@.dom());
                match resolve_transitive_edges(map, &start) {
                    Ok(resolved) => Ok(resolved),
                    Err(id) => Err(WalkPredecessorsError::CycleDetected(id)),
                }
            },
            None => Ok(BTreeMap::new()),
        };
    }
    // Follow reverse edges from the common ancestor to old_ops. The order of the
    // map stabilizes the order of the reversed edges.
    let mut reverse: BTreeMap<u64, Vec<u64>> = BTreeMap::new();
    assert(neighbor_graph(reverse@) =~= Map::<u64, Seq<u64>>::empty());
    if !try_collect_predecessors_into(&mut reverse, reverse_ops) {
        return Ok(BTreeMap::new());
    }
    let mut accumulated: BTreeMap<u64, Vec<u64>> = reverse_edges(reverse);
    // Follow forward edges from new_ops to the common ancestor.
    if !try_collect_predecessors_into(&mut accumulated, forward_ops) {
        return Ok(BTreeMap::new());
    }
    let mut start: Vec<u64> = Vec::new();
    let mut i: usize = 0;
    assert(start@ =~= made_commits(new_ops@.take(0)));
    while i < new_ops.len()
        invariant
            i <= new_ops@.len(),
            start@ == made_commits(new_ops@.take(i as int)),
        decreases new_ops@.len() - i,
    {
        let ghost before = start@;
        proof {
            assert(new_ops@.take(i + 1).drop_last() =~= new_ops@.take(i as int));
        }
        match &new_ops[i].commit_predecessors {
            Some(map) => {
                let mut keys: Vec<u64> = sorted_keys(map);
                assert(neighbor_graph(map@).dom() =~= map@.dom());
                start.append(&mut keys);
            },
            None => {
                proof {
                    lemma_ascending_empty();
                    assert(new_ops@[i as int].predecessors().dom() =~= Set::<u64>::empty());
                    assert(before + Seq::<u64>::empty() =~= before);
                }
            },
        }
        i += 1;
    }
    assert(new_ops@.take(i as int) =~= new_ops@);
    match resolve_transitive_edges(&accumulated, &start) {
        Ok(resolved) => Ok(resolved),
        Err(id) => Err(WalkPredecessorsError::CycleDetected(id)),
    }
}

/// Whether an operation recorded what a commit was made from.
pub open spec fn records(op: Operation, commit: u64) -> bool {
    op.commit_predecessors matches Some(map) && map@.contains_key(commit)
}

/// What an operation recorded that a commit was made from.
pub open spec fn record_of(op: Operation, commit: u64) -> Seq<u64> {
    op.commit_predecessors->Some_0@[commit]@
}

/// Whether one of the operations recorded what a commit was made from.
pub open spec fn is_recorded(ops: Seq<Operation>, commit: u64) -> bool {
    exists|i: int| 0 <= i < ops.len() && records(#[trigger] ops[i], commit)
}

/// Whether one of the operations recorded that `commit` was made from `from`.
pub open spec fn is_recorded_from(ops: Seq<Operation>, commit: u64, from: u64) -> bool {
    exists|i: int|
        0 <= i < ops.len() && records(#[trigger] ops[i], commit) && record_of(
            ops[i],
            commit,
        ).contains(from)
}

/// Whether no two of the operations recorded the same commit.
pub open spec fn records_once(ops: Seq<Operation>) -> bool {
    forall|i: int, j: int, commit: u64|
        0 <= i < j < ops.len() && #[trigger] records(ops[i], commit) ==> !#[trigger] records(
            ops[j],
            commit,
        )
}

/// Every record of every operation is collected: a commit has the predecessors
/// that the last operation that recorded it gives, and a commit that no
/// operation recorded has those that were known.
pub proof fn lemma_collected(known: Map<u64, Seq<u64>>, ops: Seq<Operation>, commit: u64)
    ensures
        forall|i: int|
            #![trigger ops[i]]
            0 <= i < ops.len() && records(ops[i], commit) && (forall|j: int|
                i < j < ops.len() ==> !records(#[trigger] ops[j], commit)) ==> collected(
                known,
                ops,
            ).contains_key(commit) && collected(known, ops)[commit] == record_of(ops[i], commit),
        !is_recorded(ops, commit) ==> (collected(known, ops).contains_key(commit)
            <==> known.contains_key(commit)),
        !is_recorded(ops, commit) && known.contains_key(commit) ==> collected(known, ops)[commit]
            == known[commit],
    decreases ops.len(),
{
    if ops.len() > 0 {
        let front = ops.drop_last();
        lemma_collected(known, front, commit);
        assert(records(ops.last(), commit) <==> ops.last().predecessors().contains_key(commit));
        assert forall|i: int|
            #![trigger ops[i]]
            0 <= i < ops.len() && records(ops[i], commit) && (forall|j: int|
                i < j < ops.len() ==> !records(#[trigger] ops[j], commit)) implies collected(
            known,
            ops,
        ).contains_key(commit) && collected(known, ops)[commit] == record_of(ops[i], commit) by {
            if i < front.len() {
                assert(ops[front.len() as int] == ops.last());
                assert(front[i] == ops[i]);
                assert forall|j: int| i < j < front.len() implies !records(
                    #[trigger] front[j],
                    commit,
                ) by {
                    assert(front[j] == ops[j]);
                }
            }
        }
        if !is_recorded(ops, commit) {
            assert(ops[front.len() as int] == ops.last());
            assert forall|j: int| 0 <= j < front.len() implies !records(
                #[trigger] front[j],
                commit,
            ) by {
                assert(front[j] == ops[j]);
            }
        }
    }
}

/// A commit that operations recorded has as predecessors what is recorded of
/// it, if it is recorded once.
proof fn lemma_collected_once(known: Map<u64, Seq<u64>>, ops: Seq<Operation>, commit: u64)
    requires
        records_once(ops),
        is_recorded(ops, commit),
    ensures
        collected(known, ops).contains_key(commit),
        forall|from: u64| #[trigger]
            collected(known, ops)[commit].contains(from) <==> is_recorded_from(ops, commit, from),
{
    lemma_collected(known, ops, commit);
    let i = choose|i: int| 0 <= i < ops.len() && records(#[trigger] ops[i], commit);
    assert forall|j: int| i < j < ops.len() implies !records(#[trigger] ops[j], commit) by {
        assert(records(ops[i], commit));
    }
    assert(collected(known, ops)[commit] == record_of(ops[i], commit));
    assert forall|from: u64| #[trigger]
        collected(known, ops)[commit].contains(from) <==> is_recorded_from(
            ops,
            commit,
            from,
        ) by {
        if is_recorded_from(ops, commit, from) {
            let k = choose|k: int|
                0 <= k < ops.len() && records(#[trigger] ops[k], commit) && record_of(
                    ops[k],
                    commit,
                ).contains(from);
            assert(k == i) by {
                if k < i {
                    assert(records(ops[k], commit) && records(ops[i], commit));
                }
                if i < k {
                    assert(records(ops[i], commit) && records(ops[k], commit));
                }
            }
        }
    }
}

proof fn lemma_collected_finite(known: Map<u64, Seq<u64>>, ops: Seq<Operation>)
    requires
        known.dom().finite(),
    ensures
        collected(known, ops).dom().finite(),
    decreases ops.len(),
{
    if ops.len() > 0 {
        lemma_collected_finite(known, ops.drop_last());
        let front = collected(known, ops.drop_last());
        let last = ops.last().predecessors();
        match ops.last().commit_predecessors {
            Some(map) => {
                assert(last.dom() =~= map@.dom());
            },
            None => {
                assert(last.dom() =~= Set::<u64>::empty());
            },
        }
        assert(front.union_prefer_right(last).dom() =~= front.dom().union(last.dom()));
    }
}

/// The commits that operations have made are those that they recorded.
pub proof fn lemma_made_commits(ops: Seq<Operation>, commit: u64)
    ensures
        made_commits(ops).contains(commit) <==> is_recorded(ops, commit),
    decreases ops.len(),
{
    if ops.len() > 0 {
        let front = ops.drop_last();
        let last = ops.last().predecessors();
        lemma_made_commits(front, commit);
        match ops.last().commit_predecessors {
            Some(map) => {
                assert(last.dom() =~= map@.dom());
            },
            None => {
                assert(last.dom() =~= Set::<u64>::empty());
            },
        }
        lemma_ascending_lists(last.dom());
        lemma_concat_contains(made_commits(front), ascending(last.dom()), commit);
        assert(ascending(last.dom()).contains(commit) <==> last.dom().contains(commit));
        if is_recorded(front, commit) {
            let i = choose|i: int| 0 <= i < front.len() && records(#[trigger] front[i], commit);
            assert(ops[i] == front[i]);
        }
        if is_recorded(ops, commit) {
            let i = choose|i: int| 0 <= i < ops.len() && records(#[trigger] ops[i], commit);
            if i < front.len() {
                assert(front[i] == ops[i]);
            }
        }
        assert(ops[front.len() as int] == ops.last());
    }
}

/// Whether a step from new to old operations leads from a commit to another:
/// the commit was made from the other by one of the operations to follow
/// forward, or, if none of these made the commit, the other was made from the
/// commit by one of those to follow backward.
pub open spec fn steps_to(
    reverse_ops: Seq<Operation>,
    forward_ops: Seq<Operation>,
    from: u64,
    to: u64,
) -> bool {
    if is_recorded(forward_ops, from) {
        is_recorded_from(forward_ops, from, to)
    } else {
        is_recorded_from(reverse_ops, to, from)
    }
}

/// Whether a step from new to old operations may lead on from a commit: it was
/// made by an operation to follow forward, or something was made from it by one
/// to follow backward.
pub open spec fn has_step(
    reverse_ops: Seq<Operation>,
    forward_ops: Seq<Operation>,
    commit: u64,
) -> bool {
    is_recorded(forward_ops, commit) || exists|made: u64| #[trigger]
        is_recorded_from(reverse_ops, made, commit)
}

/// All steps from new to old operations.
pub open spec fn all_steps(reverse_ops: Seq<Operation>, forward_ops: Seq<Operation>) -> Set<
    (u64, u64),
> {
    Set::new(|step: (u64, u64)| steps_to(reverse_ops, forward_ops, step.0, step.1))
}

/// Whether predecessors were accumulated over operations: all that is to be
/// resolved was resolved, and nothing is given where nothing can be told.
pub open spec fn is_accumulated(
    new_ops: Seq<Operation>,
    old_ops: Seq<Operation>,
    reverse_ops: Seq<Operation>,
    forward_ops: Seq<Operation>,
    resolved: Map<u64, Seq<u64>>,
) -> bool {
    match to_resolve(new_ops, old_ops, reverse_ops, forward_ops) {
        Some((graph, start)) => is_resolved(graph, start, resolved) && leads_to_ends(
            graph,
            resolved,
        ),
        None => resolved == Map::<u64, Seq<u64>>::empty(),
    }
}

/// The steps from new to old operations are the edges that are resolved.
proof fn lemma_steps(reverse_ops: Seq<Operation>, forward_ops: Seq<Operation>)
    requires
        records_once(reverse_ops),
        records_once(forward_ops),
    ensures
        edges_of(
            collected(reversed_edges(collected(Map::empty(), reverse_ops)), forward_ops),
        ) == all_steps(reverse_ops, forward_ops),
        forall|commit: u64| #[trigger]
            has_step(reverse_ops, forward_ops, commit) <==> collected(
                reversed_edges(collected(Map::empty(), reverse_ops)),
                forward_ops,
            ).contains_key(commit),
{
    let none = Map::<u64, Seq<u64>>::empty();
    let reverse = collected(none, reverse_ops);
    let turned = reversed_edges(reverse);
    let graph = collected(turned, forward_ops);
    assert(none.dom() =~= Set::<u64>::empty());
    lemma_collected_finite(none, reverse_ops);
    assert forall|made: u64, commit: u64| #[trigger]
        is_recorded_from(reverse_ops, made, commit) <==> reverse.contains_key(made)
            && reverse[made].contains(commit) by {
        lemma_collected(none, reverse_ops, made);
        if is_recorded(reverse_ops, made) {
            lemma_collected_once(none, reverse_ops, made);
        }
    }
    assert forall|commit: u64| #[trigger] turned.contains_key(commit) <==> exists|made: u64| #[trigger]
        is_recorded_from(reverse_ops, made, commit) by {
        if is_neighbor(reverse, commit) {
            let made = choose|made: u64| #[trigger]
                reverse.contains_key(made) && reverse[made].contains(commit);
            assert(is_recorded_from(reverse_ops, made, commit));
        }
        if exists|made: u64| #[trigger] is_recorded_from(reverse_ops, made, commit) {
            let made = choose|made: u64| #[trigger] is_recorded_from(reverse_ops, made, commit);
            assert(reverse.contains_key(made) && reverse[made].contains(commit));
            assert(is_neighbor(reverse, commit));
        }
    }
    assert forall|commit: u64| #[trigger]
        has_step(reverse_ops, forward_ops, commit) <==> graph.contains_key(commit) by {
        lemma_collected(turned, forward_ops, commit);
        if is_recorded(forward_ops, commit) {
            lemma_collected_once(turned, forward_ops, commit);
        }
        assert(turned.contains_key(commit) <==> exists|made: u64| #[trigger]
            is_recorded_from(reverse_ops, made, commit));
    }
    assert forall|step: (u64, u64)| #[trigger]
        edges_of(graph).contains(step) <==> all_steps(reverse_ops, forward_ops).contains(step) by {
        let (from, to) = step;
        lemma_collected(turned, forward_ops, from);
        lemma_reversed_edges(reverse, to, from);
        assert(is_recorded_from(reverse_ops, to, from) <==> reverse.contains_key(to)
            && reverse[to].contains(from));
        if is_recorded(forward_ops, from) {
            lemma_collected_once(turned, forward_ops, from);
        }
    }
    assert(edges_of(graph) =~= all_steps(reverse_ops, forward_ops));
}

/// What accumulating predecessors comes to: it gives the commits that steps
/// from the commits of the new operations lead to, as far as further steps lead
/// on from them, each with the commits where these steps end. Every record of
/// every operation takes part.
pub proof fn lemma_accumulated(
    new_ops: Seq<Operation>,
    old_ops: Seq<Operation>,
    reverse_ops: Seq<Operation>,
    forward_ops: Seq<Operation>,
    resolved: Map<u64, Seq<u64>>,
    commit: u64,
    end: u64,
)
    requires
        new_ops.len() > 0,
        old_ops.len() > 0,
        !(new_ops.len() == 1 && new_ops[0].parent_ids@ == op_ids(old_ops)),
        forall|i: int|
            0 <= i < reverse_ops.len() ==> (#[trigger] reverse_ops[i]).commit_predecessors is Some,
        forall|i: int|
            0 <= i < forward_ops.len() ==> (#[trigger] forward_ops[i]).commit_predecessors is Some,
        records_once(reverse_ops),
        records_once(forward_ops),
        is_accumulated(new_ops, old_ops, reverse_ops, forward_ops, resolved),
    ensures
        resolved.contains_key(commit) <==> has_step(reverse_ops, forward_ops, commit) && exists|
            made: u64,
        | #[trigger]
            is_recorded(new_ops, made) && reachable(
                all_steps(reverse_ops, forward_ops),
                made,
                commit,
            ),
        resolved.contains_key(commit) ==> (resolved[commit].contains(end) <==> !has_step(
            reverse_ops,
            forward_ops,
            end,
        ) && reachable(all_steps(reverse_ops, forward_ops), commit, end)),
        resolved.contains_key(commit) ==> resolved[commit].no_duplicates(),
{
    lemma_steps(reverse_ops, forward_ops);
    let graph = collected(reversed_edges(collected(Map::empty(), reverse_ops)), forward_ops);
    let start = made_commits(new_ops);
    assert(to_resolve(new_ops, old_ops, reverse_ops, forward_ops) == Some((graph, start)));
    let steps = all_steps(reverse_ops, forward_ops);
    assert forall|made: u64| start.contains(made) <==> #[trigger] is_recorded(new_ops, made) by {
        lemma_made_commits(new_ops, made);
    }
    assert(has_step(reverse_ops, forward_ops, commit) <==> graph.contains_key(commit));
    assert(has_step(reverse_ops, forward_ops, end) <==> graph.contains_key(end));
    if reachable_from(graph, start, commit) {
        let made = choose|made: u64| #[trigger]
            start.contains(made) && reachable(edges_of(graph), made, commit);
        assert(is_recorded(new_ops, made) && reachable(steps, made, commit));
    }
    if exists|made: u64| #[trigger]
        is_recorded(new_ops, made) && reachable(steps, made, commit) {
        let made = choose|made: u64| #[trigger]
            is_recorded(new_ops, made) && reachable(steps, made, commit);
        assert(start.contains(made) && reachable(edges_of(graph), made, commit));
    }
    if resolved.contains_key(commit) {
        lemma_dedup(flattened(resolved, graph[commit]));
    }
}

/// A single operation that directly follows the old ones is enough: the commits
/// that it made are given, each with the commits where its records end, and the
/// operations between do not matter.
pub proof fn lemma_accumulated_single(
    op: Operation,
    old_ops: Seq<Operation>,
    reverse_ops: Seq<Operation>,
    forward_ops: Seq<Operation>,
    resolved: Map<u64, Seq<u64>>,
    commit: u64,
    end: u64,
)
    requires
        old_ops.len() > 0,
        op.parent_ids@ == op_ids(old_ops),
        is_accumulated(seq![op], old_ops, reverse_ops, forward_ops, resolved),
    ensures
        resolved.contains_key(commit) <==> records(op, commit),
        records(op, commit) ==> (resolved[commit].contains(end) <==> !records(op, end)
            && reachable(all_steps(Seq::empty(), seq![op]), commit, end)),
{
    let ops = seq![op];
    assert(ops[0] == op);
    if op.commit_predecessors is Some {
        let graph = op.predecessors();
        let map = op.commit_predecessors->Some_0;
        let start = ascending(graph.dom());
        assert(to_resolve(ops, old_ops, reverse_ops, forward_ops) == Some((graph, start)));
        assert(graph.dom() =~= map@.dom());
        lemma_ascending_lists(graph.dom());
        assert(start.contains(commit) <==> graph.dom().contains(commit));
        if graph.contains_key(commit) {
            lemma_path_single(edges_of(graph), commit);
            assert(start.contains(commit) && reachable(edges_of(graph), commit, commit));
        }
        assert forall|step: (u64, u64)| #[trigger]
            edges_of(graph).contains(step) <==> all_steps(Seq::empty(), ops).contains(step) by {
            let none = Seq::<Operation>::empty();
            assert(!is_recorded_from(none, step.1, step.0));
            assert(is_recorded(ops, step.0) <==> records(op, step.0));
            assert(is_recorded_from(ops, step.0, step.1) <==> records(op, step.0) && record_of(
                op,
                step.0,
            ).contains(step.1));
        }
        assert(edges_of(graph) =~= all_steps(Seq::empty(), ops));
        assert(graph.contains_key(commit) <==> records(op, commit));
        assert(graph.contains_key(end) <==> records(op, end));
        if records(op, commit) {
            assert(reachable_from(graph, start, commit));
            assert(resolved.contains_key(commit));
            assert(resolved[commit].contains(end) <==> !graph.contains_key(end) && reachable(
                edges_of(graph),
                commit,
                end,
            ));
        }
    } else {
        assert(to_resolve(ops, old_ops, reverse_ops, forward_ops) is None);
    }
}

/// If a commit was made from another one only, and that one from a third one
/// only, by whatever operations, the first comes from the third, and from no
/// other commit.
pub proof fn lemma_accumulated_chain(
    new_ops: Seq<Operation>,
    old_ops: Seq<Operation>,
    reverse_ops: Seq<Operation>,
    forward_ops: Seq<Operation>,
    resolved: Map<u64, Seq<u64>>,
    first: u64,
    second: u64,
    third: u64,
)
    requires
        new_ops.len() > 0,
        old_ops.len() > 0,
        !(new_ops.len() == 1 && new_ops[0].parent_ids@ == op_ids(old_ops)),
        forall|i: int|
            0 <= i < reverse_ops.len() ==> (#[trigger] reverse_ops[i]).commit_predecessors is Some,
        forall|i: int|
            0 <= i < forward_ops.len() ==> (#[trigger] forward_ops[i]).commit_predecessors is Some,
        records_once(reverse_ops),
        records_once(forward_ops),
        is_accumulated(new_ops, old_ops, reverse_ops, forward_ops, resolved),
        is_recorded(new_ops, first),
        has_step(reverse_ops, forward_ops, first),
        forall|to: u64| #[trigger]
            steps_to(reverse_ops, forward_ops, first, to) <==> to == second,
        forall|to: u64| #[trigger]
            steps_to(reverse_ops, forward_ops, second, to) <==> to == third,
        has_step(reverse_ops, forward_ops, second),
        !has_step(reverse_ops, forward_ops, third),
    ensures
        resolved.contains_key(first),
        resolved[first] == seq![third],
{
    let steps = all_steps(reverse_ops, forward_ops);
    lemma_path_single(steps, first);
    assert(is_recorded(new_ops, first) && reachable(steps, first, first));
    lemma_accumulated(new_ops, old_ops, reverse_ops, forward_ops, resolved, first, third);
    assert(steps_to(reverse_ops, forward_ops, first, second));
    assert(steps_to(reverse_ops, forward_ops, second, third));
    assert(steps.contains((first, second)) && steps.contains((second, third)));
    lemma_path_push(steps, first, seq![first], first, second);
    lemma_path_push(steps, first, seq![first].push(second), second, third);
    assert(reachable(steps, first, third));
    let list = resolved[first];
    assert forall|end: u64| #[trigger] list.contains(end) implies end == third by {
        lemma_accumulated(new_ops, old_ops, reverse_ops, forward_ops, resolved, first, end);
        let path = choose|path: Seq<u64>| is_path(steps, first, path, end);
        if path.len() > 1 {
            assert(edge_at(steps, path, 0));
            assert(steps_to(reverse_ops, forward_ops, first, path[1]));
            if path.len() > 2 {
                assert(edge_at(steps, path, 1));
                assert(steps_to(reverse_ops, forward_ops, second, path[2]));
                if path.len() > 3 {
                    assert(edge_at(steps, path, 2));
                    assert(steps_to(reverse_ops, forward_ops, third, path[3]));
                    lemma_step_leads_on(reverse_ops, forward_ops, third, path[3]);
                }
            }
        }
    }
    let k = choose|k: int| 0 <= k < list.len() && list[k] == third;
    assert(list.len() == 1) by {
        if list.len() > 1 {
            assert(list.contains(list[0]) && list.contains(list[1]));
        }
    }
    assert(list =~= seq![third]);
}

proof fn lemma_step_leads_on(
    reverse_ops: Seq<Operation>,
    forward_ops: Seq<Operation>,
    from: u64,
    to: u64,
)
    requires
        steps_to(reverse_ops, forward_ops, from, to),
    ensures
        has_step(reverse_ops, forward_ops, from),
{
    if !is_recorded(forward_ops, from) {
        assert(is_recorded_from(reverse_ops, to, from));
    }
}

/// The commits that are left out leave the order of the others as it is.
pub proof fn lemma_keys_only_kept_in_order(order: Seq<u64>, graph: Map<u64, Seq<u64>>)
    ensures
        keys_only(order, graph) == order.filter(|id: u64| graph.contains_key(id)),
    decreases order.len(),
{
    reveal(Seq::filter);
    if order.len() > 0 {
        lemma_keys_only_kept_in_order(order.drop_last(), graph);
    }
}

/// Commits are looked at one after the other, each with its predecessors: what is
/// found of the first ones is found before anything of the others.
pub proof fn lemma_walk_parts(
    graph: Map<u64, Seq<u64>>,
    a: Seq<u64>,
    b: Seq<u64>,
    so_far: OpWalk,
)
    requires
        graph.dom().finite(),
    ensures
        walk_op(graph, a + b, so_far) == walk_op(graph, b, walk_op(graph, a, so_far)),
    decreases unvisited(graph, so_far.emitted.to_set()), a.len(),
{
    let all = a + b;
    if a.len() == 0 {
        assert(all =~= b);
    } else {
        let id = a[0];
        let rest = a.skip(1);
        assert(all[0] == id);
        assert(all.skip(1) =~= rest + b);
        if !graph.contains_key(id) {
            lemma_walk_parts(graph, rest, b, OpWalk { kept: so_far.kept.push(id), ..so_far });
        } else if so_far.emitted.contains(id) {
            lemma_walk_parts(graph, rest, b, OpWalk { repeated: true, ..so_far });
        } else {
            lemma_push_to_set(so_far.emitted, id);
            lemma_unvisited_visit(graph, so_far.emitted.to_set(), id);
            assert(graph[id] + (rest + b) =~= graph[id] + rest + b);
            lemma_walk_parts(
                graph,
                graph[id] + rest,
                b,
                OpWalk { emitted: so_far.emitted.push(id), ..so_far },
            );
        }
    }
}

/// Commits that an operation did not make are left for earlier operations, in
/// order, and nothing else comes of them.
pub proof fn lemma_walk_unmade(graph: Map<u64, Seq<u64>>, ids: Seq<u64>, so_far: OpWalk)
    requires
        graph.dom().finite(),
        forall|i: int| 0 <= i < ids.len() ==> !graph.contains_key(#[trigger] ids[i]),
    ensures
        walk_op(graph, ids, so_far) == (OpWalk { kept: so_far.kept + ids, ..so_far }),
    decreases ids.len(),
{
    if ids.len() == 0 {
        assert(so_far.kept + ids =~= so_far.kept);
    } else {
        let rest = ids.skip(1);
        assert(!graph.contains_key(ids[0]));
        assert forall|i: int| 0 <= i < rest.len() implies !graph.contains_key(
            #[trigger] rest[i],
        ) by {
            assert(rest[i] == ids[i + 1]);
        }
        lemma_walk_unmade(graph, rest, OpWalk { kept: so_far.kept.push(ids[0]), ..so_far });
        assert(so_far.kept.push(ids[0]) + rest =~= so_far.kept + ids);
    }
}

/// A commit that an operation made leaves its predecessors in its place.
pub proof fn lemma_walk_made(graph: Map<u64, Seq<u64>>, id: u64)
    requires
        graph.dom().finite(),
        graph.contains_key(id),
        forall|i: int| 0 <= i < graph[id].len() ==> !graph.contains_key(#[trigger] graph[id][i]),
    ensures
        walk_op(graph, seq![id], no_walk()).emitted == seq![id],
        walk_op(graph, seq![id], no_walk()).kept == graph[id],
{
    let found = OpWalk { emitted: seq![id], ..no_walk() };
    assert(no_walk().emitted.push(id) =~= seq![id]);
    assert(graph[id] + seq![id].skip(1) =~= graph[id]);
    lemma_walk_unmade(graph, graph[id], found);
    assert(found.kept + graph[id] =~= graph[id]);
}

/// What stands for commits comes in the order of the commits.
pub proof fn lemma_flattened_parts(resolved: Map<u64, Seq<u64>>, a: Seq<u64>, b: Seq<u64>)
    ensures
        flattened(resolved, a + b) == flattened(resolved, a) + flattened(resolved, b),
    decreases b.len(),
{
    if b.len() == 0 {
        assert(a + b =~= a);
        assert(flattened(resolved, a) + flattened(resolved, b) =~= flattened(resolved, a));
    } else {
        let front = b.drop_last();
        assert((a + b).drop_last() =~= a + front);
        assert((a + b).last() == b.last());
        lemma_flattened_parts(resolved, a, front);
        assert(flattened(resolved, a + b) =~= flattened(resolved, a) + flattened(resolved, b));
    }
}

/// A node whose neighbors have no edges keeps them, in order, each once.
pub proof fn lemma_resolved_neighbors(
    graph: Map<u64, Seq<u64>>,
    start: Seq<u64>,
    resolved: Map<u64, Seq<u64>>,
    id: u64,
)
    requires
        is_resolved(graph, start, resolved),
        resolved.contains_key(id),
        forall|i: int| 0 <= i < graph[id].len() ==> !graph.contains_key(#[trigger] graph[id][i]),
    ensures
        resolved[id] == dedup(graph[id]),
{
    assert forall|i: int| 0 <= i < graph[id].len() implies !resolved.contains_key(
        #[trigger] graph[id][i],
    ) by {
        assert(!graph.contains_key(graph[id][i]));
    }
    lemma_flattened_same(resolved, graph[id]);
}

proof fn lemma_flattened_same(resolved: Map<u64, Seq<u64>>, ids: Seq<u64>)
    requires
        forall|i: int| 0 <= i < ids.len() ==> !resolved.contains_key(#[trigger] ids[i]),
    ensures
        flattened(resolved, ids) == ids,
    decreases ids.len(),
{
    if ids.len() > 0 {
        let front = ids.drop_last();
        assert(!resolved.contains_key(ids[ids.len() - 1]));
        assert forall|i: int| 0 <= i < front.len() implies !resolved.contains_key(
            #[trigger] front[i],
        ) by {
            assert(front[i] == ids[i]);
        }
        lemma_flattened_same(resolved, front);
        assert(flattened(resolved, ids) =~= ids);
    }
}

} // verus!
