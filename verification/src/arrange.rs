//! Interactively arranging the commit graph.
//!
//! [`State`] holds the commits that are arranged, in the order in which they
//! are shown. It reacts to keys, describes the rows to draw, and finally says
//! how the commits are to be rewritten.

use std::collections::HashMap;
use std::collections::HashSet;

use indexmap::IndexSet;
use vstd::prelude::*;

use crate::commit::commit_ids;
use crate::commit::Commit;
use crate::dag_walk::has_cycle;
use crate::dag_walk::is_cycle;
use crate::dag_walk::is_topo_order;
use crate::dag_walk::lemma_topo_order;
use crate::dag_walk::lemma_topo_order_acyclic;
use crate::dag_walk::lies_on_cycle;
use crate::dag_walk::neighbor_graph;
use crate::dag_walk::neighbors_before;
use crate::dag_walk::reachable_from;
use crate::dag_walk::reversed_neighbors;
use crate::dag_walk::topo_order;
use crate::dag_walk::topo_order_forward;
use crate::dag_walk::topo_order_reverse;
use crate::dfs::edges_of;
use crate::dfs::is_closed;
use crate::dfs::lemma_postorder_rename;
use crate::dominance::edge_at;
use crate::dominance::is_path;
use crate::dominance::reachable;
use crate::hash_util::map_keys;
use crate::index_collections::members;
use crate::index_collections::set_contains;
use crate::index_collections::set_get_index;
use crate::index_collections::set_insert;
use crate::index_collections::set_len;
use crate::index_collections::set_new;
use crate::seq_util::dedup;
use crate::seq_util::lemma_dedup;
use crate::seq_util::lemma_dedup_push;
use crate::text::concat3;
use crate::text::copy_texts;
use crate::text::extend_texts;
use crate::text::texts;

verus! {

broadcast use vstd::std_specs::hash::group_hash_axioms;

/// What is to become of a commit.
#[derive(Debug, PartialEq, Eq, Structural, Clone, Copy)]
pub enum UiAction {
    /// The commit is abandoned.
    Abandon,
    /// The commit is kept.
    Keep,
}

/// The state of a single commit in the UI
#[derive(Debug, PartialEq, Eq, Clone)]
pub struct CommitState {
    /// The commit as it was.
    pub commit: Commit,
    /// What is to become of it.
    pub action: UiAction,
    /// The parents it is to have.
    pub parents: Vec<u64>,
}

/// The state of the UI.
#[derive(Debug, PartialEq, Eq)]
pub struct State {
    /// Commits in the target set, as well as any external children and parents.
    pub commits: HashMap<u64, CommitState>,
    /// Heads of the target set in the order they should be added to the UI.
    /// This is used to make the graph rendering more stable. It must be
    /// kept up to date when parents are changed.
    pub head_order: Vec<u64>,
    /// The current order of the target commits in the UI. This is
    /// recalculated when necessary from `head_order`.
    pub current_order: Vec<u64>,
    /// The current selection as an index into `current_order`
    pub current_selection: usize,
    /// Children of target commits that are not target commits.
    pub external_children: IndexSet<u64>,
    /// Parents of target commits that are not target commits.
    pub external_parents: IndexSet<u64>,
}

/// `id`, or the other one of `a` and `b` if it is one of them.
pub open spec fn swap_id(a: u64, b: u64, id: u64) -> u64 {
    if id == a {
        b
    } else if id == b {
        a
    } else {
        id
    }
}

/// The exchange of `a` and `b`.
pub open spec fn swapper(a: u64, b: u64) -> spec_fn(u64) -> u64 {
    |id: u64| swap_id(a, b, id)
}

/// The list with `a` and `b` exchanged.
pub open spec fn swapped(ids: Seq<u64>, a: u64, b: u64) -> Seq<u64> {
    ids.map_values(swapper(a, b))
}

impl State {
    /// The parents that are shown below a commit: those that are known and not
    /// external.
    pub open spec fn visible_parents(&self, parents: Seq<u64>) -> Seq<u64>
        decreases parents.len(),
    {
        if parents.len() == 0 {
            Seq::empty()
        } else {
            let front = self.visible_parents(parents.drop_last());
            let parent = parents.last();
            if self.commits@.contains_key(parent) && !members(self.external_parents).contains(
                parent,
            ) {
                front.push(parent)
            } else {
                front
            }
        }
    }

    /// The graph of all commits with all their parents.
    pub open spec fn parent_graph(&self) -> Map<u64, Seq<u64>> {
        Map::new(
            |id: u64| self.commits@.contains_key(id),
            |id: u64| self.commits@[id].parents@,
        )
    }

    /// The graph that the order of the commits follows.
    pub open spec fn order_graph(&self) -> Map<u64, Seq<u64>> {
        Map::new(
            |id: u64| self.commits@.contains_key(id),
            |id: u64| self.visible_parents(self.commits@[id].parents@),
        )
    }

    /// Whether the heads are known commits of the target set.
    pub open spec fn heads_known(&self) -> bool {
        forall|i: int|
            0 <= i < self.head_order@.len() ==> self.commits@.contains_key(
                #[trigger] self.head_order@[i],
            ) && !members(self.external_parents).contains(self.head_order@[i])
    }

    /// Whether no commit is its own ancestor.
    pub open spec fn is_acyclic(&self) -> bool {
        forall|id: u64| !#[trigger] lies_on_cycle(self.parent_graph(), id)
    }

    /// The order in which the commits are shown: children before parents.
    pub open spec fn commit_order(&self) -> Seq<u64> {
        topo_order(self.order_graph(), self.head_order@).reverse()
    }

    /// Whether the state is consistent: the order is up to date and holds the
    /// commits that are not external, every parent of them is known, and what
    /// is external lies around them.
    pub open spec fn wf(&self) -> bool {
        let order = self.current_order@;
        &&& self.heads_known()
        &&& self.is_acyclic()
        &&& order == self.commit_order()
        &&& order.len() > 0 ==> self.current_selection < order.len()
        &&& forall|id: u64| #[trigger]
            self.commits@.contains_key(id) ==> order.contains(id) || members(
                self.external_children,
            ).contains(id) || members(self.external_parents).contains(id)
        &&& forall|id: u64| #[trigger]
            members(self.external_children).contains(id) ==> self.commits@.contains_key(id)
                && !order.contains(id)
        &&& forall|id: u64| #[trigger]
            members(self.external_parents).contains(id) ==> self.commits@.contains_key(id)
        &&& forall|id: u64, parent: u64|
            order.contains(id) && #[trigger] self.commits@[id].parents@.contains(parent)
                ==> self.commits@.contains_key(parent)
        &&& forall|id: u64, parent: u64|
            members(self.external_parents).contains(id)
                && #[trigger] self.commits@[id].parents@.contains(parent) ==> !order.contains(
                parent,
            )
    }

    proof fn lemma_visible_parents(&self, parents: Seq<u64>)
        ensures
            forall|p: u64| #[trigger]
                self.visible_parents(parents).contains(p) <==> parents.contains(p)
                    && self.commits@.contains_key(p) && !members(self.external_parents).contains(p),
        decreases parents.len(),
    {
        if parents.len() > 0 {
            let front = parents.drop_last();
            self.lemma_visible_parents(front);
            assert(parents =~= front.push(parents.last()));
            assert forall|p: u64| #[trigger]
                self.visible_parents(parents).contains(p) <==> parents.contains(p)
                    && self.commits@.contains_key(p) && !members(self.external_parents).contains(
                    p,
                ) by {
                crate::seq_util::lemma_push_contains(front, parents.last(), p);
                crate::seq_util::lemma_push_contains(
                    self.visible_parents(front),
                    parents.last(),
                    p,
                );
                assert(self.visible_parents(front).contains(p) <==> front.contains(p)
                    && self.commits@.contains_key(p) && !members(self.external_parents).contains(
                    p,
                ));
            }
        }
    }

    proof fn lemma_order_graph(&self)
        ensures
            is_closed(self.order_graph()),
            forall|x: u64, y: u64| #[trigger]
                edges_of(self.order_graph()).contains((x, y)) ==> edges_of(
                    self.parent_graph(),
                ).contains((x, y)) && self.commits@.contains_key(y) && !members(
                    self.external_parents,
                ).contains(y),
    {
        let graph = self.order_graph();
        assert(graph.dom() =~= self.commits@.dom());
        assert forall|node: u64, k: int|
            graph.contains_key(node) && 0 <= k < graph[node].len() implies graph.contains_key(
            #[trigger] graph[node][k],
        ) by {
            self.lemma_visible_parents(self.commits@[node].parents@);
            assert(graph[node].contains(graph[node][k]));
        }
        assert forall|x: u64, y: u64| #[trigger] edges_of(graph).contains((x, y)) implies edges_of(
            self.parent_graph(),
        ).contains((x, y)) && self.commits@.contains_key(y) && !members(
            self.external_parents,
        ).contains(y) by {
            self.lemma_visible_parents(self.commits@[x].parents@);
        }
    }

    proof fn lemma_order_acyclic(&self)
        requires
            self.is_acyclic(),
        ensures
            !has_cycle(self.order_graph(), self.head_order@),
    {
        self.lemma_order_graph();
        if has_cycle(self.order_graph(), self.head_order@) {
            let (node, path) = choose|node: u64, path: Seq<u64>| #[trigger]
                is_cycle(self.order_graph(), node, path) && reachable_from(
                    self.order_graph(),
                    self.head_order@,
                    node,
                );
            assert forall|i: int| 0 <= i < path.len() - 1 implies #[trigger] edge_at(
                edges_of(self.parent_graph()),
                path,
                i,
            ) by {
                assert(edge_at(edges_of(self.order_graph()), path, i));
            }
            assert(is_cycle(self.parent_graph(), node, path));
            assert(lies_on_cycle(self.parent_graph(), node));
        }
    }

    /// Children are shown before their parents.
    pub proof fn lemma_children_first(&self, a: int, b: int)
        requires
            self.wf(),
            0 <= a < self.current_order@.len(),
            0 <= b < self.current_order@.len(),
            self.commits@[self.current_order@[a]].parents@.contains(self.current_order@[b]),
        ensures
            a < b,
    {
        let graph = self.order_graph();
        let heads = self.head_order@;
        let order = self.current_order@;
        let forward = topo_order(graph, heads);
        let n = forward.len() as int;
        self.lemma_order_graph();
        self.lemma_order_acyclic();
        self.lemma_commit_order();
        lemma_topo_order_acyclic(graph, heads);
        assert(order.contains(order[a]));
        assert(order.contains(order[b]));
        self.lemma_visible_parents(self.commits@[order[a]].parents@);
        assert(graph[order[a]].contains(order[b]));
        assert(forward[n - 1 - a] == order[a]);
        assert(forward[n - 1 - b] == order[b]);
        assert(neighbors_before(graph, forward, n - 1 - a));
        let early = forward.take(n - 1 - a);
        assert(early.contains(order[b]));
        let k = choose|k: int| 0 <= k < early.len() && early[k] == order[b];
        assert(forward[k] == forward[n - 1 - b]);
    }

    /// The commits that are shown in order are known, not external parents, and
    /// occur once.
    pub proof fn lemma_commit_order(&self)
        requires
            self.heads_known(),
        ensures
            self.commit_order().no_duplicates(),
            forall|id: u64| #[trigger]
                self.commit_order().contains(id) <==> reachable_from(
                    self.order_graph(),
                    self.head_order@,
                    id,
                ),
            forall|id: u64| #[trigger]
                self.commit_order().contains(id) ==> self.commits@.contains_key(id) && !members(
                    self.external_parents,
                ).contains(id),
    {
        let graph = self.order_graph();
        let heads = self.head_order@;
        self.lemma_order_graph();
        lemma_topo_order(graph, heads);
        let forward = topo_order(graph, heads);
        let order = self.commit_order();
        assert(order.no_duplicates()) by {
            assert forall|i: int, j: int|
                0 <= i < order.len() && 0 <= j < order.len() && i != j implies order[i]
                != order[j] by {
                assert(order[i] == forward[forward.len() - 1 - i]);
                assert(order[j] == forward[forward.len() - 1 - j]);
            }
        }
        assert forall|id: u64| #[trigger] order.contains(id) <==> reachable_from(
            graph,
            heads,
            id,
        ) by {
            lemma_reverse_contains(forward, id);
        }
        assert forall|id: u64| #[trigger] order.contains(id) implies self.commits@.contains_key(id)
            && !members(self.external_parents).contains(id) by {
            let s = choose|s: u64| #[trigger] heads.contains(s) && reachable(
                edges_of(graph),
                s,
                id,
            );
            let path = choose|path: Seq<u64>| is_path(edges_of(graph), s, path, id);
            if path.len() == 1 {
                let i = choose|i: int| 0 <= i < heads.len() && heads[i] == s;
                assert(self.head_order@[i] == id);
            } else {
                assert(edge_at(edges_of(graph), path, path.len() - 2));
                assert(edges_of(graph).contains((path[path.len() - 2], id)));
            }
        }
    }

    /// Update the current UI commit order after parents have changed.
    pub fn update_commit_order(&mut self)
        requires
            old(self).heads_known(),
            old(self).is_acyclic(),
        ensures
            final(self).current_order@ == old(self).commit_order(),
            final(self).commits == old(self).commits,
            final(self).head_order == old(self).head_order,
            final(self).current_selection == old(self).current_selection,
            final(self).external_children == old(self).external_children,
            final(self).external_parents == old(self).external_parents,
            final(self).commit_order() == old(self).commit_order(),
    {
        let ghost state = *self;
        let keys: Vec<u64> = map_keys(&self.commits);
        let mut neighbors: HashMap<u64, Vec<u64>> = HashMap::new();
        let mut i: usize = 0;
        while i < keys.len()
            invariant
                *self == state,
                i <= keys@.len(),
                forall|key: u64| #[trigger]
                    keys@.contains(key) <==> state.commits@.contains_key(key),
                forall|key: u64| #[trigger]
                    neighbors@.contains_key(key) <==> keys@.take(i as int).contains(key),
                forall|key: u64| #[trigger]
                    neighbors@.contains_key(key) ==> neighbors@[key]@ == state.visible_parents(
                        state.commits@[key].parents@,
                    ),
            decreases keys@.len() - i,
        {
            let key: u64 = keys[i];
            assert(keys@.contains(key));
            let ghost taken = keys@.take(i as int);
            let parents: &Vec<u64> = &self.commits.get(&key).unwrap().parents;
            let mut visible: Vec<u64> = Vec::new();
            let mut k: usize = 0;
            while k < parents.len()
                invariant
                    *self == state,
                    k <= parents@.len(),
                    visible@ == state.visible_parents(parents@.take(k as int)),
                decreases parents@.len() - k,
            {
                let parent: u64 = parents[k];
                proof {
                    assert(parents@.take(k + 1).drop_last() =~= parents@.take(k as int));
                    assert(parents@.take(k + 1).last() == parent);
                }
                if self.commits.contains_key(&parent) && !set_contains(
                    &self.external_parents,
                    parent,
                ) {
                    visible.push(parent);
                }
                k += 1;
            }
            assert(parents@.take(parents@.len() as int) =~= parents@);
            neighbors.insert(key, visible);
            i += 1;
            proof {
                assert(keys@.take(i as int) =~= taken.push(key));
                assert forall|x: u64| #[trigger] neighbors@.contains_key(x) <==> keys@.take(
                    i as int,
                ).contains(x) by {
                    crate::seq_util::lemma_push_contains(taken, key, x);
                }
            }
        }
        proof {
            assert(keys@.take(keys@.len() as int) =~= keys@);
            let graph = neighbor_graph(neighbors@);
            assert forall|x: u64| #[trigger] graph.contains_key(x) <==> self.order_graph().contains_key(
                x,
            ) by {
                assert(keys@.contains(x) <==> state.commits@.contains_key(x));
            }
            assert(graph =~= self.order_graph());
            self.lemma_order_graph();
            self.lemma_order_acyclic();
        }
        match topo_order_reverse(&self.head_order, &neighbors) {
            Ok(order) => {
                self.current_order = order;
            },
            Err(_) => {},
        }
        proof {
            lemma_same_order(*self, state);
        }
    }
}

/// Whether two states have the same graph, whatever is to become of the
/// commits.
pub open spec fn same_graph(a: State, b: State) -> bool {
    &&& a.commits@.dom() == b.commits@.dom()
    &&& forall|id: u64| #[trigger]
        a.commits@.contains_key(id) ==> a.commits@[id].parents@ == b.commits@[id].parents@
    &&& a.head_order@ == b.head_order@
    &&& members(a.external_parents) == members(b.external_parents)
}

proof fn lemma_same_order(a: State, b: State)
    requires
        same_graph(a, b),
    ensures
        a.order_graph() == b.order_graph(),
        a.commit_order() == b.commit_order(),
        a.heads_known() == b.heads_known(),
        a.parent_graph() == b.parent_graph(),
        a.is_acyclic() == b.is_acyclic(),
{
    assert forall|id: u64| #[trigger] a.commits@.contains_key(id) <==> b.commits@.contains_key(
        id,
    ) by {
        assert(a.commits@.dom().contains(id) <==> b.commits@.dom().contains(id));
    }
    assert forall|parents: Seq<u64>| #[trigger] a.visible_parents(parents) == b.visible_parents(
        parents,
    ) by {
        lemma_same_visible(a, b, parents);
    }
    assert(a.order_graph() =~= b.order_graph());
    assert(a.parent_graph() =~= b.parent_graph());
}

proof fn lemma_same_visible(a: State, b: State, parents: Seq<u64>)
    requires
        same_graph(a, b),
    ensures
        a.visible_parents(parents) == b.visible_parents(parents),
    decreases parents.len(),
{
    if parents.len() > 0 {
        lemma_same_visible(a, b, parents.drop_last());
        assert(a.commits@.dom().contains(parents.last()) <==> b.commits@.dom().contains(
            parents.last(),
        ));
    }
}

proof fn lemma_reverse_contains(items: Seq<u64>, item: u64)
    ensures
        items.reverse().contains(item) <==> items.contains(item),
{
    if items.contains(item) {
        let i = choose|i: int| 0 <= i < items.len() && items[i] == item;
        assert(items.reverse()[items.len() - 1 - i] == item);
    }
    if items.reverse().contains(item) {
        let i = choose|i: int| 0 <= i < items.reverse().len() && items.reverse()[i] == item;
        assert(items[items.len() - 1 - i] == item);
    }
}

/// Whether `new` is `old` with the places of the commits `a` and `b` in the
/// graph exchanged. What is to become of a commit goes with the commit.
pub open spec fn is_swapped(old_state: State, new_state: State, a: u64, b: u64) -> bool {
    &&& new_state.commits@.dom() == old_state.commits@.dom()
    &&& forall|id: u64| #[trigger]
        new_state.commits@.contains_key(id) ==> {
            &&& new_state.commits@[id].commit == old_state.commits@[id].commit
            &&& new_state.commits@[id].action == old_state.commits@[id].action
            &&& new_state.commits@[id].parents@ == swapped(
                old_state.commits@[swap_id(a, b, id)].parents@,
                a,
                b,
            )
        }
    &&& new_state.head_order@ == swapped(old_state.head_order@, a, b)
    &&& new_state.current_order@ == swapped(old_state.current_order@, a, b)
    &&& new_state.external_children == old_state.external_children
    &&& new_state.external_parents == old_state.external_parents
}

proof fn lemma_swapped_visible(
    old_state: State,
    new_state: State,
    a: u64,
    b: u64,
    parents: Seq<u64>,
)
    requires
        is_swapped(old_state, new_state, a, b),
        old_state.commits@.contains_key(a),
        old_state.commits@.contains_key(b),
        !members(old_state.external_parents).contains(a),
        !members(old_state.external_parents).contains(b),
    ensures
        new_state.visible_parents(swapped(parents, a, b)) == swapped(
            old_state.visible_parents(parents),
            a,
            b,
        ),
    decreases parents.len(),
{
    let names = swapped(parents, a, b);
    let seen = old_state.visible_parents(parents);
    if parents.len() == 0 {
        assert(names =~= parents);
        assert(swapped(seen, a, b) =~= seen);
    } else {
        let front = parents.drop_last();
        lemma_swapped_visible(old_state, new_state, a, b, front);
        assert(names.drop_last() =~= swapped(front, a, b));
        let parent = parents.last();
        assert(names.last() == swap_id(a, b, parent));
        assert(new_state.commits@.contains_key(swap_id(a, b, parent))
            <==> old_state.commits@.contains_key(parent)) by {
            assert(new_state.commits@.dom().contains(swap_id(a, b, parent))
                == old_state.commits@.dom().contains(swap_id(a, b, parent)));
        }
        let before = old_state.visible_parents(front);
        assert(swapped(before.push(parent), a, b) =~= swapped(before, a, b).push(
            swap_id(a, b, parent),
        ));
    }
}

/// Exchanging the places of two commits exchanges them in the order in which
/// the commits are shown, and nothing else.
pub proof fn lemma_swap_keeps_order(old_state: State, new_state: State, a: u64, b: u64)
    requires
        is_swapped(old_state, new_state, a, b),
        old_state.commits@.contains_key(a),
        old_state.commits@.contains_key(b),
        !members(old_state.external_parents).contains(a),
        !members(old_state.external_parents).contains(b),
    ensures
        new_state.commit_order() == swapped(old_state.commit_order(), a, b),
{
    let name = swapper(a, b);
    let graph = reversed_neighbors(old_state.order_graph());
    let renamed = reversed_neighbors(new_state.order_graph());
    old_state.lemma_order_graph();
    new_state.lemma_order_graph();
    assert(graph.dom() =~= old_state.order_graph().dom());
    assert(renamed.dom() =~= new_state.order_graph().dom());
    assert forall|x: u64| renamed.contains_key(#[trigger] name(x)) <==> graph.contains_key(x) by {
        assert(new_state.commits@.dom().contains(name(x)) == old_state.commits@.dom().contains(
            name(x),
        ));
    }
    assert forall|x: u64| #[trigger] graph.contains_key(x) implies renamed[name(x)]
        == graph[x].map_values(name) by {
        let y = name(x);
        assert(renamed.contains_key(name(x)));
        assert(new_state.commits@.contains_key(y));
        assert(swap_id(a, b, y) == x);
        let parents = old_state.commits@[x].parents@;
        lemma_swapped_visible(old_state, new_state, a, b, parents);
        let seen = old_state.visible_parents(parents);
        assert(renamed[y] == swapped(seen, a, b).reverse());
        assert(swapped(seen, a, b).reverse() =~= seen.reverse().map_values(name));
    }
    let heads = old_state.head_order@;
    let empty = Set::<u64>::empty();
    lemma_postorder_rename(graph, heads.reverse(), empty, renamed, empty, name);
    assert(swapped(heads, a, b).reverse() =~= heads.reverse().map_values(name));
    let forward = topo_order(old_state.order_graph(), heads);
    assert(forward.map_values(name).reverse() =~= forward.reverse().map_values(name));
}

proof fn lemma_swapped_contains(ids: Seq<u64>, a: u64, b: u64, id: u64)
    ensures
        swapped(ids, a, b).contains(id) <==> ids.contains(swap_id(a, b, id)),
{
    let names = swapped(ids, a, b);
    if names.contains(id) {
        let i = choose|i: int| 0 <= i < names.len() && names[i] == id;
        assert(ids[i] == swap_id(a, b, id));
    }
    if ids.contains(swap_id(a, b, id)) {
        let i = choose|i: int| 0 <= i < ids.len() && ids[i] == swap_id(a, b, id);
        assert(names[i] == id);
    }
}

/// Exchanging two commits keeps the state consistent.
proof fn lemma_swap_wf(old_state: State, new_state: State, a: u64, b: u64)
    requires
        old_state.wf(),
        is_swapped(old_state, new_state, a, b),
        old_state.current_order@.contains(a),
        old_state.current_order@.contains(b),
        new_state.current_order@.len() > 0 ==> new_state.current_selection
            < new_state.current_order@.len(),
    ensures
        new_state.wf(),
{
    let order = old_state.current_order@;
    let next = new_state.current_order@;
    old_state.lemma_commit_order();
    lemma_swap_keeps_order(old_state, new_state, a, b);
    assert(old_state.commit_order().contains(a) && old_state.commit_order().contains(b));
    assert forall|id: u64| #[trigger] next.contains(id) <==> order.contains(id) by {
        lemma_swapped_contains(order, a, b, id);
    }
    assert forall|id: u64| #[trigger] new_state.commits@.contains_key(id)
        <==> old_state.commits@.contains_key(id) by {
        assert(new_state.commits@.dom().contains(id) == old_state.commits@.dom().contains(id));
    }
    assert forall|i: int| 0 <= i < new_state.head_order@.len() implies new_state.commits@.contains_key(
        #[trigger] new_state.head_order@[i],
    ) && !members(new_state.external_parents).contains(new_state.head_order@[i]) by {
        assert(old_state.commits@.contains_key(old_state.head_order@[i]));
        assert(new_state.head_order@[i] == swap_id(a, b, old_state.head_order@[i]));
    }
    // A cycle of the new graph would have been one of the old graph.
    assert forall|id: u64| !#[trigger] lies_on_cycle(new_state.parent_graph(), id) by {
        if lies_on_cycle(new_state.parent_graph(), id) {
            let path = choose|path: Seq<u64>| is_cycle(new_state.parent_graph(), id, path);
            let back = swapped(path, a, b);
            assert forall|i: int| 0 <= i < back.len() - 1 implies #[trigger] edge_at(
                edges_of(old_state.parent_graph()),
                back,
                i,
            ) by {
                assert(edge_at(edges_of(new_state.parent_graph()), path, i));
                let x = path[i];
                assert(new_state.commits@.contains_key(x));
                let parents = old_state.commits@[swap_id(a, b, x)].parents@;
                lemma_swapped_contains(parents, a, b, path[i + 1]);
                assert(back[i] == swap_id(a, b, x));
                assert(back[i + 1] == swap_id(a, b, path[i + 1]));
            }
            assert(is_cycle(old_state.parent_graph(), swap_id(a, b, id), back));
            assert(lies_on_cycle(old_state.parent_graph(), swap_id(a, b, id)));
        }
    }
    assert forall|id: u64, parent: u64|
        next.contains(id) && #[trigger] new_state.commits@[id].parents@.contains(parent) implies new_state.commits@.contains_key(
        parent,
    ) by {
        assert(new_state.commits@.contains_key(id));
        let source = swap_id(a, b, id);
        lemma_swapped_contains(old_state.commits@[source].parents@, a, b, parent);
        assert(order.contains(source));
        assert(old_state.commits@[source].parents@.contains(swap_id(a, b, parent)));
        assert(old_state.commits@.contains_key(swap_id(a, b, parent)));
    }
    assert forall|id: u64, parent: u64|
        members(new_state.external_parents).contains(id)
            && #[trigger] new_state.commits@[id].parents@.contains(parent) implies !next.contains(
        parent,
    ) by {
        assert(new_state.commits@.contains_key(id));
        lemma_swapped_contains(old_state.commits@[id].parents@, a, b, parent);
        assert(swap_id(a, b, id) == id);
        assert(old_state.commits@[id].parents@.contains(swap_id(a, b, parent)));
        assert(!order.contains(swap_id(a, b, parent)));
    }
}

/// The place of an id in a list that holds it.
fn position_of(ids: &Vec<u64>, id: u64) -> (place: usize)
    requires
        ids@.contains(id),
    ensures
        place < ids@.len(),
        ids@[place as int] == id,
{
    let mut i: usize = 0;
    while i < ids.len()
        invariant
            i <= ids@.len(),
            forall|k: int| 0 <= k < i ==> ids@[k] != id,
            ids@.contains(id),
        decreases ids@.len() - i,
    {
        if ids[i] == id {
            return i;
        }
        i += 1;
    }
    assert(false);
    0
}

/// Exchanges two ids in a list.
fn swap_in_list(ids: &Vec<u64>, a: u64, b: u64) -> (result: Vec<u64>)
    ensures
        result@ == swapped(ids@, a, b),
{
    let mut result: Vec<u64> = Vec::new();
    let mut i: usize = 0;
    while i < ids.len()
        invariant
            i <= ids@.len(),
            result@ == swapped(ids@, a, b).take(i as int),
        decreases ids@.len() - i,
    {
        let id: u64 = ids[i];
        result.push(
            if id == a {
                b
            } else if id == b {
                a
            } else {
                id
            },
        );
        i += 1;
        assert(result@ =~= swapped(ids@, a, b).take(i as int));
    }
    assert(swapped(ids@, a, b).take(ids@.len() as int) =~= swapped(ids@, a, b));
    result
}

impl State {
    /// The selected commit.
    pub open spec fn selected(&self) -> u64 {
        self.current_order@[self.current_selection as int]
    }

    /// Whether the state can be used. Every state can.
    pub fn is_valid(&self) -> (valid: bool)
        ensures
            valid,
    {
        true
    }

    /// Returns the selected commit.
    pub fn current_id(&self) -> (id: u64)
        requires
            self.current_selection < self.current_order@.len(),
        ensures
            id == self.selected(),
    {
        self.current_order[self.current_selection]
    }

    /// Exchanges the places of two commits in the graph. The selection follows
    /// the selected commit.
    pub fn swap_commits(&mut self, a_id: u64, b_id: u64)
        requires
            old(self).wf(),
            a_id == b_id || old(self).current_order@.contains(a_id)
                && old(self).current_order@.contains(b_id),
        ensures
            final(self).wf(),
            a_id == b_id ==> *final(self) == *old(self),
            a_id != b_id ==> is_swapped(*old(self), *final(self), a_id, b_id),
            old(self).current_order@.len() > 0 ==> final(self).selected() == old(self).selected(),
    {
        if a_id == b_id {
            return;
        }
        let ghost state = *self;
        let ghost order = self.current_order@;
        proof {
            state.lemma_commit_order();
            assert(state.commit_order().contains(a_id));
            assert(state.commit_order().contains(b_id));
        }
        let a_idx: usize = position_of(&self.current_order, a_id);
        let b_idx: usize = position_of(&self.current_order, b_id);
        if self.current_selection == a_idx {
            self.current_selection = b_idx;
        } else if self.current_selection == b_idx {
            self.current_selection = a_idx;
        }
        let ghost selection = self.current_selection;
        self.current_order.set(a_idx, b_id);
        self.current_order.set(b_idx, a_id);
        assert(self.current_order@ =~= swapped(order, a_id, b_id));
        self.head_order = swap_in_list(&self.head_order, a_id, b_id);
        // Update references to the swapped commits from their children
        let keys: Vec<u64> = map_keys(&self.commits);
        let mut i: usize = 0;
        while i < keys.len()
            invariant
                i <= keys@.len(),
                keys@.no_duplicates(),
                forall|key: u64| #[trigger]
                    keys@.contains(key) <==> state.commits@.contains_key(key),
                self.commits@.dom() == state.commits@.dom(),
                forall|k: int|
                    0 <= k < keys@.len() ==> {
                        &&& self.commits@[#[trigger] keys@[k]].commit
                            == state.commits@[keys@[k]].commit
                        &&& self.commits@[keys@[k]].action == state.commits@[keys@[k]].action
                        &&& self.commits@[keys@[k]].parents@ == (if k < i {
                            swapped(state.commits@[keys@[k]].parents@, a_id, b_id)
                        } else {
                            state.commits@[keys@[k]].parents@
                        })
                    },
                self.current_order@ == swapped(order, a_id, b_id),
                self.current_selection == selection,
                self.head_order@ == swapped(state.head_order@, a_id, b_id),
                self.external_children == state.external_children,
                self.external_parents == state.external_parents,
            decreases keys@.len() - i,
        {
            let key: u64 = keys[i];
            proof {
                assert(keys@.contains(key));
                assert(self.commits@.dom().contains(key));
            }
            let ghost before = self.commits@;
            let mut commit_state: CommitState = self.commits.remove(&key).unwrap();
            commit_state.parents = swap_in_list(&commit_state.parents, a_id, b_id);
            self.commits.insert(key, commit_state);
            proof {
                assert(self.commits@.dom() =~= state.commits@.dom());
                assert forall|k: int| 0 <= k < keys@.len() implies {
                    &&& self.commits@[#[trigger] keys@[k]].commit
                        == state.commits@[keys@[k]].commit
                    &&& self.commits@[keys@[k]].action == state.commits@[keys@[k]].action
                    &&& self.commits@[keys@[k]].parents@ == (if k < i + 1 {
                        swapped(state.commits@[keys@[k]].parents@, a_id, b_id)
                    } else {
                        state.commits@[keys@[k]].parents@
                    })
                } by {
                    if k != i {
                        assert(keys@[k] != key);
                        assert(self.commits@[keys@[k]] == before[keys@[k]]);
                    }
                }
            }
            i += 1;
        }
        let ghost mapped = self.commits@;
        proof {
            assert forall|id: u64| #[trigger] mapped.contains_key(id) implies {
                &&& mapped[id].commit == state.commits@[id].commit
                &&& mapped[id].action == state.commits@[id].action
                &&& mapped[id].parents@ == swapped(state.commits@[id].parents@, a_id, b_id)
            } by {
                assert(state.commits@.dom().contains(id));
                assert(keys@.contains(id));
                let k = choose|k: int| 0 <= k < keys@.len() && keys@[k] == id;
                assert(mapped[keys@[k]].commit == state.commits@[id].commit);
            }
            assert(mapped.dom().contains(a_id));
            assert(mapped.dom().contains(b_id));
        }
        // Swap the parents of the swapped commits
        let mut a_state: CommitState = self.commits.remove(&a_id).unwrap();
        let mut b_state: CommitState = self.commits.remove(&b_id).unwrap();
        std::mem::swap(&mut a_state.parents, &mut b_state.parents);
        self.commits.insert(a_id, a_state);
        self.commits.insert(b_id, b_state);
        proof {
            assert(self.commits@.dom() =~= state.commits@.dom());
            assert(mapped.contains_key(a_id) && mapped.contains_key(b_id));
            assert forall|id: u64| #[trigger] self.commits@.contains_key(id) implies {
                &&& self.commits@[id].commit == state.commits@[id].commit
                &&& self.commits@[id].action == state.commits@[id].action
                &&& self.commits@[id].parents@ == swapped(
                    state.commits@[swap_id(a_id, b_id, id)].parents@,
                    a_id,
                    b_id,
                )
            } by {
                if id != a_id && id != b_id {
                    assert(mapped.contains_key(id));
                }
            }
            assert(is_swapped(state, *self, a_id, b_id));
            lemma_swap_wf(state, *self, a_id, b_id);
        }
    }
}

/// Exchanging the same two commits twice gives back the graph and the order.
pub proof fn lemma_swap_twice(first: State, second: State, third: State, a: u64, b: u64)
    requires
        is_swapped(first, second, a, b),
        is_swapped(second, third, a, b),
        first.commits@.contains_key(a) <==> first.commits@.contains_key(b),
    ensures
        same_graph(first, third),
        third.current_order@ == first.current_order@,
        forall|id: u64| #[trigger]
            first.commits@.contains_key(id) ==> third.commits@[id].action
                == first.commits@[id].action,
{
    assert forall|ids: Seq<u64>| #[trigger] swapped(swapped(ids, a, b), a, b) == ids by {
        assert(swapped(swapped(ids, a, b), a, b) =~= ids);
    }
    assert forall|id: u64| #[trigger] first.commits@.contains_key(id) implies first.commits@[id].parents@
        == third.commits@[id].parents@ && third.commits@[id].action
        == first.commits@[id].action by {
        assert(third.commits@.dom().contains(id));
        assert(third.commits@.contains_key(id));
        let other = swap_id(a, b, id);
        assert(first.commits@.dom().contains(other));
        assert(second.commits@.dom().contains(other) && second.commits@.dom().contains(id));
        assert(second.commits@.contains_key(other) && second.commits@.contains_key(id));
        assert(swap_id(a, b, other) == id);
    }
}

impl State {
    /// Whether `child` is the only commit that has the given one as a parent.
    pub open spec fn is_only_child(&self, id: u64, child: u64) -> bool {
        &&& self.is_child(id, child)
        &&& forall|other: u64| #[trigger] self.is_child(id, other) ==> other == child
    }

    /// Whether `child` has the given commit as a parent.
    pub open spec fn is_child(&self, id: u64, child: u64) -> bool {
        self.commits@.contains_key(child) && self.commits@[child].parents@.contains(id)
    }

    /// What a swap down of the selected commit does: it swaps the commit with
    /// its parent, unless there is not exactly one or the parent is external.
    pub open spec fn is_swapped_down(old_state: State, new_state: State) -> bool {
        let id = old_state.selected();
        let parents = old_state.commits@[id].parents@;
        if parents.len() == 1 && !members(old_state.external_parents).contains(parents[0]) {
            is_swapped(old_state, new_state, id, parents[0]) && new_state.selected() == id
        } else {
            new_state == old_state
        }
    }

    /// What a swap up of the selected commit does: it swaps the commit with its
    /// child, unless there is not exactly one or the child is external.
    pub open spec fn is_swapped_up(old_state: State, new_state: State) -> bool {
        let id = old_state.selected();
        if exists|child: u64| old_state.is_only_child(id, child) && !members(
            old_state.external_children,
        ).contains(child) {
            exists|child: u64|
                old_state.is_only_child(id, child) && is_swapped(old_state, new_state, id, child)
                    && new_state.selected() == id
        } else {
            new_state == old_state
        }
    }

    proof fn lemma_not_own_parent(&self, id: u64)
        requires
            self.is_acyclic(),
            self.commits@.contains_key(id),
        ensures
            !self.commits@[id].parents@.contains(id),
    {
        if self.commits@[id].parents@.contains(id) {
            let path = seq![id, id];
            assert(edge_at(edges_of(self.parent_graph()), path, 0));
            assert(is_cycle(self.parent_graph(), id, path));
            assert(lies_on_cycle(self.parent_graph(), id));
        }
    }

    /// Swap the selected commit with its parent. Does nothing if there is not
    /// exactly one parent or if the parent is an external parent.
    pub fn swap_selection_down(&mut self)
        requires
            old(self).wf(),
            old(self).current_order@.len() > 0,
        ensures
            final(self).wf(),
            State::is_swapped_down(*old(self), *final(self)),
    {
        let ghost state = *self;
        let current_id: u64 = self.current_id();
        proof {
            state.lemma_commit_order();
            assert(state.commit_order().contains(current_id));
        }
        let parents: &Vec<u64> = &self.commits.get(&current_id).unwrap().parents;
        if parents.len() != 1 {
            return;
        }
        let parent: u64 = parents[0];
        if set_contains(&self.external_parents, parent) {
            return;
        }
        proof {
            assert(state.commits@[current_id].parents@[0] == parent);
            assert(state.commits@[current_id].parents@.contains(parent));
            assert(state.current_order@.contains(current_id));
            assert(state.commits@.contains_key(parent));
            state.lemma_not_own_parent(current_id);
            state.lemma_parent_in_order(current_id, parent);
        }
        self.swap_commits(current_id, parent);
    }

    /// A parent of a commit in the order is in the order, unless it is
    /// external.
    proof fn lemma_parent_in_order(&self, id: u64, parent: u64)
        requires
            self.wf(),
            self.current_order@.contains(id),
            self.commits@[id].parents@.contains(parent),
            !members(self.external_parents).contains(parent),
        ensures
            self.current_order@.contains(parent),
    {
        self.lemma_commit_order();
        self.lemma_order_graph();
        let graph = self.order_graph();
        let heads = self.head_order@;
        assert(self.commit_order().contains(id));
        let s = choose|s: u64| #[trigger] heads.contains(s) && reachable(edges_of(graph), s, id);
        let path = choose|path: Seq<u64>| is_path(edges_of(graph), s, path, id);
        self.lemma_visible_parents(self.commits@[id].parents@);
        assert(self.commits@.contains_key(parent));
        assert(graph[id].contains(parent));
        crate::dominance::lemma_path_push(edges_of(graph), s, path, id, parent);
        assert(reachable(edges_of(graph), s, parent));
        assert(reachable_from(graph, heads, parent));
        assert(self.commit_order().contains(parent));
    }

    /// Swap the selected commit with one of its children. Does nothing if there
    /// is not exactly one child or if the child is an external child.
    pub fn swap_selection_up(&mut self)
        requires
            old(self).wf(),
            old(self).current_order@.len() > 0,
        ensures
            final(self).wf(),
            State::is_swapped_up(*old(self), *final(self)),
    {
        let ghost state = *self;
        let current_id: u64 = self.current_id();
        let keys: Vec<u64> = map_keys(&self.commits);
        let mut child: Option<u64> = None;
        let mut many: bool = false;
        let mut i: usize = 0;
        while i < keys.len() && !many
            invariant
                *self == state,
                i <= keys@.len(),
                keys@.no_duplicates(),
                forall|key: u64| #[trigger]
                    keys@.contains(key) <==> state.commits@.contains_key(key),
                match child {
                    Some(c) => keys@.take(i as int).contains(c) && state.is_child(current_id, c),
                    None => true,
                },
                !many ==> forall|k: int|
                    0 <= k < i && state.is_child(current_id, #[trigger] keys@[k]) ==> child == Some(
                        keys@[k],
                    ),
                many ==> exists|c: u64, d: u64|
                    c != d && #[trigger] state.is_child(current_id, c)
                        && #[trigger] state.is_child(current_id, d),
            decreases keys@.len() - i,
        {
            let key: u64 = keys[i];
            assert(keys@.contains(key));
            let parents: &Vec<u64> = &self.commits.get(&key).unwrap().parents;
            let is_child: bool = list_contains(parents, current_id);
            proof {
                assert(keys@.take(i + 1) =~= keys@.take(i as int).push(key));
                if let Some(c) = child {
                    crate::seq_util::lemma_push_contains(keys@.take(i as int), key, c);
                    let k = choose|k: int|
                        0 <= k < keys@.take(i as int).len() && keys@.take(i as int)[k] == c;
                    assert(keys@[k] == c);
                    assert(keys@[k] != keys@[i as int]);
                }
                crate::seq_util::lemma_push_contains(keys@.take(i as int), key, key);
            }
            if is_child {
                assert(state.is_child(current_id, key));
                if let Some(c) = child {
                    assert(state.is_child(current_id, c));
                    many = true;
                } else {
                    child = Some(key);
                }
            }
            i += 1;
        }
        proof {
            if many {
                assert forall|c: u64| !#[trigger] state.is_only_child(current_id, c) by {}
            } else {
                assert forall|c: u64| #[trigger] state.is_child(current_id, c) implies child
                    == Some(c) by {
                    assert(keys@.contains(c));
                    let k = choose|k: int| 0 <= k < keys@.len() && keys@[k] == c;
                    assert(state.is_child(current_id, keys@[k]));
                }
                if let Some(c) = child {
                    assert(state.is_only_child(current_id, c));
                }
            }
        }
        if many {
            return;
        }
        match child {
            None => {},
            Some(child) => {
                if set_contains(&self.external_children, child) {
                    return;
                }
                proof {
                    state.lemma_commit_order();
                    assert(state.current_order@.contains(current_id));
                    assert(state.commit_order().contains(current_id));
                    assert(state.commits@[child].parents@.contains(current_id));
                    assert(!members(state.external_parents).contains(child));
                    assert(state.current_order@.contains(child));
                    state.lemma_not_own_parent(current_id);
                }
                self.swap_commits(current_id, child);
                assert(state.is_only_child(current_id, child) && is_swapped(
                    state,
                    *self,
                    current_id,
                    child,
                ) && self.selected() == current_id);
            },
        }
    }
}

fn list_contains(ids: &Vec<u64>, id: u64) -> (found: bool)
    ensures
        found == ids@.contains(id),
{
    let mut i: usize = 0;
    while i < ids.len()
        invariant
            i <= ids@.len(),
            forall|k: int| 0 <= k < i ==> ids@[k] != id,
        decreases ids@.len() - i,
    {
        if ids[i] == id {
            return true;
        }
        i += 1;
    }
    false
}

/// A key.
#[derive(Debug, PartialEq, Eq, Structural, Clone, Copy)]
pub enum KeyCode {
    /// The arrow up.
    Up,
    /// The arrow down.
    Down,
    /// A character.
    Char(char),
    /// Any other key.
    Other,
}

/// The keys that are held down with another one.
#[derive(Debug, PartialEq, Eq, Structural, Clone, Copy)]
pub enum KeyModifiers {
    /// None.
    Plain,
    /// The shift key alone.
    Shift,
    /// The control key alone.
    Control,
    /// Any others.
    Other,
}

/// A key that was pressed or released.
#[derive(Debug, PartialEq, Eq, Structural, Clone, Copy)]
pub struct KeyEvent {
    /// The key.
    pub code: KeyCode,
    /// The keys that were held down with it.
    pub modifiers: KeyModifiers,
    /// Whether the key was released.
    pub is_release: bool,
}

/// What a key asks for.
#[derive(Debug, PartialEq, Eq, Structural, Clone, Copy)]
pub enum KeyCommand {
    /// Select the next commit.
    SelectDown,
    /// Select the previous commit.
    SelectUp,
    /// Set what is to become of the selected commit.
    SetAction(UiAction),
    /// Swap the selected commit with its parent.
    SwapDown,
    /// Swap the selected commit with its child.
    SwapUp,
    /// Leave without changes.
    Quit,
    /// Leave and apply the changes.
    Confirm,
    /// Nothing.
    Nothing,
}

/// What a key asks for.
pub open spec fn key_command(event: KeyEvent) -> KeyCommand {
    match event.modifiers {
        KeyModifiers::Plain => match event.code {
            KeyCode::Down => KeyCommand::SelectDown,
            KeyCode::Up => KeyCommand::SelectUp,
            KeyCode::Char(c) => if c == 'j' {
                KeyCommand::SelectDown
            } else if c == 'k' {
                KeyCommand::SelectUp
            } else if c == 'a' {
                KeyCommand::SetAction(UiAction::Abandon)
            } else if c == 'p' {
                KeyCommand::SetAction(UiAction::Keep)
            } else if c == 'q' {
                KeyCommand::Quit
            } else if c == 'c' {
                KeyCommand::Confirm
            } else {
                KeyCommand::Nothing
            },
            KeyCode::Other => KeyCommand::Nothing,
        },
        KeyModifiers::Shift => match event.code {
            KeyCode::Down => KeyCommand::SwapDown,
            KeyCode::Up => KeyCommand::SwapUp,
            KeyCode::Char(c) => if c == 'J' {
                KeyCommand::SwapDown
            } else if c == 'K' {
                KeyCommand::SwapUp
            } else {
                KeyCommand::Nothing
            },
            KeyCode::Other => KeyCommand::Nothing,
        },
        KeyModifiers::Control => if event.code == KeyCode::Char('c') {
            KeyCommand::Quit
        } else {
            KeyCommand::Nothing
        },
        KeyModifiers::Other => KeyCommand::Nothing,
    }
}

fn command_of(event: KeyEvent) -> (command: KeyCommand)
    ensures
        command == key_command(event),
{
    match (event.modifiers, event.code) {
        (KeyModifiers::Plain, KeyCode::Down) => KeyCommand::SelectDown,
        (KeyModifiers::Plain, KeyCode::Up) => KeyCommand::SelectUp,
        (KeyModifiers::Plain, KeyCode::Char('j')) => KeyCommand::SelectDown,
        (KeyModifiers::Plain, KeyCode::Char('k')) => KeyCommand::SelectUp,
        (KeyModifiers::Plain, KeyCode::Char('a')) => KeyCommand::SetAction(UiAction::Abandon),
        (KeyModifiers::Plain, KeyCode::Char('p')) => KeyCommand::SetAction(UiAction::Keep),
        (KeyModifiers::Plain, KeyCode::Char('q')) => KeyCommand::Quit,
        (KeyModifiers::Plain, KeyCode::Char('c')) => KeyCommand::Confirm,
        (KeyModifiers::Shift, KeyCode::Down) => KeyCommand::SwapDown,
        (KeyModifiers::Shift, KeyCode::Up) => KeyCommand::SwapUp,
        (KeyModifiers::Shift, KeyCode::Char('J')) => KeyCommand::SwapDown,
        (KeyModifiers::Shift, KeyCode::Char('K')) => KeyCommand::SwapUp,
        (KeyModifiers::Control, KeyCode::Char('c')) => KeyCommand::Quit,
        _ => KeyCommand::Nothing,
    }
}

/// Whether the states differ at most in the selection, which is given.
pub open spec fn is_selected(old_state: State, new_state: State, selection: int) -> bool {
    &&& new_state.current_selection == selection
    &&& new_state.commits == old_state.commits
    &&& new_state.head_order == old_state.head_order
    &&& new_state.current_order == old_state.current_order
    &&& new_state.external_children == old_state.external_children
    &&& new_state.external_parents == old_state.external_parents
}

/// Whether the states differ at most in what is to become of the selected
/// commit, which is given.
pub open spec fn is_action_set(old_state: State, new_state: State, action: UiAction) -> bool {
    let id = old_state.selected();
    &&& new_state.commits@.dom() == old_state.commits@.dom()
    &&& forall|other: u64| #[trigger]
        new_state.commits@.contains_key(other) && other != id ==> new_state.commits@[other]
            == old_state.commits@[other]
    &&& new_state.commits@[id].commit == old_state.commits@[id].commit
    &&& new_state.commits@[id].parents == old_state.commits@[id].parents
    &&& new_state.commits@[id].action == action
    &&& new_state.head_order == old_state.head_order
    &&& new_state.current_order == old_state.current_order
    &&& new_state.current_selection == old_state.current_selection
    &&& new_state.external_children == old_state.external_children
    &&& new_state.external_parents == old_state.external_parents
}

/// What a command does to the state.
pub open spec fn is_command_result(
    command: KeyCommand,
    old_state: State,
    new_state: State,
) -> bool {
    match command {
        KeyCommand::SelectDown => is_selected(
            old_state,
            new_state,
            if old_state.current_selection + 1 < old_state.current_order@.len() {
                old_state.current_selection + 1
            } else {
                old_state.current_selection as int
            },
        ),
        KeyCommand::SelectUp => is_selected(
            old_state,
            new_state,
            if old_state.current_selection > 0 {
                old_state.current_selection - 1
            } else {
                0
            },
        ),
        KeyCommand::SetAction(action) => is_action_set(old_state, new_state, action),
        KeyCommand::SwapDown => State::is_swapped_down(old_state, new_state),
        KeyCommand::SwapUp => State::is_swapped_up(old_state, new_state),
        _ => new_state == old_state,
    }
}

/// Applies a key to the state.
pub fn handle_key_event(event: KeyEvent, state: State) -> (new_state: State)
    requires
        state.wf(),
        state.current_order@.len() > 0,
    ensures
        new_state.wf(),
        new_state.current_order@.len() == state.current_order@.len(),
        is_command_result(key_command(event), state, new_state),
{
    let ghost old_state = state;
    let mut state: State = state;
    match command_of(event) {
        KeyCommand::SelectDown => {
            if state.current_selection < state.current_order.len() - 1 {
                state.current_selection = state.current_selection + 1;
            }
            proof {
                lemma_same_order(old_state, state);
            }
        },
        KeyCommand::SelectUp => {
            if state.current_selection > 0 {
                state.current_selection = state.current_selection - 1;
            }
            proof {
                lemma_same_order(old_state, state);
            }
        },
        KeyCommand::SetAction(action) => {
            let id: u64 = state.current_id();
            proof {
                old_state.lemma_commit_order();
                assert(old_state.commit_order().contains(id));
            }
            let mut commit_state: CommitState = state.commits.remove(&id).unwrap();
            commit_state.action = action;
            state.commits.insert(id, commit_state);
            proof {
                assert(state.commits@.dom() =~= old_state.commits@.dom());
                assert(same_graph(old_state, state));
                lemma_same_order(old_state, state);
                assert forall|x: u64| #[trigger] state.commits@.contains_key(x)
                    <==> old_state.commits@.contains_key(x) by {
                    assert(state.commits@.dom().contains(x) <==> old_state.commits@.dom().contains(
                        x,
                    ));
                }
                assert forall|x: u64, parent: u64|
                    state.current_order@.contains(x)
                        && #[trigger] state.commits@[x].parents@.contains(parent) implies state.commits@.contains_key(
                    parent,
                ) by {
                    assert(old_state.commit_order().contains(x));
                    assert(old_state.commits@[x].parents@.contains(parent));
                }
                assert forall|x: u64, parent: u64|
                    members(state.external_parents).contains(x)
                        && #[trigger] state.commits@[x].parents@.contains(parent) implies !state.current_order@.contains(
                    parent,
                ) by {
                    assert(old_state.commits@.contains_key(x));
                    assert(old_state.commits@[x].parents@.contains(parent));
                }
            }
        },
        KeyCommand::SwapDown => {
            state.swap_selection_down();
        },
        KeyCommand::SwapUp => {
            state.swap_selection_up();
        },
        _ => {},
    }
    state
}

/// What the UI does after a key.
#[derive(Debug)]
pub enum UiStep {
    /// It goes on with this state.
    Continue(State),
    /// It ends, and this state is applied.
    Confirm(State),
    /// It ends without changes.
    Quit,
}

/// Whether two states are the same, as far as they can be seen.
pub open spec fn same_state(a: State, b: State) -> bool {
    &&& a.commits == b.commits
    &&& a.head_order@ == b.head_order@
    &&& a.current_order@ == b.current_order@
    &&& a.current_selection == b.current_selection
    &&& a.external_children == b.external_children
    &&& a.external_parents == b.external_parents
}

/// Reacts to a key: leaves the UI, or applies the key and brings the order up
/// to date. A key that is released does nothing.
pub fn handle_ui_event(event: KeyEvent, state: State) -> (step: UiStep)
    requires
        state.wf(),
        state.current_order@.len() > 0,
    ensures
        match step {
            UiStep::Quit => !event.is_release && key_command(event) == KeyCommand::Quit,
            UiStep::Confirm(new_state) => !event.is_release && key_command(event)
                == KeyCommand::Confirm && new_state == state,
            UiStep::Continue(new_state) => {
                &&& new_state.wf()
                &&& new_state.current_order@.len() == state.current_order@.len()
                &&& event.is_release ==> new_state == state
                &&& !event.is_release ==> key_command(event) != KeyCommand::Quit && key_command(
                    event,
                ) != KeyCommand::Confirm && exists|applied: State|
                    #![trigger is_command_result(key_command(event), state, applied)]
                    is_command_result(key_command(event), state, applied) && same_state(
                        applied,
                        new_state,
                    )
            },
        },
{
    if event.is_release {
        return UiStep::Continue(state);
    }
    match command_of(event) {
        KeyCommand::Quit => UiStep::Quit,
        KeyCommand::Confirm => UiStep::Confirm(state),
        _ => {
            let mut new_state: State = handle_key_event(event, state);
            let ghost applied = new_state;
            new_state.update_commit_order();
            proof {
                lemma_same_order(applied, new_state);
                assert(is_command_result(key_command(event), state, applied));
                assert(same_state(applied, new_state));
            }
            UiStep::Continue(new_state)
        },
    }
}

/// An edge of the graph as it is drawn.
#[derive(Debug, PartialEq, Eq, Structural, Clone, Copy)]
pub enum Ancestor {
    /// An edge to a commit that is drawn.
    Parent(u64),
    /// An edge to a commit that is not drawn.
    Anonymous,
}

/// A row of the UI.
#[derive(Debug)]
pub struct Row {
    /// The commit.
    pub id: u64,
    /// Whether the commit is selected.
    pub selected: bool,
    /// The edges to the parents.
    pub edges: Vec<Ancestor>,
    /// The node of the graph.
    pub glyph: &'static str,
    /// What is to become of the commit, if it is not external.
    pub action_text: Option<&'static str>,
    /// Whether the commit is external.
    pub is_context_node: bool,
}

impl State {
    /// The commits in the order in which they are drawn.
    pub open spec fn drawn_commits(&self) -> Seq<u64> {
        members(self.external_children) + self.current_order@ + members(self.external_parents)
    }

    /// How the edge to a parent is drawn.
    pub open spec fn drawn_edge(&self, parent: u64) -> Ancestor {
        if self.commits@.contains_key(parent) {
            Ancestor::Parent(parent)
        } else {
            Ancestor::Anonymous
        }
    }

    /// Whether `row` is how a commit is drawn.
    pub open spec fn is_row_of(&self, id: u64, row: Row) -> bool {
        let action = self.commits@[id].action;
        let external = members(self.external_children).contains(id) || members(
            self.external_parents,
        ).contains(id);
        &&& row.id == id
        &&& row.selected == (id == self.selected())
        &&& row.edges@ == self.commits@[id].parents@.map_values(
            |parent: u64| self.drawn_edge(parent),
        )
        &&& row.glyph@ == (match action {
            UiAction::Abandon => "×"@,
            UiAction::Keep => "○"@,
        })
        &&& row.is_context_node == external
        &&& match row.action_text {
            None => external,
            Some(text) => !external && text@ == (match action {
                UiAction::Abandon => "abandon"@,
                UiAction::Keep => "keep"@,
            }),
        }
    }

    /// Describes how a commit is drawn.
    pub fn row(&self, id: u64) -> (row: Row)
        requires
            self.commits@.contains_key(id),
            self.current_selection < self.current_order@.len(),
        ensures
            self.is_row_of(id, row),
    {
        let commit_state: &CommitState = self.commits.get(&id).unwrap();
        let ghost goal = commit_state.parents@.map_values(|parent: u64| self.drawn_edge(parent));
        let mut edges: Vec<Ancestor> = Vec::new();
        let mut k: usize = 0;
        while k < commit_state.parents.len()
            invariant
                k <= commit_state.parents@.len(),
                goal == commit_state.parents@.map_values(|parent: u64| self.drawn_edge(parent)),
                edges@ == goal.take(k as int),
            decreases commit_state.parents@.len() - k,
        {
            let parent: u64 = commit_state.parents[k];
            if self.commits.contains_key(&parent) {
                edges.push(Ancestor::Parent(parent));
            } else {
                edges.push(Ancestor::Anonymous);
            }
            k += 1;
            assert(edges@ =~= goal.take(k as int));
        }
        assert(goal.take(goal.len() as int) =~= goal);
        let is_context_node: bool = set_contains(&self.external_children, id) || set_contains(
            &self.external_parents,
            id,
        );
        let glyph: &'static str = match commit_state.action {
            UiAction::Abandon => "×",
            UiAction::Keep => "○",
        };
        let action_text: Option<&'static str> = if is_context_node {
            None
        } else {
            match commit_state.action {
                UiAction::Abandon => Some("abandon"),
                UiAction::Keep => Some("keep"),
            }
        };
        Row { id, selected: id == self.current_id(), edges, glyph, action_text, is_context_node }
    }

    /// Describes the rows of the UI: external children first, then the commits
    /// in order, then external parents.
    pub fn rows(&self) -> (rows: Vec<Row>)
        requires
            self.wf(),
            self.current_order@.len() > 0,
        ensures
            rows@.len() == self.drawn_commits().len(),
            forall|i: int|
                0 <= i < rows@.len() ==> self.is_row_of(
                    self.drawn_commits()[i],
                    #[trigger] rows@[i],
                ),
            rows@.map_values(|row: Row| row.id) == members(self.external_children)
                + self.current_order@ + members(self.external_parents),
    {
        let ghost drawn = self.drawn_commits();
        let num_children: usize = set_len(&self.external_children);
        let num_parents: usize = set_len(&self.external_parents);
        let mut rows: Vec<Row> = Vec::new();
        let mut i: usize = 0;
        while i < num_children
            invariant
                self.wf(),
                self.current_order@.len() > 0,
                drawn == self.drawn_commits(),
                num_children == members(self.external_children).len(),
                i <= num_children,
                rows@.len() == i,
                forall|k: int| 0 <= k < i ==> self.is_row_of(drawn[k], #[trigger] rows@[k]),
            decreases num_children - i,
        {
            if let Some(id) = set_get_index(&self.external_children, i) {
                assert(members(self.external_children).contains(id));
                assert(drawn[i as int] == id);
                let row: Row = self.row(id);
                rows.push(row);
            }
            i += 1;
        }
        let mut j: usize = 0;
        while j < self.current_order.len()
            invariant
                self.wf(),
                self.current_order@.len() > 0,
                drawn == self.drawn_commits(),
                num_children == members(self.external_children).len(),
                j <= self.current_order@.len(),
                rows@.len() == num_children + j,
                forall|k: int|
                    0 <= k < num_children + j ==> self.is_row_of(drawn[k], #[trigger] rows@[k]),
            decreases self.current_order@.len() - j,
        {
            let id: u64 = self.current_order[j];
            proof {
                self.lemma_commit_order();
                assert(self.current_order@.contains(id));
                assert(self.commit_order().contains(id));
                assert(drawn[num_children + j] == id);
            }
            let row: Row = self.row(id);
            rows.push(row);
            j += 1;
        }
        let ghost base = num_children + self.current_order@.len();
        let mut m: usize = 0;
        while m < num_parents
            invariant
                self.wf(),
                self.current_order@.len() > 0,
                drawn == self.drawn_commits(),
                num_children == members(self.external_children).len(),
                num_parents == members(self.external_parents).len(),
                base == num_children + self.current_order@.len(),
                m <= num_parents,
                rows@.len() == base + m,
                forall|k: int| 0 <= k < base + m ==> self.is_row_of(drawn[k], #[trigger] rows@[k]),
            decreases num_parents - m,
        {
            if let Some(id) = set_get_index(&self.external_parents, m) {
                assert(members(self.external_parents).contains(id));
                assert(drawn[base + m] == id);
                let row: Row = self.row(id);
                rows.push(row);
            }
            m += 1;
        }
        rows
    }
}

/// How a commit is rewritten.
#[derive(Debug, PartialEq, Eq, Structural, Clone, Copy)]
pub enum RewriteAction {
    /// The commit is abandoned.
    Abandon,
    /// The commit is kept.
    Keep,
}

/// What is to become of a commit.
#[derive(Debug)]
pub struct Rewrite {
    /// The commit as it was.
    pub old_commit: Commit,
    /// The parents it is to have.
    pub new_parents: Vec<u64>,
    /// How it is rewritten.
    pub action: RewriteAction,
}

/// What is to become of all commits.
#[derive(Debug)]
pub struct RewritePlan {
    /// The rewrites of the commits.
    pub rewrites: HashMap<u64, Rewrite>,
}

/// Whether two commits are the same, as far as they can be seen.
pub open spec fn same_commit(a: Commit, b: Commit) -> bool {
    a.id == b.id && a.parent_ids@ == b.parent_ids@
}

fn copy_ids(ids: &Vec<u64>) -> (copy: Vec<u64>)
    ensures
        copy@ == ids@,
{
    let mut copy: Vec<u64> = Vec::new();
    let mut i: usize = 0;
    while i < ids.len()
        invariant
            i <= ids@.len(),
            copy@ == ids@.take(i as int),
        decreases ids@.len() - i,
    {
        copy.push(ids[i]);
        i += 1;
        assert(copy@ =~= ids@.take(i as int));
    }
    assert(ids@.take(ids@.len() as int) =~= ids@);
    copy
}

fn copy_commit(commit: &Commit) -> (copy: Commit)
    ensures
        same_commit(copy, *commit),
{
    Commit { id: commit.id, parent_ids: copy_ids(&commit.parent_ids) }
}

/// The rewrite that the state of a commit asks for.
pub open spec fn is_rewrite_of(rewrite: Rewrite, commit_state: CommitState) -> bool {
    &&& same_commit(rewrite.old_commit, commit_state.commit)
    &&& rewrite.new_parents@ == commit_state.parents@
    &&& rewrite.action == (match commit_state.action {
        UiAction::Abandon => RewriteAction::Abandon,
        UiAction::Keep => RewriteAction::Keep,
    })
}

impl State {
    /// Makes the plan that rewrites the commits as the state says. External
    /// parents stay as they are.
    pub fn to_rewrite_plan(&self) -> (plan: RewritePlan)
        ensures
            forall|id: u64| #[trigger]
                plan.rewrites@.contains_key(id) <==> self.commits@.contains_key(id) && !members(
                    self.external_parents,
                ).contains(id),
            forall|id: u64| #[trigger]
                plan.rewrites@.contains_key(id) ==> is_rewrite_of(
                    plan.rewrites@[id],
                    self.commits@[id],
                ),
            forall|id: u64, i: int|
                plan.rewrites@.contains_key(id) && 0 <= i < self.commits@[id].parents@.len()
                    ==> plan.rewrites@[id].new_parents@.len() == self.commits@[id].parents@.len()
                    && #[trigger] plan.rewrites@[id].new_parents@[i]
                    == self.commits@[id].parents@[i],
    {
        let keys: Vec<u64> = map_keys(&self.commits);
        let mut rewrites: HashMap<u64, Rewrite> = HashMap::new();
        let mut i: usize = 0;
        while i < keys.len()
            invariant
                i <= keys@.len(),
                forall|key: u64| #[trigger]
                    keys@.contains(key) <==> self.commits@.contains_key(key),
                forall|id: u64| #[trigger]
                    rewrites@.contains_key(id) <==> keys@.take(i as int).contains(id) && !members(
                        self.external_parents,
                    ).contains(id),
                forall|id: u64| #[trigger]
                    rewrites@.contains_key(id) ==> is_rewrite_of(rewrites@[id], self.commits@[id]),
            decreases keys@.len() - i,
        {
            let id: u64 = keys[i];
            let ghost taken = keys@.take(i as int);
            assert(keys@.contains(id));
            if !set_contains(&self.external_parents, id) {
                let commit_state: &CommitState = self.commits.get(&id).unwrap();
                let action: RewriteAction = match commit_state.action {
                    UiAction::Abandon => RewriteAction::Abandon,
                    UiAction::Keep => RewriteAction::Keep,
                };
                rewrites.insert(
                    id,
                    Rewrite {
                        old_commit: copy_commit(&commit_state.commit),
                        new_parents: copy_ids(&commit_state.parents),
                        action,
                    },
                );
            }
            i += 1;
            proof {
                assert(keys@.take(i as int) =~= taken.push(id));
                assert forall|x: u64| #[trigger] rewrites@.contains_key(x) <==> keys@.take(
                    i as int,
                ).contains(x) && !members(self.external_parents).contains(x) by {
                    crate::seq_util::lemma_push_contains(taken, id, x);
                }
            }
        }
        assert(keys@.take(keys@.len() as int) =~= keys@);
        RewritePlan { rewrites }
    }
}

/// Those of `parents` that a plan rewrites.
pub open spec fn planned_parents(rewrites: Map<u64, Rewrite>, parents: Seq<u64>) -> Seq<u64>
    decreases parents.len(),
{
    if parents.len() == 0 {
        Seq::empty()
    } else {
        let front = planned_parents(rewrites, parents.drop_last());
        if rewrites.contains_key(parents.last()) {
            front.push(parents.last())
        } else {
            front
        }
    }
}

proof fn lemma_planned_parents(rewrites: Map<u64, Rewrite>, parents: Seq<u64>)
    ensures
        forall|p: u64| #[trigger]
            planned_parents(rewrites, parents).contains(p) <==> parents.contains(p)
                && rewrites.contains_key(p),
    decreases parents.len(),
{
    if parents.len() > 0 {
        let front = parents.drop_last();
        lemma_planned_parents(rewrites, front);
        assert(parents =~= front.push(parents.last()));
        assert forall|p: u64| #[trigger]
            planned_parents(rewrites, parents).contains(p) <==> parents.contains(p)
                && rewrites.contains_key(p) by {
            crate::seq_util::lemma_push_contains(front, parents.last(), p);
            crate::seq_util::lemma_push_contains(
                planned_parents(rewrites, front),
                parents.last(),
                p,
            );
            assert(planned_parents(rewrites, front).contains(p) <==> front.contains(p)
                && rewrites.contains_key(p));
        }
    }
}

/// The graph of the new parents among the commits that a plan rewrites.
pub open spec fn plan_graph(rewrites: Map<u64, Rewrite>) -> Map<u64, Seq<u64>> {
    Map::new(
        |id: u64| rewrites.contains_key(id),
        |id: u64| planned_parents(rewrites, rewrites[id].new_parents@),
    )
}

/// Whether no commit of a plan becomes its own ancestor.
pub open spec fn is_plan_acyclic(rewrites: Map<u64, Rewrite>) -> bool {
    forall|id: u64| !#[trigger] lies_on_cycle(plan_graph(rewrites), id)
}

/// Whether the commit at `i` comes after those of its new parents that are
/// rewritten too.
pub open spec fn parents_before(rewrites: Map<u64, Rewrite>, ids: Seq<u64>, i: int) -> bool {
    forall|parent: u64| #[trigger]
        rewrites[ids[i]].new_parents@.contains(parent) && rewrites.contains_key(parent)
            ==> ids.take(i).contains(parent)
}

impl RewritePlan {
    /// The order in which the commits are rewritten: each once, and parents
    /// before children.
    pub fn rewrite_order(&self) -> (ids: Vec<u64>)
        requires
            is_plan_acyclic(self.rewrites@),
        ensures
            ids@.no_duplicates(),
            forall|id: u64| #[trigger] ids@.contains(id) <==> self.rewrites@.contains_key(id),
            forall|i: int|
                0 <= i < ids@.len() ==> #[trigger] parents_before(self.rewrites@, ids@, i),
    {
        let keys: Vec<u64> = map_keys(&self.rewrites);
        let mut neighbors: HashMap<u64, Vec<u64>> = HashMap::new();
        let mut i: usize = 0;
        while i < keys.len()
            invariant
                i <= keys@.len(),
                forall|key: u64| #[trigger]
                    keys@.contains(key) <==> self.rewrites@.contains_key(key),
                forall|key: u64| #[trigger]
                    neighbors@.contains_key(key) <==> keys@.take(i as int).contains(key),
                forall|key: u64| #[trigger]
                    neighbors@.contains_key(key) ==> neighbors@[key]@ == planned_parents(
                        self.rewrites@,
                        self.rewrites@[key].new_parents@,
                    ),
            decreases keys@.len() - i,
        {
            let key: u64 = keys[i];
            assert(keys@.contains(key));
            let ghost taken = keys@.take(i as int);
            let parents: &Vec<u64> = &self.rewrites.get(&key).unwrap().new_parents;
            let mut planned: Vec<u64> = Vec::new();
            let mut k: usize = 0;
            while k < parents.len()
                invariant
                    k <= parents@.len(),
                    planned@ == planned_parents(self.rewrites@, parents@.take(k as int)),
                decreases parents@.len() - k,
            {
                let parent: u64 = parents[k];
                proof {
                    assert(parents@.take(k + 1).drop_last() =~= parents@.take(k as int));
                    assert(parents@.take(k + 1).last() == parent);
                }
                if self.rewrites.contains_key(&parent) {
                    planned.push(parent);
                }
                k += 1;
            }
            assert(parents@.take(parents@.len() as int) =~= parents@);
            neighbors.insert(key, planned);
            i += 1;
            proof {
                assert(keys@.take(i as int) =~= taken.push(key));
                assert forall|x: u64| #[trigger] neighbors@.contains_key(x) <==> keys@.take(
                    i as int,
                ).contains(x) by {
                    crate::seq_util::lemma_push_contains(taken, key, x);
                }
            }
        }
        let ghost graph = plan_graph(self.rewrites@);
        proof {
            assert(keys@.take(keys@.len() as int) =~= keys@);
            assert forall|x: u64| #[trigger] neighbor_graph(neighbors@).contains_key(x)
                <==> graph.contains_key(x) by {
                assert(keys@.contains(x) <==> self.rewrites@.contains_key(x));
            }
            assert(neighbor_graph(neighbors@) =~= graph);
            assert(graph.dom() =~= self.rewrites@.dom());
            assert forall|node: u64, k: int|
                graph.contains_key(node) && 0 <= k < graph[node].len() implies graph.contains_key(
                #[trigger] graph[node][k],
            ) by {
                lemma_planned_parents(self.rewrites@, self.rewrites@[node].new_parents@);
                assert(graph[node].contains(graph[node][k]));
            }
            assert forall|k: int| 0 <= k < keys@.len() implies neighbors@.contains_key(
                #[trigger] keys@[k],
            ) by {
                assert(keys@.contains(keys@[k]));
            }
            if has_cycle(graph, keys@) {
                let (node, path) = choose|node: u64, path: Seq<u64>| #[trigger]
                    is_cycle(graph, node, path) && reachable_from(graph, keys@, node);
                assert(lies_on_cycle(graph, node));
            }
        }
        match topo_order_forward(&keys, &neighbors) {
            Ok(ids) => {
                proof {
                    assert forall|id: u64| #[trigger] ids@.contains(id)
                        <==> self.rewrites@.contains_key(id) by {
                        self.lemma_all_planned(keys@, ids@, id);
                    }
                    assert forall|n: int| 0 <= n < ids@.len() implies #[trigger] parents_before(
                        self.rewrites@,
                        ids@,
                        n,
                    ) by {
                        assert(crate::dag_walk::neighbors_before(graph, ids@, n));
                        assert(ids@.contains(ids@[n]));
                        lemma_planned_parents(
                            self.rewrites@,
                            self.rewrites@[ids@[n]].new_parents@,
                        );
                        assert forall|parent: u64| #[trigger]
                            self.rewrites@[ids@[n]].new_parents@.contains(parent)
                                && self.rewrites@.contains_key(parent) implies ids@.take(
                            n,
                        ).contains(parent) by {
                            assert(graph[ids@[n]].contains(parent));
                        }
                    }
                }
                ids
            },
            Err(_) => {
                assert(false);
                Vec::new()
            },
        }
    }

    proof fn lemma_all_planned(&self, keys: Seq<u64>, ids: Seq<u64>, id: u64)
        requires
            forall|key: u64| #[trigger]
                keys.contains(key) <==> self.rewrites@.contains_key(key),
            is_topo_order(plan_graph(self.rewrites@), keys, ids),
            is_closed(plan_graph(self.rewrites@)),
        ensures
            ids.contains(id) <==> self.rewrites@.contains_key(id),
    {
        let graph = plan_graph(self.rewrites@);
        let edges = edges_of(graph);
        if ids.contains(id) {
            let s = choose|s: u64| #[trigger] keys.contains(s) && reachable(edges, s, id);
            let path = choose|path: Seq<u64>| is_path(edges, s, path, id);
            if path.len() == 1 {
                assert(s == id);
            } else {
                assert(edge_at(edges, path, path.len() - 2));
                let from = path[path.len() - 2];
                let k = choose|k: int| 0 <= k < graph[from].len() && graph[from][k] == id;
                assert(graph.contains_key(graph[from][k]));
            }
        }
        if self.rewrites@.contains_key(id) {
            assert(keys.contains(id));
            crate::dominance::lemma_path_single(edges, id);
            assert(reachable(edges, id, id));
            assert(reachable_from(graph, keys, id));
        }
    }
}

/// What is done with a commit when a plan is executed.
#[derive(Debug, PartialEq, Eq, Structural, Clone, Copy)]
pub enum RewriteStep {
    /// The commit is abandoned.
    Abandon,
    /// The commit is rebased onto its new parents.
    Rebase,
    /// The commit stays as it is.
    Unchanged,
}

/// What is done with a commit that is to be rewritten, given its new parents.
pub open spec fn rewrite_step(rewrite: Rewrite, new_parents: Seq<u64>) -> RewriteStep {
    match rewrite.action {
        RewriteAction::Abandon => RewriteStep::Abandon,
        RewriteAction::Keep => if new_parents != rewrite.old_commit.parent_ids@ {
            RewriteStep::Rebase
        } else {
            RewriteStep::Unchanged
        },
    }
}

impl Rewrite {
    /// Decides what is done with the commit, given its new parents after the
    /// rewrites that have been done already. A commit that is kept is rebased
    /// only if its parents have changed.
    pub fn step(&self, new_parents: &Vec<u64>) -> (step: RewriteStep)
        ensures
            step == (match self.action {
                RewriteAction::Abandon => RewriteStep::Abandon,
                RewriteAction::Keep => if new_parents@ != self.old_commit.parent_ids@ {
                    RewriteStep::Rebase
                } else {
                    RewriteStep::Unchanged
                },
            }),
            step == rewrite_step(*self, new_parents@),
    {
        match self.action {
            RewriteAction::Abandon => RewriteStep::Abandon,
            RewriteAction::Keep => {
                if same_ids(new_parents, &self.old_commit.parent_ids) {
                    RewriteStep::Unchanged
                } else {
                    RewriteStep::Rebase
                }
            },
        }
    }
}

fn same_ids(a: &Vec<u64>, b: &Vec<u64>) -> (same: bool)
    ensures
        same == (a@ == b@),
{
    if a.len() != b.len() {
        return false;
    }
    let mut i: usize = 0;
    while i < a.len()
        invariant
            i <= a@.len(),
            a@.len() == b@.len(),
            forall|k: int| 0 <= k < i ==> a@[k] == b@[k],
        decreases a@.len() - i,
    {
        if a[i] != b[i] {
            return false;
        }
        i += 1;
    }
    assert(a@ =~= b@);
    true
}

/// The plan of a state in which no commit is its own ancestor makes no commit
/// its own ancestor.
pub proof fn lemma_plan_acyclic(state: State, plan: RewritePlan)
    requires
        state.is_acyclic(),
        forall|id: u64| #[trigger]
            plan.rewrites@.contains_key(id) ==> state.commits@.contains_key(id) && is_rewrite_of(
                plan.rewrites@[id],
                state.commits@[id],
            ),
    ensures
        is_plan_acyclic(plan.rewrites@),
{
    let graph = plan_graph(plan.rewrites@);
    assert forall|id: u64| !#[trigger] lies_on_cycle(graph, id) by {
        if lies_on_cycle(graph, id) {
            let path = choose|path: Seq<u64>| is_cycle(graph, id, path);
            assert forall|i: int| 0 <= i < path.len() - 1 implies #[trigger] edge_at(
                edges_of(state.parent_graph()),
                path,
                i,
            ) by {
                assert(edge_at(edges_of(graph), path, i));
                lemma_planned_parents(plan.rewrites@, plan.rewrites@[path[i]].new_parents@);
                assert(plan.rewrites@.contains_key(path[i]));
            }
            assert(is_cycle(state.parent_graph(), id, path));
            assert(lies_on_cycle(state.parent_graph(), id));
        }
    }
}

/// Those of `parents` that are not in `ids`.
pub open spec fn parents_outside(ids: Seq<u64>, parents: Seq<u64>) -> Seq<u64>
    decreases parents.len(),
{
    if parents.len() == 0 {
        Seq::empty()
    } else {
        let front = parents_outside(ids, parents.drop_last());
        if ids.contains(parents.last()) {
            front
        } else {
            front.push(parents.last())
        }
    }
}

/// The parents of the first `n` commits that are not among all the commits.
pub open spec fn outside_parents(commits: Seq<Commit>, n: int) -> Seq<u64>
    decreases n,
{
    if n <= 0 {
        Seq::empty()
    } else {
        outside_parents(commits, n - 1) + parents_outside(
            commit_ids(commits),
            commits[n - 1].parent_ids@,
        )
    }
}

/// Whether a commit is a parent of one of `commits`.
pub open spec fn is_parent_in(commits: Seq<Commit>, id: u64) -> bool {
    exists|i: int| 0 <= i < commits.len() && (#[trigger] commits[i]).parent_ids@.contains(id)
}

/// The first `n` commits that are not parents of any of the commits.
pub open spec fn heads_of(commits: Seq<Commit>, n: int) -> Seq<u64>
    decreases n,
{
    if n <= 0 {
        Seq::empty()
    } else {
        let front = heads_of(commits, n - 1);
        if is_parent_in(commits, commits[n - 1].id) {
            front
        } else {
            front.push(commits[n - 1].id)
        }
    }
}

proof fn lemma_parents_outside(ids: Seq<u64>, parents: Seq<u64>)
    ensures
        forall|p: u64| #[trigger]
            parents_outside(ids, parents).contains(p) <==> parents.contains(p) && !ids.contains(p),
    decreases parents.len(),
{
    if parents.len() > 0 {
        let front = parents.drop_last();
        lemma_parents_outside(ids, front);
        assert(parents =~= front.push(parents.last()));
        assert forall|p: u64| #[trigger] parents_outside(ids, parents).contains(p)
            <==> parents.contains(p) && !ids.contains(p) by {
            crate::seq_util::lemma_push_contains(front, parents.last(), p);
            crate::seq_util::lemma_push_contains(parents_outside(ids, front), parents.last(), p);
            assert(parents_outside(ids, front).contains(p) <==> front.contains(p)
                && !ids.contains(p));
        }
    }
}

/// The parents outside of commits are those that some commit has and that are
/// no commits of the list themselves.
pub proof fn lemma_outside_parents(commits: Seq<Commit>, n: int, id: u64)
    requires
        0 <= n <= commits.len(),
    ensures
        outside_parents(commits, n).contains(id) <==> !commit_ids(commits).contains(id)
            && exists|i: int|
            0 <= i < n && (#[trigger] commits[i]).parent_ids@.contains(id),
    decreases n,
{
    if n > 0 {
        lemma_outside_parents(commits, n - 1, id);
        let ids = commit_ids(commits);
        let front = outside_parents(commits, n - 1);
        let last = parents_outside(ids, commits[n - 1].parent_ids@);
        lemma_parents_outside(ids, commits[n - 1].parent_ids@);
        assert(last.contains(id) <==> commits[n - 1].parent_ids@.contains(id) && !ids.contains(id));
        let all = outside_parents(commits, n);
        assert(all.contains(id) <==> front.contains(id) || last.contains(id)) by {
            if front.contains(id) {
                let k = choose|k: int| 0 <= k < front.len() && front[k] == id;
                assert(all[k] == id);
            }
            if last.contains(id) {
                let k = choose|k: int| 0 <= k < last.len() && last[k] == id;
                assert(all[front.len() + k] == id);
            }
            if all.contains(id) {
                let k = choose|k: int| 0 <= k < all.len() && all[k] == id;
                if k < front.len() {
                    assert(front[k] == id);
                } else {
                    assert(last[k - front.len()] == id);
                }
            }
        }
    }
}

/// The heads are the commits that are no parents of any commit of the list.
pub proof fn lemma_heads_of(commits: Seq<Commit>, n: int, id: u64)
    requires
        0 <= n <= commits.len(),
    ensures
        heads_of(commits, n).contains(id) <==> !is_parent_in(commits, id) && exists|i: int|
            0 <= i < n && (#[trigger] commits[i]).id == id,
    decreases n,
{
    if n > 0 {
        lemma_heads_of(commits, n - 1, id);
        crate::seq_util::lemma_push_contains(heads_of(commits, n - 1), commits[n - 1].id, id);
    }
}

/// The graph of some commits.
pub open spec fn commit_graph(commits: Seq<Commit>) -> Map<u64, Seq<u64>> {
    Map::new(
        |id: u64| commit_ids(commits).contains(id),
        |id: u64| commits[commit_ids(commits).index_of(id)].parent_ids@,
    )
}

/// Whether commits can be arranged: they are given once with the commits
/// around them, no commit is its own ancestor, and there are no gaps between
/// the commits.
pub open spec fn can_arrange(
    commits: Seq<Commit>,
    external_children: Seq<Commit>,
    external_parents: Seq<Commit>,
) -> bool {
    let all = commits + external_children + external_parents;
    &&& commit_ids(all).no_duplicates()
    &&& forall|id: u64| !#[trigger] lies_on_cycle(commit_graph(all), id)
    &&& commit_ids(external_parents) == dedup(outside_parents(commits, commits.len() as int))
    &&& forall|i: int, id: u64|
        0 <= i < external_parents.len() && #[trigger] external_parents[i].parent_ids@.contains(id)
            ==> !commit_ids(commits).contains(id)
}

/// Finds the parents of commits that are not among the commits, in order.
pub fn find_external_parents(commits: &[Commit]) -> (parents: IndexSet<u64>)
    ensures
        members(parents) == dedup(outside_parents(commits@, commits@.len() as int)),
{
    let ghost ids = commit_ids(commits@);
    let commit_set: HashSet<u64> = id_set(commits);
    let mut parents: IndexSet<u64> = set_new();
    let mut i: usize = 0;
    assert(members(parents) =~= dedup(outside_parents(commits@, 0)));
    while i < commits.len()
        invariant
            i <= commits@.len(),
            ids == commit_ids(commits@),
            forall|id: u64| #[trigger] commit_set@.contains(id) <==> ids.contains(id),
            members(parents) == dedup(outside_parents(commits@, i as int)),
        decreases commits@.len() - i,
    {
        let list: &Vec<u64> = &commits[i].parent_ids;
        let ghost before = outside_parents(commits@, i as int);
        let mut k: usize = 0;
        assert(before + parents_outside(ids, list@.take(0)) =~= before);
        while k < list.len()
            invariant
                k <= list@.len(),
                forall|id: u64| #[trigger] commit_set@.contains(id) <==> ids.contains(id),
                members(parents) == dedup(before + parents_outside(ids, list@.take(k as int))),
            decreases list@.len() - k,
        {
            let parent: u64 = list[k];
            let ghost so_far = before + parents_outside(ids, list@.take(k as int));
            proof {
                assert(list@.take(k + 1).drop_last() =~= list@.take(k as int));
                assert(list@.take(k + 1).last() == parent);
            }
            if !commit_set.contains(&parent) {
                set_insert(&mut parents, parent);
                proof {
                    lemma_dedup_push(so_far, parent);
                    assert(so_far.push(parent) =~= before + parents_outside(
                        ids,
                        list@.take(k + 1),
                    ));
                }
            }
            k += 1;
        }
        assert(list@.take(list@.len() as int) =~= list@);
        i += 1;
    }
    parents
}

fn id_set(commits: &[Commit]) -> (ids: HashSet<u64>)
    ensures
        forall|id: u64| #[trigger] ids@.contains(id) <==> commit_ids(commits@).contains(id),
{
    let ghost all = commit_ids(commits@);
    let mut ids: HashSet<u64> = HashSet::new();
    let mut i: usize = 0;
    while i < commits.len()
        invariant
            i <= commits@.len(),
            all == commit_ids(commits@),
            forall|id: u64| #[trigger] ids@.contains(id) <==> all.take(i as int).contains(id),
        decreases commits@.len() - i,
    {
        let id: u64 = commits[i].id;
        let ghost taken = all.take(i as int);
        ids.insert(id);
        i += 1;
        proof {
            assert(all.take(i as int) =~= taken.push(id));
            assert forall|x: u64| #[trigger] ids@.contains(x) <==> all.take(i as int).contains(
                x,
            ) by {
                crate::seq_util::lemma_push_contains(taken, id, x);
            }
        }
    }
    assert(all.take(commits@.len() as int) =~= all);
    ids
}

/// The ids of all parents of some commits.
fn parent_set(commits: &[Commit]) -> (ids: HashSet<u64>)
    ensures
        forall|id: u64| #[trigger] ids@.contains(id) <==> is_parent_in(commits@, id),
{
    let mut ids: HashSet<u64> = HashSet::new();
    let mut i: usize = 0;
    while i < commits.len()
        invariant
            i <= commits@.len(),
            forall|id: u64| #[trigger]
                ids@.contains(id) <==> is_parent_in(commits@.take(i as int), id),
        decreases commits@.len() - i,
    {
        let list: &Vec<u64> = &commits[i].parent_ids;
        let ghost taken = commits@.take(i as int);
        let mut k: usize = 0;
        while k < list.len()
            invariant
                k <= list@.len(),
                forall|id: u64| #[trigger]
                    ids@.contains(id) <==> is_parent_in(taken, id) || list@.take(
                        k as int,
                    ).contains(id),
            decreases list@.len() - k,
        {
            let parent: u64 = list[k];
            let ghost seen = list@.take(k as int);
            ids.insert(parent);
            k += 1;
            proof {
                assert(list@.take(k as int) =~= seen.push(parent));
                assert forall|id: u64| #[trigger] ids@.contains(id) <==> is_parent_in(taken, id)
                    || list@.take(k as int).contains(id) by {
                    crate::seq_util::lemma_push_contains(seen, parent, id);
                }
            }
        }
        i += 1;
        proof {
            assert(list@.take(list@.len() as int) =~= list@);
            let longer = commits@.take(i as int);
            assert forall|id: u64| #[trigger] ids@.contains(id) <==> is_parent_in(longer, id) by {
                if is_parent_in(taken, id) {
                    let m = choose|m: int|
                        0 <= m < taken.len() && (#[trigger] taken[m]).parent_ids@.contains(id);
                    assert(longer[m].parent_ids@.contains(id));
                }
                if list@.contains(id) {
                    assert(longer[i - 1].parent_ids@.contains(id));
                }
                if is_parent_in(longer, id) {
                    let m = choose|m: int|
                        0 <= m < longer.len() && (#[trigger] longer[m]).parent_ids@.contains(id);
                    if m < i - 1 {
                        assert(taken[m].parent_ids@.contains(id));
                    }
                }
            }
        }
    }
    assert(commits@.take(commits@.len() as int) =~= commits@);
    ids
}

/// Notes the commits with their own parents, to be kept.
fn add_commit_states(map: &mut HashMap<u64, CommitState>, commits: &[Commit], Ghost(done): Ghost<
    Seq<Commit>,
>)
    requires
        commit_ids(done + commits@).no_duplicates(),
        holds_commits(old(map)@, done),
    ensures
        holds_commits(final(map)@, done + commits@),
{
    let mut i: usize = 0;
    assert(done + commits@.take(0) =~= done);
    while i < commits.len()
        invariant
            i <= commits@.len(),
            commit_ids(done + commits@).no_duplicates(),
            holds_commits(map@, done + commits@.take(i as int)),
        decreases commits@.len() - i,
    {
        let commit: &Commit = &commits[i];
        let ghost before = done + commits@.take(i as int);
        let ghost old_map = map@;
        map.insert(
            commit.id,
            CommitState {
                commit: copy_commit(commit),
                action: UiAction::Keep,
                parents: copy_ids(&commit.parent_ids),
            },
        );
        i += 1;
        proof {
            let after = done + commits@.take(i as int);
            assert(after =~= before.push(*commit));
            assert(commit_ids(after) =~= commit_ids(before).push(commit.id));
            assert forall|id: u64| #[trigger] map@.contains_key(id) <==> commit_ids(
                after,
            ).contains(id) by {
                crate::seq_util::lemma_push_contains(commit_ids(before), commit.id, id);
            }
            assert forall|k: int| 0 <= k < after.len() implies is_initial_state(
                map@[(#[trigger] after[k]).id],
                after[k],
            ) by {
                if k < before.len() {
                    let all = done + commits@;
                    assert(after[k] == before[k]);
                    assert(commit_ids(all)[k] == before[k].id);
                    assert(commit_ids(all)[before.len() as int] == commit.id);
                    assert(commit_ids(before)[k] == before[k].id);
                    assert(commit_ids(before).contains(before[k].id));
                    assert(map@[after[k].id] == old_map[before[k].id]);
                }
            }
        }
    }
    assert(commits@.take(commits@.len() as int) =~= commits@);
}

/// The state in which a commit starts: it is kept, with its own parents.
pub open spec fn is_initial_state(commit_state: CommitState, commit: Commit) -> bool {
    &&& same_commit(commit_state.commit, commit)
    &&& commit_state.action == UiAction::Keep
    &&& commit_state.parents@ == commit.parent_ids@
}

/// Whether a map holds the given commits in the state in which they start.
pub open spec fn holds_commits(map: Map<u64, CommitState>, commits: Seq<Commit>) -> bool {
    &&& forall|id: u64| #[trigger] map.contains_key(id) <==> commit_ids(commits).contains(id)
    &&& forall|k: int|
        0 <= k < commits.len() ==> is_initial_state(map[(#[trigger] commits[k]).id], commits[k])
}

impl State {
    /// Creates a new `State` from a list of commits, their external children,
    /// and the parents found by [`find_external_parents`]. The list of commits
    /// must not have gaps between commits.
    pub fn new(
        commits: Vec<Commit>,
        external_children: Vec<Commit>,
        external_parent_commits: Vec<Commit>,
    ) -> (state: State)
        requires
            can_arrange(commits@, external_children@, external_parent_commits@),
        ensures
            state.wf(),
            holds_commits(
                state.commits@,
                commits@ + external_children@ + external_parent_commits@,
            ),
            state.head_order@ == heads_of(commits@, commits@.len() as int),
            state.current_selection == 0,
            members(state.external_children) == commit_ids(external_children@),
            members(state.external_parents) == commit_ids(external_parent_commits@),
            forall|id: u64| #[trigger]
                state.current_order@.contains(id) <==> commit_ids(commits@).contains(id),
    {
        let ghost all = commits@ + external_children@ + external_parent_commits@;
        let external_parents: IndexSet<u64> = find_external_parents(&commits);
        let parents: HashSet<u64> = parent_set(&commits);
        let mut head_order: Vec<u64> = Vec::new();
        let mut i: usize = 0;
        while i < commits.len()
            invariant
                i <= commits@.len(),
                forall|id: u64| #[trigger] parents@.contains(id) <==> is_parent_in(commits@, id),
                head_order@ == heads_of(commits@, i as int),
            decreases commits@.len() - i,
        {
            let id: u64 = commits[i].id;
            if !parents.contains(&id) {
                head_order.push(id);
            }
            i += 1;
        }
        let mut children: IndexSet<u64> = set_new();
        let mut c: usize = 0;
        proof {
            let ids = commit_ids(external_children@);
            assert forall|p: int, q: int|
                0 <= p < ids.len() && 0 <= q < ids.len() && p != q implies ids[p] != ids[q] by {
                assert(commit_ids(all)[commits@.len() + p] == ids[p]);
                assert(commit_ids(all)[commits@.len() + q] == ids[q]);
            }
            assert(members(children) =~= ids.take(0));
        }
        while c < external_children.len()
            invariant
                c <= external_children@.len(),
                commit_ids(external_children@).no_duplicates(),
                members(children) == commit_ids(external_children@).take(c as int),
            decreases external_children@.len() - c,
        {
            let id: u64 = external_children[c].id;
            let ghost ids = commit_ids(external_children@);
            proof {
                assert(ids[c as int] == id);
                if ids.take(c as int).contains(id) {
                    let k = choose|k: int|
                        0 <= k < ids.take(c as int).len() && ids.take(c as int)[k] == id;
                    assert(ids[k] == id);
                }
            }
            set_insert(&mut children, id);
            c += 1;
            assert(members(children) =~= ids.take(c as int));
        }
        assert(commit_ids(external_children@).take(external_children@.len() as int) =~= commit_ids(
            external_children@,
        ));
        let mut map: HashMap<u64, CommitState> = HashMap::new();
        proof {
            let none = Seq::<Commit>::empty();
            assert(none + commits@ =~= commits@);
            assert(commits@ + (external_children@ + external_parent_commits@) =~= all);
            lemma_prefix_ids(commits@, external_children@ + external_parent_commits@);
            lemma_prefix_ids(commits@ + external_children@, external_parent_commits@);
        }
        add_commit_states(&mut map, &commits, Ghost(Seq::empty()));
        add_commit_states(&mut map, &external_children, Ghost(commits@));
        add_commit_states(
            &mut map,
            &external_parent_commits,
            Ghost(commits@ + external_children@),
        );
        let mut state: State = State {
            commits: map,
            head_order,
            current_order: Vec::new(),
            current_selection: 0,
            external_children: children,
            external_parents,
        };
        proof {
            state.lemma_initial(commits@, external_children@, external_parent_commits@);
        }
        let ghost before = state;
        state.update_commit_order();
        proof {
            lemma_same_order(before, state);
            state.lemma_initial_order(commits@, external_children@, external_parent_commits@);
        }
        state
    }

    proof fn lemma_initial(
        &self,
        commits: Seq<Commit>,
        external_children: Seq<Commit>,
        external_parents: Seq<Commit>,
    )
        requires
            can_arrange(commits, external_children, external_parents),
            holds_commits(self.commits@, commits + external_children + external_parents),
            self.head_order@ == heads_of(commits, commits.len() as int),
            members(self.external_parents) == commit_ids(external_parents),
        ensures
            self.heads_known(),
            self.is_acyclic(),
            self.parent_graph() == commit_graph(commits + external_children + external_parents),
            forall|id: u64| #[trigger]
                members(self.external_parents).contains(id) <==> !commit_ids(commits).contains(id)
                    && is_parent_in(commits, id),
    {
        let all = commits + external_children + external_parents;
        let ids = commit_ids(all);
        let graph = self.parent_graph();
        assert forall|id: u64| #[trigger] graph.contains_key(id) implies graph[id]
            == commit_graph(all)[id] by {
            let k = ids.index_of(id);
            assert(ids.contains(id));
            assert(ids[k] == id);
            assert(is_initial_state(self.commits@[all[k].id], all[k]));
        }
        assert(graph =~= commit_graph(all));
        lemma_dedup(outside_parents(commits, commits.len() as int));
        assert forall|id: u64| #[trigger] members(self.external_parents).contains(id)
            <==> !commit_ids(commits).contains(id) && is_parent_in(commits, id) by {
            lemma_outside_parents(commits, commits.len() as int, id);
            assert(dedup(outside_parents(commits, commits.len() as int)).contains(id)
                <==> outside_parents(commits, commits.len() as int).contains(id));
        }
        assert forall|i: int| 0 <= i < self.head_order@.len() implies self.commits@.contains_key(
            #[trigger] self.head_order@[i],
        ) && !members(self.external_parents).contains(self.head_order@[i]) by {
            let id = self.head_order@[i];
            lemma_heads_of(commits, commits.len() as int, id);
            assert(heads_of(commits, commits.len() as int).contains(id));
            let k = choose|k: int| 0 <= k < commits.len() && (#[trigger] commits[k]).id == id;
            assert(commit_ids(commits)[k] == id);
            assert(ids[k] == id);
        }
    }

    proof fn lemma_initial_order(
        &self,
        commits: Seq<Commit>,
        external_children: Seq<Commit>,
        external_parents: Seq<Commit>,
    )
        requires
            can_arrange(commits, external_children, external_parents),
            holds_commits(self.commits@, commits + external_children + external_parents),
            self.head_order@ == heads_of(commits, commits.len() as int),
            members(self.external_children) == commit_ids(external_children),
            members(self.external_parents) == commit_ids(external_parents),
            self.current_order@ == self.commit_order(),
            self.current_selection == 0,
        ensures
            self.wf(),
            forall|id: u64| #[trigger]
                self.current_order@.contains(id) <==> commit_ids(commits).contains(id),
    {
        let all = commits + external_children + external_parents;
        let ids = commit_ids(all);
        let set_ids = commit_ids(commits);
        let order = self.current_order@;
        self.lemma_initial(commits, external_children, external_parents);
        self.lemma_commit_order();
        self.lemma_order_graph();
        assert forall|id: u64| #[trigger] order.contains(id) <==> set_ids.contains(id) by {
            if order.contains(id) {
                assert(self.commit_order().contains(id));
                let s = choose|s: u64| #[trigger] self.head_order@.contains(s) && reachable(
                    edges_of(self.order_graph()),
                    s,
                    id,
                );
                let path = choose|path: Seq<u64>|
                    is_path(edges_of(self.order_graph()), s, path, id);
                self.lemma_path_in_set(commits, external_children, external_parents, s, path, id);
            }
            if set_ids.contains(id) {
                crate::dominance::lemma_path_single(edges_of(self.order_graph()), id);
                self.lemma_below_head(
                    commits,
                    external_children,
                    external_parents,
                    id,
                    seq![id],
                );
                assert(self.commit_order().contains(id));
            }
        }
        assert forall|id: u64| #[trigger] self.commits@.contains_key(id) implies order.contains(id)
            || members(self.external_children).contains(id) || members(
            self.external_parents,
        ).contains(id) by {
            let k = ids.index_of(id);
            assert(ids.contains(id) && ids[k] == id);
            if k < commits.len() {
                assert(set_ids[k] == id);
                assert(set_ids.contains(id));
            } else if k < commits.len() + external_children.len() {
                assert(commit_ids(external_children)[k - commits.len()] == id);
            } else {
                assert(commit_ids(external_parents)[k - commits.len() - external_children.len()]
                    == id);
            }
        }
        assert forall|id: u64| #[trigger] members(self.external_children).contains(id) implies self.commits@.contains_key(
            id,
        ) && !order.contains(id) by {
            let k = choose|k: int|
                0 <= k < external_children.len() && commit_ids(external_children)[k] == id;
            assert(ids[commits.len() + k] == id);
            if set_ids.contains(id) {
                let m = choose|m: int| 0 <= m < set_ids.len() && set_ids[m] == id;
                assert(ids[m] == id);
            }
        }
        assert forall|id: u64| #[trigger] members(self.external_parents).contains(id) implies self.commits@.contains_key(
            id,
        ) by {
            let k = choose|k: int|
                0 <= k < external_parents.len() && commit_ids(external_parents)[k] == id;
            assert(ids[commits.len() + external_children.len() + k] == id);
        }
        assert forall|id: u64, parent: u64|
            order.contains(id) && #[trigger] self.commits@[id].parents@.contains(parent) implies self.commits@.contains_key(
            parent,
        ) by {
            let k = choose|k: int| 0 <= k < set_ids.len() && set_ids[k] == id;
            assert(all[k] == commits[k]);
            assert(is_initial_state(self.commits@[all[k].id], all[k]));
            assert(commits[k].parent_ids@.contains(parent));
            if set_ids.contains(parent) {
                let m = choose|m: int| 0 <= m < set_ids.len() && set_ids[m] == parent;
                assert(ids[m] == parent);
            } else {
                assert(is_parent_in(commits, parent));
                assert(members(self.external_parents).contains(parent));
            }
        }
        assert forall|id: u64, parent: u64|
            members(self.external_parents).contains(id)
                && #[trigger] self.commits@[id].parents@.contains(parent) implies !order.contains(
            parent,
        ) by {
            let k = choose|k: int|
                0 <= k < external_parents.len() && commit_ids(external_parents)[k] == id;
            let m = commits.len() + external_children.len() + k;
            assert(all[m] == external_parents[k]);
            assert(is_initial_state(self.commits@[all[m].id], all[m]));
            assert(external_parents[k].parent_ids@.contains(parent));
        }
    }

    proof fn lemma_path_in_set(
        &self,
        commits: Seq<Commit>,
        external_children: Seq<Commit>,
        external_parents: Seq<Commit>,
        s: u64,
        path: Seq<u64>,
        id: u64,
    )
        requires
            can_arrange(commits, external_children, external_parents),
            holds_commits(self.commits@, commits + external_children + external_parents),
            self.head_order@ == heads_of(commits, commits.len() as int),
            members(self.external_parents) == commit_ids(external_parents),
            self.head_order@.contains(s),
            is_path(edges_of(self.order_graph()), s, path, id),
        ensures
            commit_ids(commits).contains(id),
        decreases path.len(),
    {
        let all = commits + external_children + external_parents;
        let set_ids = commit_ids(commits);
        self.lemma_initial(commits, external_children, external_parents);
        self.lemma_order_graph();
        if path.len() == 1 {
            lemma_heads_of(commits, commits.len() as int, s);
            let k = choose|k: int| 0 <= k < commits.len() && (#[trigger] commits[k]).id == s;
            assert(set_ids[k] == id);
        } else {
            let edges = edges_of(self.order_graph());
            let front = path.drop_last();
            assert(edge_at(edges, path, path.len() - 2));
            assert forall|m: int| 0 <= m < front.len() - 1 implies #[trigger] edge_at(
                edges,
                front,
                m,
            ) by {
                assert(edge_at(edges, path, m));
            }
            let from = front.last();
            self.lemma_path_in_set(commits, external_children, external_parents, s, front, from);
            let k = choose|k: int| 0 <= k < set_ids.len() && set_ids[k] == from;
            assert(all[k] == commits[k]);
            assert(is_initial_state(self.commits@[all[k].id], all[k]));
            assert(edges.contains((from, id)));
            assert(commits[k].parent_ids@.contains(id));
            assert(is_parent_in(commits, id));
        }
    }

    /// Every commit of the target set lies below a head.
    proof fn lemma_below_head(
        &self,
        commits: Seq<Commit>,
        external_children: Seq<Commit>,
        external_parents: Seq<Commit>,
        id: u64,
        path: Seq<u64>,
    )
        requires
            can_arrange(commits, external_children, external_parents),
            holds_commits(self.commits@, commits + external_children + external_parents),
            self.head_order@ == heads_of(commits, commits.len() as int),
            members(self.external_parents) == commit_ids(external_parents),
            path.len() > 0,
            is_path(edges_of(self.order_graph()), path[0], path, id),
            path.no_duplicates(),
            forall|i: int| 0 <= i < path.len() ==> commit_ids(commits).contains(#[trigger] path[i]),
        ensures
            reachable_from(self.order_graph(), self.head_order@, id),
        decreases commits.len() + 1 - path.len(),
    {
        let all = commits + external_children + external_parents;
        let ids = commit_ids(all);
        let set_ids = commit_ids(commits);
        let graph = self.order_graph();
        let edges = edges_of(graph);
        let top = path[0];
        self.lemma_initial(commits, external_children, external_parents);
        assert(path.len() <= commits.len()) by {
            path.unique_seq_to_set();
            vstd::seq_lib::seq_to_set_is_finite(set_ids);
            assert(path.to_set().subset_of(set_ids.to_set())) by {
                assert forall|x: u64| path.to_set().contains(x) implies set_ids.to_set().contains(
                    x,
                ) by {
                    let i = choose|i: int| 0 <= i < path.len() && path[i] == x;
                    assert(set_ids.contains(path[i]));
                }
            }
            vstd::set_lib::lemma_len_subset(path.to_set(), set_ids.to_set());
            set_ids.lemma_cardinality_of_set();
        }
        assert(set_ids.contains(path[0]));
        let t = choose|t: int| 0 <= t < set_ids.len() && set_ids[t] == top;
        lemma_heads_of(commits, commits.len() as int, top);
        if !is_parent_in(commits, top) {
            assert(commits[t].id == top);
            assert(self.head_order@.contains(top));
            assert(reachable(edges, top, id));
        } else {
            let j = choose|j: int|
                0 <= j < commits.len() && (#[trigger] commits[j]).parent_ids@.contains(top);
            let above = commits[j].id;
            let longer = seq![above] + path;
            assert(set_ids[j] == above);
            assert(ids[j] == above);
            assert(ids[t] == top);
            assert(all[j] == commits[j]);
            assert(is_initial_state(self.commits@[all[j].id], all[j]));
            self.lemma_visible_parents(self.commits@[above].parents@);
            assert(self.commits@.contains_key(top));
            assert(graph[above].contains(top));
            assert forall|m: int| 0 <= m < longer.len() - 1 implies #[trigger] edge_at(
                edges,
                longer,
                m,
            ) by {
                if m > 0 {
                    assert(edge_at(edges, path, m - 1));
                }
            }
            assert(longer.last() == path.last());
            // The path cannot come back to a commit on it.
            if path.contains(above) {
                let m = choose|m: int| 0 <= m < path.len() && path[m] == above;
                let cycle = longer.take(m + 2);
                self.lemma_order_graph();
                assert forall|n: int| 0 <= n < cycle.len() - 1 implies #[trigger] edge_at(
                    edges_of(self.parent_graph()),
                    cycle,
                    n,
                ) by {
                    assert(edge_at(edges, longer, n));
                }
                assert(cycle.last() == above);
                assert(is_cycle(self.parent_graph(), above, cycle));
                assert(lies_on_cycle(self.parent_graph(), above));
            }
            assert(longer.no_duplicates()) by {
                assert forall|p: int, q: int|
                    0 <= p < longer.len() && 0 <= q < longer.len() && p != q implies longer[p]
                    != longer[q] by {
                    if p > 0 {
                        assert(longer[p] == path[p - 1]);
                        assert(path.contains(path[p - 1]));
                    }
                    if q > 0 {
                        assert(longer[q] == path[q - 1]);
                        assert(path.contains(path[q - 1]));
                    }
                }
            }
            assert forall|i: int| 0 <= i < longer.len() implies set_ids.contains(
                #[trigger] longer[i],
            ) by {
                if i > 0 {
                    assert(set_ids.contains(path[i - 1]));
                }
            }
            self.lemma_below_head(commits, external_children, external_parents, id, longer);
        }
    }
}

proof fn lemma_prefix_ids(a: Seq<Commit>, b: Seq<Commit>)
    requires
        commit_ids(a + b).no_duplicates(),
    ensures
        commit_ids(a).no_duplicates(),
{
    assert forall|i: int, j: int|
        0 <= i < commit_ids(a).len() && 0 <= j < commit_ids(a).len() && i != j implies commit_ids(
        a,
    )[i] != commit_ids(a)[j] by {
        assert(commit_ids(a + b)[i] == commit_ids(a)[i]);
        assert(commit_ids(a + b)[j] == commit_ids(a)[j]);
    }
}

/// The revisions to arrange, if any were asked for: those given by position,
/// then those given by option.
pub fn target_revisions(revisions_pos: &[String], revisions_opt: &[String]) -> (revisions: Option<
    Vec<String>,
>)
    ensures
        revisions is None <==> revisions_pos@.len() == 0 && revisions_opt@.len() == 0,
        revisions matches Some(list) ==> texts(list@) == texts(revisions_pos@) + texts(
            revisions_opt@,
        ),
{
    if revisions_pos.len() == 0 && revisions_opt.len() == 0 {
        return None;
    }
    let mut list: Vec<String> = copy_texts(revisions_pos);
    extend_texts(&mut list, revisions_opt);
    Some(list)
}

/// How arranging begins.
#[derive(Debug)]
pub enum ArrangeStart {
    /// The revisions have a gap, with a hint what fills it.
    Gap {
        /// What is wrong.
        message: String,
        /// What would mend it.
        hint: String,
    },
    /// There is nothing to arrange.
    Nothing,
    /// The UI can start.
    Run,
}

/// Decides how arranging begins, given the first commit in a gap of the
/// revisions, if there is one, and the number of the revisions.
pub fn arrange_start(gap: Option<&str>, num_commits: usize) -> (start: ArrangeStart)
    ensures
        match start {
            ArrangeStart::Gap { message, hint } => gap is Some && message@
                == "Cannot arrange revset with gaps in."@ && hint@ == "Revision "@ + gap->Some_0@
                + " would need to be in the set."@,
            ArrangeStart::Nothing => gap is None && num_commits == 0,
            ArrangeStart::Run => gap is None && num_commits > 0,
        },
{
    match gap {
        Some(commit) => ArrangeStart::Gap {
            message: "Cannot arrange revset with gaps in.".to_owned(),
            hint: concat3("Revision ", commit, " would need to be in the set."),
        },
        None => if num_commits == 0 {
            ArrangeStart::Nothing
        } else {
            ArrangeStart::Run
        },
    }
}

/// The plan of a state in which nothing was changed changes nothing: every
/// commit, but for the external parents, is planned with its own parents in
/// order, and stays as it is.
pub proof fn lemma_fresh_plan(
    commits: Seq<Commit>,
    external_children: Seq<Commit>,
    external_parents: Seq<Commit>,
    state: State,
    plan: RewritePlan,
    k: int,
)
    requires
        can_arrange(commits, external_children, external_parents),
        holds_commits(state.commits@, commits + external_children + external_parents),
        members(state.external_parents) == commit_ids(external_parents),
        forall|id: u64| #[trigger]
            plan.rewrites@.contains_key(id) <==> state.commits@.contains_key(id) && !members(
                state.external_parents,
            ).contains(id),
        forall|id: u64| #[trigger]
            plan.rewrites@.contains_key(id) ==> is_rewrite_of(
                plan.rewrites@[id],
                state.commits@[id],
            ),
        0 <= k < (commits + external_children).len(),
    ensures
        ({
            let commit = (commits + external_children)[k];
            let rewrite = plan.rewrites@[commit.id];
            &&& plan.rewrites@.contains_key(commit.id)
            &&& rewrite.old_commit.id == commit.id
            &&& rewrite.old_commit.parent_ids@ == commit.parent_ids@
            &&& rewrite.new_parents@ == commit.parent_ids@
            &&& rewrite_step(rewrite, rewrite.new_parents@) == RewriteStep::Unchanged
        }),
{
    let inner = commits + external_children;
    let all = inner + external_parents;
    let commit = inner[k];
    let ids = commit_ids(all);
    assert(all == commits + external_children + external_parents);
    assert(all[k] == commit);
    assert(ids[k] == commit.id);
    assert(ids.contains(commit.id));
    assert(is_initial_state(state.commits@[all[k].id], all[k]));
    assert(!commit_ids(external_parents).contains(commit.id)) by {
        if commit_ids(external_parents).contains(commit.id) {
            let j = choose|j: int|
                0 <= j < external_parents.len() && commit_ids(external_parents)[j] == commit.id;
            assert(all[inner.len() + j] == external_parents[j]);
            assert(ids[inner.len() + j] == commit.id);
        }
    }
    assert(plan.rewrites@.contains_key(commit.id));
}

/// A plan does what the state says: a commit that is to be abandoned is
/// abandoned, and one that is kept is rebased if, and only if, its parents are
/// others than it had.
pub proof fn lemma_plan_follows_state(state: State, plan: RewritePlan, id: u64)
    requires
        plan.rewrites@.contains_key(id),
        is_rewrite_of(plan.rewrites@[id], state.commits@[id]),
    ensures
        ({
            let rewrite = plan.rewrites@[id];
            let step = rewrite_step(rewrite, rewrite.new_parents@);
            &&& state.commits@[id].action == UiAction::Abandon <==> step == RewriteStep::Abandon
            &&& state.commits@[id].action == UiAction::Keep && state.commits@[id].parents@
                == state.commits@[id].commit.parent_ids@ <==> step == RewriteStep::Unchanged
            &&& state.commits@[id].action == UiAction::Keep && state.commits@[id].parents@
                != state.commits@[id].commit.parent_ids@ <==> step == RewriteStep::Rebase
            &&& rewrite.new_parents@.len() == state.commits@[id].parents@.len()
            &&& forall|i: int|
                0 <= i < rewrite.new_parents@.len() ==> #[trigger] rewrite.new_parents@[i]
                    == state.commits@[id].parents@[i]
        }),
{
}

/// Swapping a commit with its only parent turns the edge between them round:
/// the parent is then on top of the commit, the commit is on top of what the
/// parent was on top of, and what was on top of the commit is on top of the
/// parent.
pub proof fn lemma_swap_with_parent(old_state: State, new_state: State, child: u64, parent: u64)
    requires
        old_state.is_acyclic(),
        is_swapped(old_state, new_state, child, parent),
        old_state.commits@.contains_key(child),
        old_state.commits@.contains_key(parent),
        old_state.commits@[child].parents@ == seq![parent],
    ensures
        new_state.commits@[parent].parents@ == seq![child],
        new_state.commits@[child].parents@ == old_state.commits@[parent].parents@,
        forall|id: u64, i: int|
            #![trigger new_state.commits@[id].parents@[i]]
            old_state.commits@.contains_key(id) && id != child && id != parent && 0 <= i
                < old_state.commits@[id].parents@.len() ==> new_state.commits@[id].parents@.len()
                == old_state.commits@[id].parents@.len() && new_state.commits@[id].parents@[i] == (
            if old_state.commits@[id].parents@[i] == child {
                parent
            } else if old_state.commits@[id].parents@[i] == parent {
                child
            } else {
                old_state.commits@[id].parents@[i]
            }),
{
    let above = old_state.commits@[parent].parents@;
    let graph = old_state.parent_graph();
    let edges = edges_of(graph);
    assert(old_state.commits@[child].parents@[0] == parent);
    assert(edges.contains((child, parent)));
    old_state.lemma_not_own_parent(child);
    old_state.lemma_not_own_parent(parent);
    assert(!above.contains(child)) by {
        if above.contains(child) {
            let path = seq![child, parent, child];
            assert(edge_at(edges, path, 0));
            assert(edge_at(edges, path, 1));
            assert(is_cycle(graph, child, path));
            assert(lies_on_cycle(graph, child));
        }
    }
    assert(new_state.commits@.contains_key(child) && new_state.commits@.contains_key(parent));
    assert(swapped(seq![parent], child, parent) =~= seq![child]);
    assert(swapped(above, child, parent) =~= above) by {
        assert forall|i: int| 0 <= i < above.len() implies swapped(above, child, parent)[i]
            == above[i] by {
            assert(above.contains(above[i]));
        }
    }
    assert forall|id: u64, i: int|
        #![trigger new_state.commits@[id].parents@[i]]
        old_state.commits@.contains_key(id) && id != child && id != parent && 0 <= i
            < old_state.commits@[id].parents@.len() implies new_state.commits@[id].parents@.len()
        == old_state.commits@[id].parents@.len() && new_state.commits@[id].parents@[i] == (
    if old_state.commits@[id].parents@[i] == child {
        parent
    } else if old_state.commits@[id].parents@[i] == parent {
        child
    } else {
        old_state.commits@[id].parents@[i]
    }) by {
        assert(new_state.commits@.contains_key(id));
    }
}

/// A swap down is undone by a swap up, if the selected commit was the only child
/// of its parent.
pub proof fn lemma_swap_down_then_up(first: State, second: State, third: State)
    requires
        first.wf(),
        first.current_order@.len() > 0,
        State::is_swapped_down(first, second),
        State::is_swapped_up(second, third),
        first.commits@[first.selected()].parents@.len() == 1,
        !members(first.external_parents).contains(
            first.commits@[first.selected()].parents@[0],
        ),
        first.is_only_child(
            first.commits@[first.selected()].parents@[0],
            first.selected(),
        ),
    ensures
        same_graph(first, third),
        third.current_order@ == first.current_order@,
        third.selected() == first.selected(),
{
    let id = first.selected();
    let parent = first.commits@[id].parents@[0];
    first.lemma_commit_order();
    assert(first.current_order@.contains(id)) by {
        assert(first.current_order@[first.current_selection as int] == id);
    }
    assert(first.commits@[id].parents@.contains(parent));
    assert(first.commits@.contains_key(parent));
    first.lemma_parent_in_order(id, parent);
    assert(second.selected() == id);
    assert forall|child: u64| #[trigger] second.is_child(id, child) <==> child == parent by {
        if second.commits@.contains_key(child) {
            let other = swap_id(id, parent, child);
            assert(first.commits@.contains_key(other));
            lemma_swapped_contains(first.commits@[other].parents@, id, parent, id);
            assert(first.is_child(parent, other) <==> other == id);
        }
    }
    assert(second.is_only_child(id, parent));
    assert(!members(second.external_children).contains(parent));
    let child = choose|child: u64|
        second.is_only_child(id, child) && is_swapped(second, third, id, child)
            && third.selected() == id;
    assert(child == parent) by {
        assert(second.is_child(id, child));
    }
    lemma_swap_twice(first, second, third, id, parent);
}

/// What the keys do, whatever the state: the arrows and the letters beside them
/// move the selection by one, and stop at the ends.
pub proof fn lemma_keys_move_selection(event: KeyEvent, state: State, new_state: State)
    requires
        event.modifiers == KeyModifiers::Plain,
        state.current_selection < state.current_order@.len(),
        is_command_result(key_command(event), state, new_state),
    ensures
        event.code == KeyCode::Down || event.code == KeyCode::Char('j') ==> {
            &&& new_state.commits == state.commits
            &&& new_state.current_order == state.current_order
            &&& state.current_selection == state.current_order@.len() - 1
                ==> new_state.current_selection == state.current_selection
            &&& state.current_selection < state.current_order@.len() - 1
                ==> new_state.current_selection == state.current_selection + 1
        },
        event.code == KeyCode::Up || event.code == KeyCode::Char('k') ==> {
            &&& new_state.commits == state.commits
            &&& new_state.current_order == state.current_order
            &&& state.current_selection == 0 ==> new_state.current_selection == 0
            &&& state.current_selection > 0 ==> new_state.current_selection
                == state.current_selection - 1
        },
{
}

/// One letter marks the selected commit as abandoned and another as kept. What
/// is to become of other commits, and the graph, stay as they are.
pub proof fn lemma_keys_mark(event: KeyEvent, state: State, new_state: State, id: u64)
    requires
        event.modifiers == KeyModifiers::Plain,
        event.code == KeyCode::Char('a') || event.code == KeyCode::Char('p'),
        state.current_selection < state.current_order@.len(),
        state.commits@.contains_key(state.selected()),
        state.commits@.contains_key(id),
        is_command_result(key_command(event), state, new_state),
    ensures
        new_state.commits@.contains_key(id),
        new_state.commits@[id].parents@ == state.commits@[id].parents@,
        new_state.commits@[id].commit == state.commits@[id].commit,
        id == state.current_order@[state.current_selection as int] ==> new_state.commits@[id].action
            == (if event.code == KeyCode::Char('a') {
            UiAction::Abandon
        } else {
            UiAction::Keep
        }),
        id != state.current_order@[state.current_selection as int] ==> new_state.commits@[id].action
            == state.commits@[id].action,
        new_state.current_order == state.current_order,
        new_state.current_selection == state.current_selection,
{
    assert(new_state.commits@.contains_key(id));
}

/// With shift, the same arrows and letters move the selected commit instead: it
/// keeps being selected, and its actions stay.
pub proof fn lemma_keys_swap(event: KeyEvent, state: State, new_state: State)
    requires
        event.modifiers == KeyModifiers::Shift,
        is_command_result(key_command(event), state, new_state),
    ensures
        event.code == KeyCode::Down || event.code == KeyCode::Char('J') ==> {
            let id = state.selected();
            let parents = state.commits@[id].parents@;
            if parents.len() == 1 && !members(state.external_parents).contains(parents[0]) {
                is_swapped(state, new_state, id, parents[0]) && new_state.selected() == id
            } else {
                new_state == state
            }
        },
        event.code == KeyCode::Up || event.code == KeyCode::Char('K') ==> State::is_swapped_up(
            state,
            new_state,
        ),
        !(event.code == KeyCode::Down || event.code == KeyCode::Char('J') || event.code
            == KeyCode::Up || event.code == KeyCode::Char('K')) ==> new_state == state,
{
}

/// The UI is left without changes by one letter, or by another with control,
/// and the changes are applied by a third. No other key leaves it.
pub proof fn lemma_keys_leave(event: KeyEvent)
    ensures
        key_command(event) == KeyCommand::Quit <==> (event.modifiers == KeyModifiers::Plain
            && event.code == KeyCode::Char('q')) || (event.modifiers == KeyModifiers::Control
            && event.code == KeyCode::Char('c')),
        key_command(event) == KeyCommand::Confirm <==> event.modifiers == KeyModifiers::Plain
            && event.code == KeyCode::Char('c'),
        event.modifiers == KeyModifiers::Other ==> key_command(event) == KeyCommand::Nothing,
{
}

/// Every known commit is drawn, and no other. An edge leads to the parent at its
/// place if the parent is drawn.
pub proof fn lemma_rows_complete(state: State, id: u64, row: Row, i: int)
    requires
        state.wf(),
        state.commits@.contains_key(id),
        state.is_row_of(id, row),
        0 <= i < row.edges@.len(),
    ensures
        forall|other: u64| #[trigger]
            state.drawn_commits().contains(other) <==> state.commits@.contains_key(other),
        row.edges@.len() == state.commits@[id].parents@.len(),
        row.edges@[i] == Ancestor::Parent(state.commits@[id].parents@[i])
            <==> state.drawn_commits().contains(state.commits@[id].parents@[i]),
        row.edges@[i] == Ancestor::Anonymous <==> !state.drawn_commits().contains(
            state.commits@[id].parents@[i],
        ),
        state.current_order@.contains(id) ==> row.edges@[i] == Ancestor::Parent(
            state.commits@[id].parents@[i],
        ),
{
    let above = members(state.external_children);
    let below = members(state.external_parents);
    let order = state.current_order@;
    let drawn = state.drawn_commits();
    let parent = state.commits@[id].parents@[i];
    state.lemma_commit_order();
    assert forall|other: u64| #[trigger]
        drawn.contains(other) <==> state.commits@.contains_key(other) by {
        if drawn.contains(other) {
            let k = choose|k: int| 0 <= k < drawn.len() && drawn[k] == other;
            if k < above.len() {
                assert(above[k] == other);
                assert(above.contains(other));
            } else if k < above.len() + order.len() {
                assert(order[k - above.len()] == other);
                assert(order.contains(other));
            } else {
                assert(below[k - above.len() - order.len()] == other);
                assert(below.contains(other));
            }
        }
        if state.commits@.contains_key(other) {
            if above.contains(other) {
                let k = choose|k: int| 0 <= k < above.len() && above[k] == other;
                assert(drawn[k] == other);
            } else if order.contains(other) {
                let k = choose|k: int| 0 <= k < order.len() && order[k] == other;
                assert(drawn[above.len() + k] == other);
            } else {
                let k = choose|k: int| 0 <= k < below.len() && below[k] == other;
                assert(drawn[above.len() + order.len() + k] == other);
            }
        }
    }
    assert(drawn.contains(parent) <==> state.commits@.contains_key(parent));
    if order.contains(id) {
        assert(state.commits@[id].parents@.contains(parent));
    }
}

/// The heads come in the order of the commits.
pub proof fn lemma_heads_in_order(commits: Seq<Commit>, n: int)
    requires
        0 <= n <= commits.len(),
    ensures
        heads_of(commits, n) == commit_ids(commits).take(n).filter(
            |id: u64| !is_parent_in(commits, id),
        ),
    decreases n,
{
    reveal(Seq::filter);
    let ids = commit_ids(commits);
    if n > 0 {
        lemma_heads_in_order(commits, n - 1);
        assert(ids.take(n).drop_last() =~= ids.take(n - 1));
        assert(ids.take(n).last() == commits[n - 1].id);
    }
}

/// The parents outside of commits come in the order of the commits, and those of
/// a commit in the order of its parents.
pub proof fn lemma_outside_in_order(commits: Seq<Commit>, n: int)
    requires
        0 <= n <= commits.len(),
    ensures
        outside_parents(commits, n) == commits.take(n).map_values(
            |commit: Commit| commit.parent_ids@,
        ).flatten().filter(|id: u64| !commit_ids(commits).contains(id)),
    decreases n,
{
    let outside = |id: u64| !commit_ids(commits).contains(id);
    let lists = commits.take(n).map_values(|commit: Commit| commit.parent_ids@);
    lists.lemma_flatten_and_flatten_alt_are_equivalent();
    if n > 0 {
        let front = commits.take(n - 1).map_values(|commit: Commit| commit.parent_ids@);
        lemma_outside_in_order(commits, n - 1);
        front.lemma_flatten_and_flatten_alt_are_equivalent();
        assert(lists.drop_last() =~= front);
        assert(lists.last() == commits[n - 1].parent_ids@);
        let last = commits[n - 1].parent_ids@;
        Seq::filter_distributes_over_add(front.flatten(), last, outside);
        lemma_outside_filter(commit_ids(commits), last);
    } else {
        reveal(Seq::filter);
        assert(lists.len() == 0);
    }
}

proof fn lemma_outside_filter(ids: Seq<u64>, parents: Seq<u64>)
    ensures
        parents_outside(ids, parents) == parents.filter(|id: u64| !ids.contains(id)),
    decreases parents.len(),
{
    reveal(Seq::filter);
    if parents.len() > 0 {
        lemma_outside_filter(ids, parents.drop_last());
    }
}

impl State {
    /// The parents that are shown below a commit are the known ones that are not
    /// external, in the order of the parents.
    pub proof fn lemma_visible_in_order(&self, parents: Seq<u64>)
        ensures
            self.visible_parents(parents) == parents.filter(
                |parent: u64|
                    self.commits@.contains_key(parent) && !members(
                        self.external_parents,
                    ).contains(parent),
            ),
        decreases parents.len(),
    {
        reveal(Seq::filter);
        if parents.len() > 0 {
            self.lemma_visible_in_order(parents.drop_last());
        }
    }

    /// The first head is shown first, unless a later head leads to it: the order
    /// from the later heads follows at the end as it is.
    pub proof fn lemma_first_head_first(&self, first: u64, rest: Seq<u64>)
        requires
            self.wf(),
            self.head_order@ == seq![first] + rest,
            forall|s: u64| #[trigger]
                rest.contains(s) ==> !reachable(edges_of(self.order_graph()), s, first),
        ensures
            self.current_order@.len() > 0,
            self.current_order@[0] == first,
            topo_order(self.order_graph(), rest).reverse().is_suffix_of(self.current_order@),
    {
        let graph = self.order_graph();
        self.lemma_order_graph();
        assert(self.head_order@[0] == first);
        assert forall|i: int| 0 <= i < rest.len() implies graph.contains_key(
            #[trigger] rest[i],
        ) by {
            assert(self.head_order@[i + 1] == rest[i]);
        }
        assert(graph.contains_key(first));
        crate::dag_walk::lemma_topo_order_starts(graph, first, rest);
        lemma_topo_order(graph, rest);
        let before = topo_order(graph, rest);
        let all = topo_order(graph, self.head_order@);
        assert(!before.contains(first));
        assert(self.current_order@ == all.reverse());
        assert(all.reverse()[0] == all.last());
        let shown = before.reverse();
        let order = self.current_order@;
        assert(shown =~= order.subrange(order.len() - shown.len(), order.len() as int)) by {
            assert forall|i: int| 0 <= i < shown.len() implies shown[i] == order[order.len()
                - shown.len() + i] by {
                assert(before[before.len() - 1 - i] == all[before.len() - 1 - i]);
            }
        }
    }
}

/// How a commit is to become is shown by its mark and by its text, unless it is
/// external, and the selected commit is shown as such.
pub proof fn lemma_row_marks(state: State, id: u64, row: Row)
    requires
        state.is_row_of(id, row),
    ensures
        row.id == id,
        state.commits@[id].action == UiAction::Abandon ==> row.glyph@ == "×"@,
        state.commits@[id].action == UiAction::Keep ==> row.glyph@ == "○"@,
        row.action_text is None <==> members(state.external_children).contains(id) || members(
            state.external_parents,
        ).contains(id),
        row.action_text matches Some(text) ==> (text@ == "abandon"@ <==> state.commits@[id].action
            == UiAction::Abandon) && (text@ == "keep"@ <==> state.commits@[id].action
            == UiAction::Keep),
        row.selected <==> id == state.current_order@[state.current_selection as int],
{
    reveal_strlit("abandon");
    reveal_strlit("keep");
    assert("abandon"@.len() == 7 && "keep"@.len() == 4);
}

/// Swapping commits moves them in the graph only: each commit stays what it is,
/// and what is to become of it goes with it.
pub proof fn lemma_swap_keeps_commits(old_state: State, new_state: State, a: u64, b: u64, id: u64)
    requires
        is_swapped(old_state, new_state, a, b),
    ensures
        new_state.commits@.contains_key(id) <==> old_state.commits@.contains_key(id),
        old_state.commits@.contains_key(id) ==> new_state.commits@[id].action
            == old_state.commits@[id].action && new_state.commits@[id].commit.id
            == old_state.commits@[id].commit.id && new_state.commits@[id].commit.parent_ids@
            == old_state.commits@[id].commit.parent_ids@,
        members(new_state.external_children) == members(old_state.external_children),
        members(new_state.external_parents) == members(old_state.external_parents),
{
    assert(new_state.commits@.contains_key(id) <==> new_state.commits@.dom().contains(id));
}

} // verus!
