//! Trees that differ from a base tree at some paths.
//!
//! A path is the sequence of its components. Components are numbered in the
//! order of their names, and contents by handles. The trees are kept in a
//! store, which is out of reach here: a builder says which trees it needs, and
//! which trees are to be written in which order.

use std::collections::BTreeMap;

use vstd::prelude::*;

verus! {

broadcast use vstd::std_specs::btree::group_btree_axioms;

/// What a tree holds under a name.
#[derive(Debug, PartialEq, Eq, Structural, Clone, Copy)]
pub enum EntryValue {
    /// A tree.
    Tree(u64),
    /// A file, a symlink or anything else that holds no entries.
    Other(u64),
}

/// What replaces the value at a path.
#[derive(Debug, PartialEq, Eq, Structural, Clone, Copy)]
pub enum Override {
    /// Nothing.
    Tombstone,
    /// Another value.
    Replace(EntryValue),
}

/// Whether a path comes before another: component by component, and a path
/// before those below it.
pub open spec fn path_less(a: Seq<u64>, b: Seq<u64>) -> bool
    decreases b.len(),
{
    if b.len() == 0 {
        false
    } else if a.len() == 0 {
        true
    } else {
        a[0] < b[0] || (a[0] == b[0] && path_less(a.skip(1), b.skip(1)))
    }
}

/// No path comes before itself, and of two paths one comes first.
pub proof fn lemma_path_order(a: Seq<u64>, b: Seq<u64>)
    ensures
        !path_less(a, a),
        !(path_less(a, b) && path_less(b, a)),
        path_less(a, b) || path_less(b, a) || a == b,
    decreases a.len(),
{
    if a.len() > 0 {
        if b.len() > 0 {
            lemma_path_order(a.skip(1), b.skip(1));
            if a[0] == b[0] && a.skip(1) == b.skip(1) {
                assert(a =~= seq![a[0]] + a.skip(1));
                assert(b =~= seq![b[0]] + b.skip(1));
            }
        } else {
            lemma_path_order(a.skip(1), b);
        }
    } else if b.len() == 0 {
        assert(a =~= b);
    }
}

/// The order of paths is transitive.
pub proof fn lemma_path_order_transitive(a: Seq<u64>, b: Seq<u64>, c: Seq<u64>)
    requires
        path_less(a, b),
        path_less(b, c),
    ensures
        path_less(a, c),
    decreases b.len(),
{
    if a.len() > 0 && c.len() > 0 && a[0] == b[0] && b[0] == c[0] {
        lemma_path_order_transitive(a.skip(1), b.skip(1), c.skip(1));
    }
}

/// Whether a path is below a directory.
pub open spec fn is_below(path: Seq<u64>, dir: Seq<u64>) -> bool {
    dir.len() < path.len() && path.take(dir.len() as int) == dir
}

/// A directory comes before the paths below it.
pub proof fn lemma_below_is_later(path: Seq<u64>, dir: Seq<u64>)
    requires
        is_below(path, dir),
    ensures
        path_less(dir, path),
    decreases dir.len(),
{
    if dir.len() > 0 {
        let top = path.take(dir.len() as int);
        assert(top[0] == path[0]);
        assert(path.skip(1).take(dir.len() - 1) =~= top.skip(1));
        lemma_below_is_later(path.skip(1), dir.skip(1));
    }
}

/// Tells whether a path comes before another.
fn comes_before(a: &Vec<u64>, b: &Vec<u64>) -> (less: bool)
    ensures
        less == path_less(a@, b@),
{
    let mut i: usize = 0;
    assert(a@.skip(0) =~= a@);
    assert(b@.skip(0) =~= b@);
    while i < a.len() && i < b.len()
        invariant
            i <= a@.len(),
            i <= b@.len(),
            path_less(a@, b@) == path_less(a@.skip(i as int), b@.skip(i as int)),
        decreases a@.len() - i,
    {
        assert(a@.skip(i as int)[0] == a@[i as int]);
        assert(b@.skip(i as int)[0] == b@[i as int]);
        assert(a@.skip(i as int).skip(1) =~= a@.skip(i + 1));
        assert(b@.skip(i as int).skip(1) =~= b@.skip(i + 1));
        if a[i] != b[i] {
            return a[i] < b[i];
        }
        i += 1;
    }
    i < b.len()
}

/// What can be seen of a list of paths.
pub open spec fn paths_of(paths: Seq<Vec<u64>>) -> Seq<Seq<u64>> {
    paths.map_values(|path: Vec<u64>| path@)
}

/// Whether paths are in order, and none occurs twice.
pub open spec fn is_sorted(paths: Seq<Seq<u64>>) -> bool {
    forall|i: int, j: int|
        0 <= i < j < paths.len() ==> path_less(#[trigger] paths[i], #[trigger] paths[j])
}

/// The overrides in a log, of which the later ones count.
pub open spec fn override_map(log: Seq<(Vec<u64>, Override)>) -> Map<Seq<u64>, Override>
    decreases log.len(),
{
    if log.len() == 0 {
        Map::empty()
    } else {
        override_map(log.drop_last()).insert(log.last().0@, log.last().1)
    }
}

/// Whether there is an override below a directory.
pub open spec fn is_needed(overrides: Map<Seq<u64>, Override>, dir: Seq<u64>) -> bool {
    exists|path: Seq<u64>| overrides.contains_key(path) && #[trigger] is_below(path, dir)
}

/// The entries of a directory with the overrides in it applied.
pub open spec fn with_overrides(
    entries: Map<u64, EntryValue>,
    dir: Seq<u64>,
    overrides: Map<Seq<u64>, Override>,
) -> Map<u64, EntryValue> {
    Map::new(
        |name: u64|
            if overrides.contains_key(dir.push(name)) {
                overrides[dir.push(name)] is Replace
            } else {
                entries.contains_key(name)
            },
        |name: u64|
            if overrides.contains_key(dir.push(name)) {
                overrides[dir.push(name)]->Replace_0
            } else {
                entries[name]
            },
    )
}

/// Builds a tree from a base tree and overrides.
#[derive(Debug)]
pub struct TreeBuilder<S> {
    store: S,
    base_tree_id: u64,
    overrides: Vec<(Vec<u64>, Override)>,
}

impl<S> TreeBuilder<S> {
    /// The store.
    pub closed spec fn stored_in(&self) -> S {
        self.store
    }

    /// The base tree.
    pub closed spec fn base(&self) -> u64 {
        self.base_tree_id
    }

    /// The overrides.
    pub closed spec fn overrides(&self) -> Map<Seq<u64>, Override> {
        override_map(self.overrides@)
    }

    /// Whether the builder can have come about: the root is not overridden.
    pub closed spec fn well_formed(&self) -> bool {
        forall|i: int| 0 <= i < self.overrides@.len() ==> (#[trigger] self.overrides@[i]).0@.len() > 0
    }

    /// Starts from a base tree.
    pub fn new(store: S, base_tree_id: u64) -> (builder: Self)
        ensures
            builder.well_formed(),
            builder.stored_in() == store,
            builder.base() == base_tree_id,
            builder.overrides() == Map::<Seq<u64>, Override>::empty(),
    {
        TreeBuilder { store, base_tree_id, overrides: Vec::new() }
    }

    /// Returns the store.
    pub fn store(&self) -> (store: &S)
        ensures
            *store == self.stored_in(),
    {
        &self.store
    }

    /// Sets the value at a path, which is not the root.
    pub fn set(&mut self, path: Vec<u64>, value: EntryValue)
        requires
            old(self).well_formed(),
            path@.len() > 0,
        ensures
            final(self).well_formed(),
            final(self).stored_in() == old(self).stored_in(),
            final(self).base() == old(self).base(),
            final(self).overrides() == old(self).overrides().insert(
                path@,
                Override::Replace(value),
            ),
    {
        self.overrides.push((path, Override::Replace(value)));
        assert(self.overrides@.drop_last() =~= old(self).overrides@);
    }

    /// Removes the value at a path, which is not the root.
    pub fn remove(&mut self, path: Vec<u64>)
        requires
            old(self).well_formed(),
            path@.len() > 0,
        ensures
            final(self).well_formed(),
            final(self).stored_in() == old(self).stored_in(),
            final(self).base() == old(self).base(),
            final(self).overrides() == old(self).overrides().insert(path@, Override::Tombstone),
    {
        self.overrides.push((path, Override::Tombstone));
        assert(self.overrides@.drop_last() =~= old(self).overrides@);
    }

    /// Sets the value at a path, which is not the root, or removes it.
    pub fn set_or_remove(&mut self, path: Vec<u64>, value: Option<EntryValue>)
        requires
            old(self).well_formed(),
            path@.len() > 0,
        ensures
            final(self).well_formed(),
            final(self).stored_in() == old(self).stored_in(),
            final(self).base() == old(self).base(),
            final(self).overrides() == old(self).overrides().insert(
                path@,
                match value {
                    Some(value) => Override::Replace(value),
                    None => Override::Tombstone,
                },
            ),
    {
        if let Some(value) = value {
            self.set(path, value);
        } else {
            self.remove(path);
        }
    }
}

/// What can be seen of the entries of trees.
pub open spec fn entries_of(trees: Seq<BTreeMap<u64, EntryValue>>) -> Seq<Map<u64, EntryValue>> {
    trees.map_values(|tree: BTreeMap<u64, EntryValue>| tree@)
}

/// Whether each directory stands with its parent.
pub open spec fn is_closed(dirs: Seq<Seq<u64>>) -> bool {
    forall|i: int|
        0 <= i < dirs.len() && (#[trigger] dirs[i]).len() > 0 ==> dirs.contains(
            dirs[i].drop_last(),
        )
}

/// Whether the directories are those that overrides need, in order.
pub open spec fn are_needed(dirs: Seq<Seq<u64>>, overrides: Map<Seq<u64>, Override>) -> bool {
    &&& is_sorted(dirs)
    &&& forall|dir: Seq<u64>| #[trigger] dirs.contains(dir) <==> is_needed(overrides, dir)
}

proof fn lemma_needed_closed(dirs: Seq<Seq<u64>>, overrides: Map<Seq<u64>, Override>)
    requires
        are_needed(dirs, overrides),
    ensures
        is_closed(dirs),
{
    assert forall|i: int| 0 <= i < dirs.len() && (#[trigger] dirs[i]).len() > 0 implies dirs.contains(
        dirs[i].drop_last(),
    ) by {
        let dir = dirs[i];
        assert(dirs.contains(dir));
        let path = choose|path: Seq<u64>|
            overrides.contains_key(path) && #[trigger] is_below(path, dir);
        assert(path.take(dir.len() - 1) =~= dir.drop_last());
        assert(is_below(path, dir.drop_last()));
    }
}

/// In a sorted list each path has one place.
proof fn lemma_place(dirs: Seq<Seq<u64>>, i: int)
    requires
        is_sorted(dirs),
        0 <= i < dirs.len(),
    ensures
        dirs.index_of(dirs[i]) == i,
{
    let place = dirs.index_of(dirs[i]);
    assert(dirs.contains(dirs[i]));
    assert(0 <= place < dirs.len() && dirs[place] == dirs[i]);
    lemma_path_order(dirs[i], dirs[i]);
    if place < i {
        assert(path_less(dirs[place], dirs[i]));
    } else if i < place {
        assert(path_less(dirs[i], dirs[place]));
    }
}

/// The parent of a directory comes before it.
proof fn lemma_parent_place(dirs: Seq<Seq<u64>>, i: int)
    requires
        is_sorted(dirs),
        is_closed(dirs),
        0 <= i < dirs.len(),
        dirs[i].len() > 0,
    ensures
        0 <= dirs.index_of(dirs[i].drop_last()) < i,
        dirs[dirs.index_of(dirs[i].drop_last())] == dirs[i].drop_last(),
{
    let parent = dirs[i].drop_last();
    let place = dirs.index_of(parent);
    assert(dirs.contains(parent));
    assert(0 <= place < dirs.len() && dirs[place] == parent);
    assert(dirs[i].take(parent.len() as int) =~= parent);
    lemma_below_is_later(dirs[i], parent);
    lemma_path_order(parent, dirs[i]);
    if i < place {
        assert(path_less(dirs[i], dirs[place]));
    }
}

proof fn lemma_drop_last_closed(dirs: Seq<Seq<u64>>)
    requires
        is_sorted(dirs),
        is_closed(dirs),
        dirs.len() > 0,
    ensures
        is_sorted(dirs.drop_last()),
        is_closed(dirs.drop_last()),
{
    let rest = dirs.drop_last();
    assert forall|i: int, j: int| 0 <= i < j < rest.len() implies path_less(
        #[trigger] rest[i],
        #[trigger] rest[j],
    ) by {
        assert(rest[i] == dirs[i] && rest[j] == dirs[j]);
    }
    assert forall|i: int| 0 <= i < rest.len() && (#[trigger] rest[i]).len() > 0 implies rest.contains(
        rest[i].drop_last(),
    ) by {
        assert(rest[i] == dirs[i]);
        lemma_parent_place(dirs, i);
        let place = dirs.index_of(dirs[i].drop_last());
        assert(rest[place] == rest[i].drop_last());
    }
}

/// Tells whether a path is the beginning of another.
fn is_prefix(dir: &Vec<u64>, path: &Vec<u64>, len: usize) -> (same: bool)
    requires
        len <= path@.len(),
    ensures
        same == (dir@ == path@.take(len as int)),
{
    if dir.len() != len {
        return false;
    }
    let mut i: usize = 0;
    while i < len
        invariant
            i <= len,
            len == dir@.len(),
            len <= path@.len(),
            forall|k: int| 0 <= k < i ==> dir@[k] == path@[k],
        decreases len - i,
    {
        if dir[i] != path[i] {
            assert(path@.take(len as int)[i as int] == path@[i as int]);
            return false;
        }
        i += 1;
    }
    assert(dir@ =~= path@.take(len as int));
    true
}

/// Returns the place of the beginning of a path among directories.
fn find_dir(dirs: &Vec<Vec<u64>>, path: &Vec<u64>, len: usize) -> (place: usize)
    requires
        len <= path@.len(),
        is_sorted(paths_of(dirs@)),
        paths_of(dirs@).contains(path@.take(len as int)),
    ensures
        place < dirs@.len(),
        place == paths_of(dirs@).index_of(path@.take(len as int)),
        dirs@[place as int]@ == path@.take(len as int),
{
    let ghost views = paths_of(dirs@);
    let ghost goal = path@.take(len as int);
    let ghost target = views.index_of(goal);
    let len_dirs: usize = dirs.len();
    let mut i: usize = 0;
    while !is_prefix(&dirs[i], path, len)
        invariant
            len <= path@.len(),
            goal == path@.take(len as int),
            views == paths_of(dirs@),
            0 <= target < dirs@.len(),
            len_dirs == dirs@.len(),
            views[target] == goal,
            i <= target,
        decreases target - i,
    {
        assert(views[i as int] == dirs@[i as int]@);
        i += 1;
    }
    proof {
        assert(views[i as int] == dirs@[i as int]@);
        lemma_place(views, i as int);
    }
    i
}

/// Adds the beginning of a path to directories that are in order.
fn insert_dir(dirs: &mut Vec<Vec<u64>>, path: &Vec<u64>, len: usize)
    requires
        len <= path@.len(),
        is_sorted(paths_of(old(dirs)@)),
    ensures
        is_sorted(paths_of(final(dirs)@)),
        forall|dir: Seq<u64>| #[trigger]
            paths_of(final(dirs)@).contains(dir) <==> paths_of(old(dirs)@).contains(dir) || dir
                == path@.take(len as int),
{
    let ghost before = paths_of(dirs@);
    let mut dir: Vec<u64> = Vec::new();
    let mut k: usize = 0;
    while k < len
        invariant
            k <= len <= path@.len(),
            dir@ == path@.take(k as int),
        decreases len - k,
    {
        dir.push(path[k]);
        k += 1;
        assert(dir@ =~= path@.take(k as int));
    }
    let ghost view = dir@;
    let mut i: usize = 0;
    while i < dirs.len() && comes_before(&dirs[i], &dir)
        invariant
            i <= dirs@.len(),
            before == paths_of(dirs@),
            forall|j: int| 0 <= j < i ==> path_less(#[trigger] before[j], dir@),
        decreases dirs@.len() - i,
    {
        assert(before[i as int] == dirs@[i as int]@);
        i += 1;
    }
    if i < dirs.len() {
        assert(before[i as int] == dirs@[i as int]@);
        proof {
            lemma_path_order(before[i as int], view);
        }
        if !comes_before(&dir, &dirs[i]) {
            assert(before[i as int] == view);
            return ;
        }
    }
    dirs.insert(i, dir);
    proof {
        let after = paths_of(dirs@);
        assert(after =~= before.insert(i as int, view));
        assert forall|a: int, b: int| 0 <= a < b < after.len() implies path_less(
            #[trigger] after[a],
            #[trigger] after[b],
        ) by {
            let place = i as int;
            if b > place && place < before.len() && a == place {
                if b > place + 1 {
                    assert(path_less(before[place], before[b - 1]));
                    lemma_path_order_transitive(view, before[place], before[b - 1]);
                }
            } else if a < place && b > place {
                assert(path_less(before[a], before[b - 1]));
            } else if a > place {
                assert(path_less(before[a - 1], before[b - 1]));
            }
        }
        assert forall|dir: Seq<u64>| #[trigger] after.contains(dir) <==> before.contains(dir)
            || dir == view by {
            if before.contains(dir) {
                let at = before.index_of(dir);
                assert(before[at] == dir);
                assert(after[if at < i { at } else { at + 1 }] == dir);
            }
            if dir == view {
                assert(after[i as int] == view);
            }
            if after.contains(dir) {
                let at = after.index_of(dir);
                assert(after[at] == dir);
                if at < i {
                    assert(before[at] == dir);
                } else if at > i {
                    assert(before[at - 1] == dir);
                }
            }
        }
    }
}

/// Trees that are read before others can be written.
#[derive(Debug)]
pub struct BaseTrees {
    /// The base tree.
    pub base_tree_id: u64,
    /// The overrides, of which the later ones count.
    pub overrides: Vec<(Vec<u64>, Override)>,
    /// The directories whose trees are read, each after its parent.
    pub dirs: Vec<Vec<u64>>,
    /// The entries of the trees that were read.
    pub trees: Vec<BTreeMap<u64, EntryValue>>,
}

/// What becomes of a builder.
#[derive(Debug)]
pub enum TreeWrite {
    /// The tree is the base tree.
    Unchanged(u64),
    /// Trees are read, then others are written.
    Read(BaseTrees),
}

/// The tree that holds the entries of a directory, if there is one.
pub open spec fn base_tree_of(
    base_tree_id: u64,
    dirs: Seq<Seq<u64>>,
    trees: Seq<Map<u64, EntryValue>>,
    place: int,
) -> Option<u64> {
    let dir = dirs[place];
    if dir.len() == 0 {
        Some(base_tree_id)
    } else {
        match trees[dirs.index_of(dir.drop_last())].get(dir.last()) {
            Some(EntryValue::Tree(id)) => Some(id),
            _ => None,
        }
    }
}

impl BaseTrees {
    /// Whether the directories are those that the overrides need.
    pub open spec fn well_formed(&self) -> bool {
        &&& forall|i: int|
            0 <= i < self.overrides@.len() ==> (#[trigger] self.overrides@[i]).0@.len() > 0
        &&& are_needed(paths_of(self.dirs@), override_map(self.overrides@))
        &&& self.trees@.len() <= self.dirs@.len()
    }

    /// Returns the tree that is read next, if there is one for the directory.
    /// Else the entries are empty.
    pub fn next_read(&self) -> (id: Option<u64>)
        requires
            self.well_formed(),
            self.trees@.len() < self.dirs@.len(),
        ensures
            id == base_tree_of(
                self.base_tree_id,
                paths_of(self.dirs@),
                entries_of(self.trees@),
                self.trees@.len() as int,
            ),
    {
        let dir: &Vec<u64> = &self.dirs[self.trees.len()];
        let ghost dirs = paths_of(self.dirs@);
        let ghost place = self.trees@.len() as int;
        assert(dirs[place] == dir@);
        if dir.len() == 0 {
            return Some(self.base_tree_id);
        }
        let len: usize = dir.len() - 1;
        proof {
            lemma_needed_closed(dirs, override_map(self.overrides@));
            lemma_parent_place(dirs, place);
            assert(dir@.take(len as int) =~= dir@.drop_last());
        }
        let parent: usize = find_dir(&self.dirs, dir, len);
        assert(entries_of(self.trees@)[parent as int] == self.trees@[parent as int]@);
        match self.trees[parent].get(&dir[len]) {
            Some(EntryValue::Tree(id)) => Some(*id),
            _ => None,
        }
    }

    /// Takes the entries of the tree that was read.
    pub fn push(&mut self, entries: BTreeMap<u64, EntryValue>)
        requires
            old(self).well_formed(),
            old(self).trees@.len() < old(self).dirs@.len(),
        ensures
            final(self).well_formed(),
            final(self).base_tree_id == old(self).base_tree_id,
            final(self).overrides == old(self).overrides,
            final(self).dirs == old(self).dirs,
            final(self).trees@ == old(self).trees@.push(entries),
    {
        self.trees.push(entries);
    }

    /// Applies the overrides once all trees were read.
    pub fn apply(self) -> (trees: TreesToWrite)
        requires
            self.well_formed(),
            self.trees@.len() == self.dirs@.len(),
        ensures
            trees.well_formed(),
            trees.dirs@ == self.dirs@,
            trees.trees@.len() == self.dirs@.len(),
            forall|i: int|
                0 <= i < self.dirs@.len() ==> (#[trigger] trees.trees@[i])@ == with_overrides(
                    self.trees@[i]@,
                    self.dirs@[i]@,
                    override_map(self.overrides@),
                ),
    {
        let BaseTrees { base_tree_id: _, overrides, dirs, trees } = self;
        let ghost base = trees@;
        let ghost views = paths_of(dirs@);
        let mut trees: Vec<BTreeMap<u64, EntryValue>> = trees;
        let mut k: usize = 0;
        assert forall|i: int| 0 <= i < dirs@.len() implies (#[trigger] trees@[i])@
            == with_overrides(
            base[i]@,
            dirs@[i]@,
            override_map(overrides@.take(0)),
        ) by {
            assert(trees@[i]@ =~= with_overrides(
                base[i]@,
                dirs@[i]@,
                override_map(overrides@.take(0)),
            ));
        }
        while k < overrides.len()
            invariant
                k <= overrides@.len(),
                forall|i: int|
                    0 <= i < overrides@.len() ==> (#[trigger] overrides@[i]).0@.len() > 0,
                views == paths_of(dirs@),
                are_needed(views, override_map(overrides@)),
                trees@.len() == dirs@.len(),
                base.len() == dirs@.len(),
                forall|i: int|
                    0 <= i < dirs@.len() ==> (#[trigger] trees@[i])@ == with_overrides(
                        base[i]@,
                        dirs@[i]@,
                        override_map(overrides@.take(k as int)),
                    ),
            decreases overrides@.len() - k,
        {
            let path: &Vec<u64> = &overrides[k].0;
            let len: usize = path.len() - 1;
            let name: u64 = path[len];
            let ghost so_far = override_map(overrides@.take(k as int));
            proof {
                lemma_logged(overrides@, k as int);
                assert(override_map(overrides@).contains_key(path@));
                assert(path@.take(len as int) =~= path@.drop_last());
                assert(is_below(path@, path@.take(len as int)));
                assert(is_needed(override_map(overrides@), path@.take(len as int)));
                assert(overrides@.take(k + 1).drop_last() =~= overrides@.take(k as int));
            }
            let place: usize = find_dir(&dirs, path, len);
            let ghost before = trees@;
            match overrides[k].1 {
                Override::Replace(value) => {
                    trees[place].insert(name, value);
                },
                Override::Tombstone => {
                    trees[place].remove(&name);
                },
            }
            proof {
                let now = override_map(overrides@.take(k + 1));
                assert(now == so_far.insert(path@, overrides@[k as int].1));
                assert forall|i: int| 0 <= i < dirs@.len() implies (#[trigger] trees@[i])@
                    == with_overrides(base[i]@, dirs@[i]@, now) by {
                    assert forall|n: u64| dirs@[i]@.push(n) == path@ <==> i == place && n
                        == name by {
                        if dirs@[i]@.push(n) == path@ {
                            assert(dirs@[i]@.push(n).drop_last() =~= dirs@[i]@);
                            assert(views[i] == dirs@[i]@);
                            lemma_place(views, i);
                            assert(path@.last() == n);
                        }
                        if i == place && n == name {
                            assert(dirs@[i]@.push(n) =~= path@);
                        }
                    }
                    assert(before[i]@ == with_overrides(base[i]@, dirs@[i]@, so_far));
                    assert(trees@[i]@ =~= with_overrides(base[i]@, dirs@[i]@, now));
                }
            }
            k += 1;
        }
        assert(overrides@.take(k as int) =~= overrides@);
        proof {
            lemma_needed_closed(views, override_map(overrides@));
        }
        TreesToWrite { dirs, trees }
    }
}

/// What is in a log is overridden.
proof fn lemma_logged(log: Seq<(Vec<u64>, Override)>, i: int)
    requires
        0 <= i < log.len(),
    ensures
        override_map(log).contains_key(log[i].0@),
    decreases log.len(),
{
    if i < log.len() - 1 {
        lemma_logged(log.drop_last(), i);
    }
}

/// Trees that are written, each before its parent.
#[derive(Debug)]
pub struct TreesToWrite {
    /// The directories in order.
    pub dirs: Vec<Vec<u64>>,
    /// The entries of the directories.
    pub trees: Vec<BTreeMap<u64, EntryValue>>,
}

/// What is done with the last directory.
#[derive(Debug)]
pub enum TreeStep {
    /// The tree of a directory is written.
    Write {
        /// The directory.
        dir: Vec<u64>,
        /// The entries of the tree.
        entries: BTreeMap<u64, EntryValue>,
    },
    /// The directory is empty, and no tree is written.
    Empty,
    /// The root tree is written, even if it is empty, and is the result.
    Root(BTreeMap<u64, EntryValue>),
}

/// The entries of a parent once it is known that a directory is empty.
pub open spec fn without_tree(entries: Map<u64, EntryValue>, name: u64) -> Map<u64, EntryValue> {
    match entries.get(name) {
        Some(EntryValue::Tree(_)) => entries.remove(name),
        // The entry was replaced with a file.
        _ => entries,
    }
}

impl TreesToWrite {
    /// Whether the directories are in order, and each stands with its parent.
    pub open spec fn well_formed(&self) -> bool {
        &&& is_sorted(paths_of(self.dirs@))
        &&& is_closed(paths_of(self.dirs@))
        &&& self.trees@.len() == self.dirs@.len()
    }

    /// Takes the last directory, which has no others below it, and says what is
    /// done with it. After a tree was written, [`TreesToWrite::written()`]
    /// is called.
    pub fn pop(&mut self) -> (step: TreeStep)
        requires
            old(self).well_formed(),
            old(self).dirs@.len() > 0,
        ensures
            final(self).well_formed(),
            final(self).dirs@ == old(self).dirs@.drop_last(),
            match step {
                TreeStep::Root(entries) => {
                    &&& old(self).dirs@.len() == 1
                    &&& old(self).dirs@.last()@.len() == 0
                    &&& entries@ == old(self).trees@.last()@
                },
                TreeStep::Write { dir, entries } => {
                    &&& dir@.len() > 0
                    &&& dir@ == old(self).dirs@.last()@
                    &&& entries@ == old(self).trees@.last()@
                    &&& !entries@.is_empty()
                    &&& final(self).trees@ == old(self).trees@.drop_last()
                },
                TreeStep::Empty => {
                    let dir = old(self).dirs@.last()@;
                    let place = paths_of(old(self).dirs@).index_of(dir.drop_last());
                    &&& dir.len() > 0
                    &&& old(self).trees@.last()@.is_empty()
                    &&& entries_of(final(self).trees@) == entries_of(
                        old(self).trees@.drop_last(),
                    ).update(place, without_tree(old(self).trees@[place]@, dir.last()))
                },
            },
    {
        let ghost views = paths_of(self.dirs@);
        let ghost last = self.dirs@.len() - 1;
        let ghost trees = self.trees@;
        proof {
            lemma_drop_last_closed(views);
            assert(views[last] == self.dirs@[last]@);
        }
        let dir: Vec<u64> = self.dirs.pop().unwrap();
        let entries: BTreeMap<u64, EntryValue> = self.trees.pop().unwrap();
        assert(paths_of(self.dirs@) =~= views.drop_last());
        if dir.len() == 0 {
            proof {
                if last > 0 {
                    assert(path_less(views[0], views[last]));
                }
            }
            return TreeStep::Root(entries);
        }
        if !entries.is_empty() {
            return TreeStep::Write { dir, entries };
        }
        let len: usize = dir.len() - 1;
        proof {
            lemma_parent_place(views, last);
            assert(dir@.take(len as int) =~= dir@.drop_last());
            let place = views.index_of(dir@.drop_last());
            assert(paths_of(self.dirs@)[place] == dir@.drop_last());
        }
        let place: usize = find_dir(&self.dirs, &dir, len);
        proof {
            assert(views[place as int] == paths_of(self.dirs@)[place as int]);
            lemma_place(views, place as int);
        }
        let ghost rest = self.trees@;
        if let Some(EntryValue::Tree(_)) = self.trees[place].get(&dir[len]) {
            let name: u64 = dir[len];
            self.trees[place].remove(&name);
        }
        assert(entries_of(self.trees@) =~= entries_of(rest).update(
            place as int,
            without_tree(trees[place as int]@, dir@.last()),
        ));
        TreeStep::Empty
    }

    /// Enters a tree that was written into its parent.
    pub fn written(&mut self, dir: &Vec<u64>, id: u64)
        requires
            old(self).well_formed(),
            dir@.len() > 0,
            paths_of(old(self).dirs@).contains(dir@.drop_last()),
        ensures
            final(self).well_formed(),
            final(self).dirs == old(self).dirs,
            ({
                let place = paths_of(old(self).dirs@).index_of(dir@.drop_last());
                entries_of(final(self).trees@) == entries_of(old(self).trees@).update(
                    place,
                    old(self).trees@[place]@.insert(dir@.last(), EntryValue::Tree(id)),
                )
            }),
    {
        let len: usize = dir.len() - 1;
        assert(dir@.take(len as int) =~= dir@.drop_last());
        let place: usize = find_dir(&self.dirs, dir, len);
        self.trees[place].insert(dir[len], EntryValue::Tree(id));
        assert(entries_of(self.trees@) =~= entries_of(old(self).trees@).update(
            place as int,
            old(self).trees@[place as int]@.insert(dir@.last(), EntryValue::Tree(id)),
        ));
    }
}

impl<S> TreeBuilder<S> {
    /// Starts to build the tree.
    pub fn write_tree(self) -> (write: TreeWrite)
        requires
            self.well_formed(),
        ensures
            match write {
                TreeWrite::Unchanged(id) => id == self.base() && self.overrides() == Map::<
                    Seq<u64>,
                    Override,
                >::empty(),
                TreeWrite::Read(trees) => {
                    &&& self.overrides() != Map::<Seq<u64>, Override>::empty()
                    &&& trees.well_formed()
                    &&& trees.base_tree_id == self.base()
                    &&& override_map(trees.overrides@) == self.overrides()
                    &&& trees.trees@.len() == 0
                },
            },
    {
        let TreeBuilder { store: _, base_tree_id, overrides } = self;
        if overrides.len() == 0 {
            return TreeWrite::Unchanged(base_tree_id);
        }
        let mut dirs: Vec<Vec<u64>> = Vec::new();
        let mut k: usize = 0;
        assert(override_map(overrides@.take(0)) =~= Map::<Seq<u64>, Override>::empty());
        while k < overrides.len()
            invariant
                k <= overrides@.len(),
                are_needed(paths_of(dirs@), override_map(overrides@.take(k as int))),
            decreases overrides@.len() - k,
        {
            let path: &Vec<u64> = &overrides[k].0;
            let ghost before = override_map(overrides@.take(k as int));
            let mut len: usize = 0;
            while len < path.len()
                invariant
                    len <= path@.len(),
                    is_sorted(paths_of(dirs@)),
                    forall|dir: Seq<u64>| #[trigger]
                        paths_of(dirs@).contains(dir) <==> is_needed(before, dir) || (is_below(
                            path@,
                            dir,
                        ) && dir.len() < len),
                decreases path@.len() - len,
            {
                let ghost seen = paths_of(dirs@);
                insert_dir(&mut dirs, path, len);
                assert forall|dir: Seq<u64>| #[trigger]
                    paths_of(dirs@).contains(dir) <==> is_needed(before, dir) || (is_below(
                        path@,
                        dir,
                    ) && dir.len() < len + 1) by {
                    assert(seen.contains(dir) <==> is_needed(before, dir) || (is_below(path@, dir)
                        && dir.len() < len));
                    assert(path@.take(len as int).len() == len);
                }
                len += 1;
            }
            proof {
                let now = override_map(overrides@.take(k + 1));
                assert(overrides@.take(k + 1).drop_last() =~= overrides@.take(k as int));
                assert(now == before.insert(path@, overrides@[k as int].1));
                assert forall|dir: Seq<u64>| #[trigger]
                    paths_of(dirs@).contains(dir) <==> is_needed(now, dir) by {
                    if is_needed(before, dir) {
                        let other = choose|other: Seq<u64>|
                            before.contains_key(other) && #[trigger] is_below(other, dir);
                        assert(now.contains_key(other) && is_below(other, dir));
                    }
                    if is_below(path@, dir) {
                        assert(now.contains_key(path@) && is_below(path@, dir));
                    }
                    if is_needed(now, dir) {
                        let other = choose|other: Seq<u64>|
                            now.contains_key(other) && #[trigger] is_below(other, dir);
                        if other != path@ {
                            assert(before.contains_key(other) && is_below(other, dir));
                        }
                    }
                }
            }
            k += 1;
        }
        assert(overrides@.take(k as int) =~= overrides@);
        proof {
            lemma_logged(overrides@, 0);
            assert(override_map(overrides@).contains_key(overrides@[0].0@));
        }
        TreeWrite::Read(BaseTrees { base_tree_id, overrides, dirs, trees: Vec::new() })
    }
}

/// Which tree a store has written for the entries of a directory.
pub type TreeIds = spec_fn(Seq<u64>, Map<u64, EntryValue>) -> u64;

/// The entries of the trees once the last directory was dealt with.
pub open spec fn after_last(
    dirs: Seq<Seq<u64>>,
    trees: Seq<Map<u64, EntryValue>>,
    ids: TreeIds,
) -> Seq<Map<u64, EntryValue>> {
    let dir = dirs.last();
    let place = dirs.index_of(dir.drop_last());
    trees.drop_last().update(
        place,
        if trees.last().is_empty() {
            without_tree(trees[place], dir.last())
        } else {
            trees[place].insert(dir.last(), EntryValue::Tree(ids(dir, trees.last())))
        },
    )
}

/// The entries of the root tree once all other directories were dealt with,
/// from the last to the first.
pub open spec fn written_root(
    dirs: Seq<Seq<u64>>,
    trees: Seq<Map<u64, EntryValue>>,
    ids: TreeIds,
) -> Map<u64, EntryValue>
    decreases dirs.len(),
{
    if dirs.len() <= 1 {
        trees.last()
    } else {
        written_root(dirs.drop_last(), after_last(dirs, trees, ids), ids)
    }
}

/// What is under a name of a directory in the end: the tree of the directory of
/// that name if there is one that is not empty, else what was there, unless it
/// was a tree that turned out to be empty. Directories are looked for down to a
/// depth.
pub open spec fn final_entry(
    dirs: Seq<Seq<u64>>,
    trees: Seq<Map<u64, EntryValue>>,
    ids: TreeIds,
    dir: Seq<u64>,
    name: u64,
    depth: nat,
) -> Option<EntryValue>
    decreases depth, 0nat,
{
    let sub_dir = dir.push(name);
    let entry = trees[dirs.index_of(dir)].get(name);
    if depth > 0 && dirs.contains(sub_dir) {
        let entries = final_tree(dirs, trees, ids, sub_dir, (depth - 1) as nat);
        if !entries.is_empty() {
            Some(EntryValue::Tree(ids(sub_dir, entries)))
        } else if entry matches Some(EntryValue::Tree(_)) {
            None
        } else {
            entry
        }
    } else {
        entry
    }
}

/// The entries of a directory in the end.
pub open spec fn final_tree(
    dirs: Seq<Seq<u64>>,
    trees: Seq<Map<u64, EntryValue>>,
    ids: TreeIds,
    dir: Seq<u64>,
    depth: nat,
) -> Map<u64, EntryValue>
    decreases depth, 1nat,
{
    Map::new(
        |name: u64| final_entry(dirs, trees, ids, dir, name, depth) is Some,
        |name: u64| final_entry(dirs, trees, ids, dir, name, depth)->Some_0,
    )
}

/// Whether no directory is deeper than a depth.
pub open spec fn is_within(dirs: Seq<Seq<u64>>, depth: nat) -> bool {
    forall|i: int| 0 <= i < dirs.len() ==> (#[trigger] dirs[i]).len() <= depth
}

proof fn lemma_same_entries(a: Map<u64, EntryValue>, b: Map<u64, EntryValue>)
    requires
        forall|name: u64| #[trigger] a.get(name) == b.get(name),
    ensures
        a == b,
{
    assert forall|name: u64| #[trigger] a.contains_key(name) == b.contains_key(name) by {
        assert(a.get(name) == b.get(name));
    }
    assert forall|name: u64| #[trigger] a.contains_key(name) implies a[name] == b[name] by {
        assert(a.get(name) == b.get(name));
    }
    assert(a =~= b);
}

/// Whether the remaining trees hold the final entries for the directories that
/// were dealt with, and are as they were for the others.
spec fn is_written(
    dirs: Seq<Seq<u64>>,
    trees: Seq<Map<u64, EntryValue>>,
    ids: TreeIds,
    depth: nat,
    now: Seq<Map<u64, EntryValue>>,
) -> bool {
    forall|i: int, name: u64|
        0 <= i < now.len() ==> #[trigger] now[i].get(name) == (if dirs.contains(
            dirs[i].push(name),
        ) && dirs.index_of(dirs[i].push(name)) >= now.len() {
            final_entry(dirs, trees, ids, dirs[i], name, (depth - dirs[i].len()) as nat)
        } else {
            trees[i].get(name)
        })
}

/// A directory comes before those in it.
proof fn lemma_child_place(dirs: Seq<Seq<u64>>, i: int, name: u64)
    requires
        is_sorted(dirs),
        0 <= i < dirs.len(),
        dirs.contains(dirs[i].push(name)),
    ensures
        i < dirs.index_of(dirs[i].push(name)) < dirs.len(),
        dirs[dirs.index_of(dirs[i].push(name))] == dirs[i].push(name),
{
    let child = dirs[i].push(name);
    let place = dirs.index_of(child);
    assert(0 <= place < dirs.len() && dirs[place] == child);
    assert(child.take(dirs[i].len() as int) =~= dirs[i]);
    lemma_below_is_later(child, dirs[i]);
    lemma_path_order(child, dirs[i]);
    if place < i {
        assert(path_less(dirs[place], dirs[i]));
    }
}

/// All that is below the last of the remaining directories was dealt with.
proof fn lemma_last_is_final(
    dirs: Seq<Seq<u64>>,
    trees: Seq<Map<u64, EntryValue>>,
    ids: TreeIds,
    depth: nat,
    now: Seq<Map<u64, EntryValue>>,
)
    requires
        is_sorted(dirs),
        trees.len() == dirs.len(),
        is_within(dirs, depth),
        0 < now.len() <= dirs.len(),
        is_written(dirs, trees, ids, depth, now),
    ensures
        now.last() == final_tree(
            dirs,
            trees,
            ids,
            dirs[now.len() - 1],
            (depth - dirs[now.len() - 1].len()) as nat,
        ),
{
    let last = now.len() - 1;
    let dir = dirs[last];
    let rest = (depth - dir.len()) as nat;
    let goal = final_tree(dirs, trees, ids, dir, rest);
    lemma_place(dirs, last);
    assert forall|name: u64| #[trigger] now[last].get(name) == goal.get(name) by {
        assert(goal.get(name) == final_entry(dirs, trees, ids, dir, name, rest));
        if dirs.contains(dir.push(name)) {
            lemma_child_place(dirs, last, name);
        }
    }
    lemma_same_entries(now[last], goal);
}

proof fn lemma_written_step(
    dirs: Seq<Seq<u64>>,
    trees: Seq<Map<u64, EntryValue>>,
    ids: TreeIds,
    depth: nat,
    now: Seq<Map<u64, EntryValue>>,
)
    requires
        is_sorted(dirs),
        is_closed(dirs),
        trees.len() == dirs.len(),
        is_within(dirs, depth),
        1 < now.len() <= dirs.len(),
        is_written(dirs, trees, ids, depth, now),
    ensures
        after_last(dirs.take(now.len() as int), now, ids).len() == now.len() - 1,
        is_written(
            dirs,
            trees,
            ids,
            depth,
            after_last(dirs.take(now.len() as int), now, ids),
        ),
{
    let len = now.len() as int;
    let dir = dirs[len - 1];
    let front = dirs.take(len);
    let next = after_last(front, now, ids);
    lemma_last_is_final(dirs, trees, ids, depth, now);
    if dir.len() == 0 {
        assert(path_less(dirs[0], dirs[len - 1]));
    }
    lemma_parent_place(dirs, len - 1);
    let place = dirs.index_of(dir.drop_last());
    assert(front.last() == dir);
    assert(is_sorted(front));
    assert(front[place] == dir.drop_last());
    lemma_place(front, place);
    lemma_place(dirs, len - 1);
    assert forall|i: int, name: u64| 0 <= i < next.len() implies #[trigger] next[i].get(name) == (
    if dirs.contains(dirs[i].push(name)) && dirs.index_of(dirs[i].push(name)) >= next.len() {
        final_entry(dirs, trees, ids, dirs[i], name, (depth - dirs[i].len()) as nat)
    } else {
        trees[i].get(name)
    }) by {
        assert(now[i].get(name) == now[i].get(name));
        let child = dirs[i].push(name);
        if child == dir {
            assert(child.drop_last() =~= dirs[i]);
            lemma_place(dirs, i);
            assert(i == place && name == dir.last());
            assert(dirs.contains(dir));
            let rest = (depth - dirs[i].len()) as nat;
            assert(dir.len() <= depth);
            assert((rest - 1) as nat == (depth - dir.len()) as nat);
        } else {
            if i == place && name == dir.last() {
                assert(dirs[i].push(name) =~= dir);
            }
            assert(next[i].get(name) == now[i].get(name));
            if dirs.contains(child) && dirs.index_of(child) == len - 1 {
                assert(dirs[len - 1] == child);
            }
        }
    }
}

proof fn lemma_written_root_from(
    dirs: Seq<Seq<u64>>,
    trees: Seq<Map<u64, EntryValue>>,
    ids: TreeIds,
    depth: nat,
    now: Seq<Map<u64, EntryValue>>,
)
    requires
        is_sorted(dirs),
        is_closed(dirs),
        trees.len() == dirs.len(),
        is_within(dirs, depth),
        0 < now.len() <= dirs.len(),
        is_written(dirs, trees, ids, depth, now),
    ensures
        written_root(dirs.take(now.len() as int), now, ids) == final_tree(
            dirs,
            trees,
            ids,
            Seq::empty(),
            depth,
        ),
    decreases now.len(),
{
    let len = now.len() as int;
    if len == 1 {
        lemma_last_is_final(dirs, trees, ids, depth, now);
        if dirs[0].len() > 0 {
            lemma_parent_place(dirs, 0);
        }
        assert(dirs[0] =~= Seq::<u64>::empty());
    } else {
        let next = after_last(dirs.take(len), now, ids);
        lemma_written_step(dirs, trees, ids, depth, now);
        assert(dirs.take(len).drop_last() =~= dirs.take(len - 1));
        lemma_written_root_from(dirs, trees, ids, depth, next);
    }
}

/// Writing the trees from the last to the first gives each directory the final
/// trees of the directories in it.
pub proof fn lemma_written_root(
    dirs: Seq<Seq<u64>>,
    trees: Seq<Map<u64, EntryValue>>,
    ids: TreeIds,
    depth: nat,
)
    requires
        is_sorted(dirs),
        is_closed(dirs),
        dirs.len() > 0,
        trees.len() == dirs.len(),
        is_within(dirs, depth),
    ensures
        written_root(dirs, trees, ids) == final_tree(dirs, trees, ids, Seq::empty(), depth),
{
    assert forall|i: int, name: u64| 0 <= i < trees.len() implies #[trigger] trees[i].get(name)
        == (if dirs.contains(dirs[i].push(name)) && dirs.index_of(dirs[i].push(name))
        >= trees.len() {
        final_entry(dirs, trees, ids, dirs[i], name, (depth - dirs[i].len()) as nat)
    } else {
        trees[i].get(name)
    }) by {
        if dirs.contains(dirs[i].push(name)) {
            lemma_child_place(dirs, i, name);
        }
    }
    lemma_written_root_from(dirs, trees, ids, depth, trees);
    assert(dirs.take(trees.len() as int) =~= dirs);
}

/// What is at a path below a tree, in a store with the given contents.
pub open spec fn value_at(
    contents: spec_fn(u64) -> Map<u64, EntryValue>,
    entries: Map<u64, EntryValue>,
    path: Seq<u64>,
) -> Option<EntryValue>
    decreases path.len(),
{
    if path.len() == 0 {
        None
    } else if path.len() == 1 {
        entries.get(path[0])
    } else {
        match entries.get(path[0]) {
            Some(EntryValue::Tree(id)) => value_at(contents, contents(id), path.skip(1)),
            _ => None,
        }
    }
}

/// Whether the trees are what the store holds for the directories of the base
/// tree.
pub open spec fn are_base_trees(
    contents: spec_fn(u64) -> Map<u64, EntryValue>,
    base_tree_id: u64,
    dirs: Seq<Seq<u64>>,
    base: Seq<Map<u64, EntryValue>>,
) -> bool {
    &&& base.len() == dirs.len()
    &&& forall|i: int|
        0 <= i < dirs.len() ==> #[trigger] base[i] == (match base_tree_of(
            base_tree_id,
            dirs,
            base,
            i,
        ) {
            Some(id) => contents(id),
            None => Map::empty(),
        })
}

/// The entries of the directories with the overrides applied.
pub open spec fn overridden(
    dirs: Seq<Seq<u64>>,
    base: Seq<Map<u64, EntryValue>>,
    overrides: Map<Seq<u64>, Override>,
) -> Seq<Map<u64, EntryValue>> {
    Seq::new(dirs.len(), |i: int| with_overrides(base[i], dirs[i], overrides))
}

/// Whether the store holds the trees that were written.
pub open spec fn are_stored(
    contents: spec_fn(u64) -> Map<u64, EntryValue>,
    dirs: Seq<Seq<u64>>,
    trees: Seq<Map<u64, EntryValue>>,
    ids: TreeIds,
    depth: nat,
) -> bool {
    forall|i: int|
        0 <= i < dirs.len() ==> {
            let entries = final_tree(
                dirs,
                trees,
                ids,
                #[trigger] dirs[i],
                (depth - dirs[i].len()) as nat,
            );
            !entries.is_empty() ==> contents(ids(dirs[i], entries)) == entries
        }
}

proof fn lemma_override_below(
    contents: spec_fn(u64) -> Map<u64, EntryValue>,
    dirs: Seq<Seq<u64>>,
    base: Seq<Map<u64, EntryValue>>,
    overrides: Map<Seq<u64>, Override>,
    ids: TreeIds,
    depth: nat,
    dir: Seq<u64>,
    rest: Seq<u64>,
)
    requires
        are_needed(dirs, overrides),
        is_within(dirs, depth),
        are_stored(contents, dirs, overridden(dirs, base, overrides), ids, depth),
        dirs.contains(dir),
        rest.len() > 0,
        overrides.contains_key(dir + rest),
        !is_needed(overrides, dir + rest) || {
            &&& !(overrides[dir + rest] matches Override::Replace(EntryValue::Tree(_)))
            &&& final_tree(
                dirs,
                overridden(dirs, base, overrides),
                ids,
                dir + rest,
                (depth - (dir + rest).len()) as nat,
            ).is_empty()
        },
    ensures
        ({
            let trees = overridden(dirs, base, overrides);
            let entries = final_tree(dirs, trees, ids, dir, (depth - dir.len()) as nat);
            &&& value_at(contents, entries, rest) == (match overrides[dir + rest] {
                Override::Replace(value) => Some(value),
                Override::Tombstone => None,
            })
            &&& overrides[dir + rest] is Replace ==> !entries.is_empty()
        }),
    decreases rest.len(),
{
    let trees = overridden(dirs, base, overrides);
    let here = (depth - dir.len()) as nat;
    let entries = final_tree(dirs, trees, ids, dir, here);
    let name = rest[0];
    let sub_dir = dir.push(name);
    let place = dirs.index_of(dir);
    let path = dir + rest;
    assert(0 <= place < dirs.len() && dirs[place] == dir);
    assert(entries.get(name) == final_entry(dirs, trees, ids, dir, name, here));
    if rest.len() == 1 {
        assert(sub_dir =~= path);
        assert(trees[place].get(name) == with_overrides(base[place], dir, overrides).get(name));
        if dirs.contains(sub_dir) {
            let sub_place = dirs.index_of(sub_dir);
            assert(0 <= sub_place < dirs.len() && dirs[sub_place] == sub_dir);
            assert(sub_dir.len() <= depth);
            assert((here - 1) as nat == (depth - sub_dir.len()) as nat);
        }
    } else {
        assert(path.take(sub_dir.len() as int) =~= sub_dir);
        assert(is_below(path, sub_dir));
        assert(dirs.contains(sub_dir));
        let sub_place = dirs.index_of(sub_dir);
        assert(dirs[sub_place] == sub_dir);
        assert(sub_dir.len() <= depth);
        assert(sub_dir + rest.skip(1) =~= path);
        lemma_override_below(
            contents,
            dirs,
            base,
            overrides,
            ids,
            depth,
            sub_dir,
            rest.skip(1),
        );
        assert((here - 1) as nat == (depth - sub_dir.len()) as nat);
    }
    assert(entries.get(name) is Some ==> entries.contains_key(name));
}

/// Whether all overrides below a path remove what is there.
pub open spec fn only_removed_below(overrides: Map<Seq<u64>, Override>, path: Seq<u64>) -> bool {
    forall|other: Seq<u64>|
        overrides.contains_key(other) && #[trigger] is_below(other, path) ==> overrides[other]
            == Override::Tombstone
}

/// Whether no override is at a path or above it.
pub open spec fn is_untouched(overrides: Map<Seq<u64>, Override>, path: Seq<u64>) -> bool {
    &&& !overrides.contains_key(path)
    &&& forall|other: Seq<u64>|
        overrides.contains_key(other) ==> !#[trigger] is_below(path, other)
}

/// Whether the overrides leave what the base tree has at a path: no override is
/// at the path or above it, and there is none below it either, or the base tree
/// has no tree at the path and the overrides below it only remove.
pub open spec fn is_kept(
    overrides: Map<Seq<u64>, Override>,
    path: Seq<u64>,
    in_base: Option<EntryValue>,
) -> bool {
    &&& is_untouched(overrides, path)
    &&& !is_needed(overrides, path) || only_removed_below(overrides, path) && !(in_base matches Some(
        EntryValue::Tree(_),
    ))
}

/// Whatever is at a path below another is below the tree there.
proof fn lemma_value_below(
    contents: spec_fn(u64) -> Map<u64, EntryValue>,
    entries: Map<u64, EntryValue>,
    path: Seq<u64>,
    rest: Seq<u64>,
)
    requires
        path.len() > 0,
        rest.len() > 0,
    ensures
        value_at(contents, entries, path + rest) == (match value_at(contents, entries, path) {
            Some(EntryValue::Tree(id)) => value_at(contents, contents(id), rest),
            _ => None,
        }),
    decreases path.len(),
{
    let all = path + rest;
    assert(all[0] == path[0]);
    if path.len() == 1 {
        assert(all.skip(1) =~= rest);
    } else {
        assert(all.skip(1) =~= path.skip(1) + rest);
        match entries.get(path[0]) {
            Some(EntryValue::Tree(id)) => {
                lemma_value_below(contents, contents(id), path.skip(1), rest);
            },
            _ => {},
        }
    }
}

/// The trees that are read are those of the base tree.
proof fn lemma_base_value(
    contents: spec_fn(u64) -> Map<u64, EntryValue>,
    base_tree_id: u64,
    dirs: Seq<Seq<u64>>,
    base: Seq<Map<u64, EntryValue>>,
    dir: Seq<u64>,
)
    requires
        is_sorted(dirs),
        is_closed(dirs),
        are_base_trees(contents, base_tree_id, dirs, base),
        dirs.contains(dir),
    ensures
        forall|name: u64| #[trigger]
            base[dirs.index_of(dir)].get(name) == value_at(
                contents,
                contents(base_tree_id),
                dir.push(name),
            ),
    decreases dir.len(),
{
    let root = contents(base_tree_id);
    let place = dirs.index_of(dir);
    assert(0 <= place < dirs.len() && dirs[place] == dir);
    assert(base[place] == (match base_tree_of(base_tree_id, dirs, base, place) {
        Some(id) => contents(id),
        None => Map::empty(),
    }));
    if dir.len() > 0 {
        let parent = dir.drop_last();
        lemma_parent_place(dirs, place);
        assert(dirs.contains(parent));
        lemma_base_value(contents, base_tree_id, dirs, base, parent);
        assert(parent.push(dir.last()) =~= dir);
        assert(base[dirs.index_of(parent)].get(dir.last()) == value_at(contents, root, dir));
        assert forall|name: u64| #[trigger] base[place].get(name) == value_at(
            contents,
            root,
            dir.push(name),
        ) by {
            assert(dir.push(name) =~= dir + seq![name]);
            lemma_value_below(contents, root, dir, seq![name]);
        }
    }
}

/// Whether nothing of the base tree is left below a path: the overrides below it
/// only remove, and whatever the base tree has there is removed, or is a tree in
/// which paths are removed.
pub open spec fn is_cleared(
    contents: spec_fn(u64) -> Map<u64, EntryValue>,
    base_tree_id: u64,
    overrides: Map<Seq<u64>, Override>,
    path: Seq<u64>,
) -> bool {
    &&& only_removed_below(overrides, path)
    &&& forall|other: Seq<u64>| #[trigger]
        is_below(other, path) ==> match value_at(contents, contents(base_tree_id), other) {
            None => true,
            Some(EntryValue::Tree(_)) => overrides.contains_key(other) || is_needed(
                overrides,
                other,
            ),
            Some(EntryValue::Other(_)) => overrides.contains_key(other),
        }
}

proof fn lemma_below_transitive(path: Seq<u64>, middle: Seq<u64>, dir: Seq<u64>)
    requires
        is_below(path, middle),
        is_below(middle, dir),
    ensures
        is_below(path, dir),
{
    assert(path.take(dir.len() as int) =~= path.take(middle.len() as int).take(dir.len() as int));
}

/// A directory of which nothing is left is empty in the end.
proof fn lemma_nothing_left(
    contents: spec_fn(u64) -> Map<u64, EntryValue>,
    base_tree_id: u64,
    dirs: Seq<Seq<u64>>,
    base: Seq<Map<u64, EntryValue>>,
    overrides: Map<Seq<u64>, Override>,
    ids: TreeIds,
    depth: nat,
    dir: Seq<u64>,
)
    requires
        are_needed(dirs, overrides),
        is_within(dirs, depth),
        are_base_trees(contents, base_tree_id, dirs, base),
        dirs.contains(dir),
        is_cleared(contents, base_tree_id, overrides, dir),
    ensures
        final_tree(
            dirs,
            overridden(dirs, base, overrides),
            ids,
            dir,
            (depth - dir.len()) as nat,
        ).is_empty(),
    decreases depth - dir.len(),
{
    let trees = overridden(dirs, base, overrides);
    let here = (depth - dir.len()) as nat;
    let entries = final_tree(dirs, trees, ids, dir, here);
    let place = dirs.index_of(dir);
    assert(0 <= place < dirs.len() && dirs[place] == dir);
    assert(dirs[place].len() <= depth);
    lemma_needed_closed(dirs, overrides);
    lemma_base_value(contents, base_tree_id, dirs, base, dir);
    assert forall|name: u64| !#[trigger] entries.contains_key(name) by {
        let sub_dir = dir.push(name);
        assert(sub_dir.take(dir.len() as int) =~= dir);
        assert(is_below(sub_dir, dir));
        assert(base[place].get(name) == value_at(contents, contents(base_tree_id), sub_dir));
        assert(trees[place] == with_overrides(base[place], dir, overrides));
        assert(!(trees[place].get(name) matches Some(EntryValue::Other(_))));
        if dirs.contains(sub_dir) {
            let sub_place = dirs.index_of(sub_dir);
            assert(0 <= sub_place < dirs.len() && dirs[sub_place] == sub_dir);
            assert(sub_dir.len() <= depth);
            assert forall|other: Seq<u64>|
                overrides.contains_key(other) && #[trigger] is_below(
                    other,
                    sub_dir,
                ) implies overrides[other] == Override::Tombstone by {
                lemma_below_transitive(other, sub_dir, dir);
            }
            assert forall|other: Seq<u64>| #[trigger]
                is_below(other, sub_dir) implies match value_at(
                contents,
                contents(base_tree_id),
                other,
            ) {
                None => true,
                Some(EntryValue::Tree(_)) => overrides.contains_key(other) || is_needed(
                    overrides,
                    other,
                ),
                Some(EntryValue::Other(_)) => overrides.contains_key(other),
            } by {
                lemma_below_transitive(other, sub_dir, dir);
            }
            lemma_nothing_left(
                contents,
                base_tree_id,
                dirs,
                base,
                overrides,
                ids,
                depth,
                sub_dir,
            );
            assert((here - 1) as nat == (depth - sub_dir.len()) as nat);
        } else {
            assert(!is_needed(overrides, sub_dir));
            assert(trees[place].get(name) is None);
        }
        assert(final_entry(dirs, trees, ids, dir, name, here) is None);
    }
    assert(entries =~= Map::<u64, EntryValue>::empty());
}

proof fn lemma_not_tree_cleared(
    contents: spec_fn(u64) -> Map<u64, EntryValue>,
    base_tree_id: u64,
    overrides: Map<Seq<u64>, Override>,
    path: Seq<u64>,
)
    requires
        path.len() > 0,
        only_removed_below(overrides, path),
        !(value_at(contents, contents(base_tree_id), path) matches Some(EntryValue::Tree(_))),
    ensures
        is_cleared(contents, base_tree_id, overrides, path),
{
    let root = contents(base_tree_id);
    assert forall|other: Seq<u64>| #[trigger] is_below(other, path) implies value_at(
        contents,
        root,
        other,
    ) is None by {
        let rest = other.skip(path.len() as int);
        assert(other =~= path + rest);
        lemma_value_below(contents, root, path, rest);
    }
}

proof fn lemma_kept_below(
    contents: spec_fn(u64) -> Map<u64, EntryValue>,
    base_tree_id: u64,
    dirs: Seq<Seq<u64>>,
    base: Seq<Map<u64, EntryValue>>,
    overrides: Map<Seq<u64>, Override>,
    ids: TreeIds,
    depth: nat,
    dir: Seq<u64>,
    rest: Seq<u64>,
)
    requires
        are_needed(dirs, overrides),
        is_within(dirs, depth),
        are_base_trees(contents, base_tree_id, dirs, base),
        are_stored(contents, dirs, overridden(dirs, base, overrides), ids, depth),
        dirs.contains(dir),
        rest.len() > 0,
        is_kept(overrides, dir + rest, value_at(contents, base[dirs.index_of(dir)], rest)),
    ensures
        ({
            let trees = overridden(dirs, base, overrides);
            let entries = final_tree(dirs, trees, ids, dir, (depth - dir.len()) as nat);
            value_at(contents, entries, rest) == value_at(
                contents,
                base[dirs.index_of(dir)],
                rest,
            )
        }),
    decreases rest.len(),
{
    let trees = overridden(dirs, base, overrides);
    let here = (depth - dir.len()) as nat;
    let entries = final_tree(dirs, trees, ids, dir, here);
    let name = rest[0];
    let sub_dir = dir.push(name);
    let place = dirs.index_of(dir);
    let path = dir + rest;
    assert(0 <= place < dirs.len() && dirs[place] == dir);
    assert(entries.get(name) == final_entry(dirs, trees, ids, dir, name, here));
    assert(path.take(sub_dir.len() as int) =~= sub_dir);
    if rest.len() == 1 {
        assert(sub_dir =~= path);
    } else {
        assert(is_below(path, sub_dir));
    }
    assert(!overrides.contains_key(sub_dir));
    assert(trees[place] == with_overrides(base[place], dir, overrides));
    let entry = base[place].get(name);
    assert(trees[place].get(name) == entry);
    if dirs.contains(sub_dir) {
        let sub_place = dirs.index_of(sub_dir);
        assert(0 <= sub_place < dirs.len() && dirs[sub_place] == sub_dir);
        assert(sub_dir.len() <= depth);
        let below = final_tree(dirs, trees, ids, sub_dir, (depth - sub_dir.len()) as nat);
        assert((here - 1) as nat == (depth - sub_dir.len()) as nat);
        assert(sub_dir.drop_last() =~= dir);
        let sub_base = base[sub_place];
        assert(sub_base == (match entry {
            Some(EntryValue::Tree(id)) => contents(id),
            _ => Map::empty(),
        })) by {
            assert(base[sub_place] == (match base_tree_of(base_tree_id, dirs, base, sub_place) {
                Some(id) => contents(id),
                None => Map::empty(),
            }));
        }
        if rest.len() == 1 {
            assert(value_at(contents, base[place], rest) == entry);
            assert(is_needed(overrides, path));
            lemma_needed_closed(dirs, overrides);
            lemma_base_value(contents, base_tree_id, dirs, base, dir);
            assert(entry == value_at(contents, contents(base_tree_id), sub_dir));
            lemma_not_tree_cleared(contents, base_tree_id, overrides, sub_dir);
            lemma_nothing_left(
                contents,
                base_tree_id,
                dirs,
                base,
                overrides,
                ids,
                depth,
                sub_dir,
            );
            assert(entries.get(name) == entry);
        } else {
            let more = rest.skip(1);
            assert(sub_dir + more =~= path);
            lemma_empty_value(contents, more);
            assert(value_at(contents, base[place], rest) == value_at(contents, sub_base, more));
            lemma_kept_below(
                contents,
                base_tree_id,
                dirs,
                base,
                overrides,
                ids,
                depth,
                sub_dir,
                more,
            );
            assert(value_at(contents, below, more) == value_at(contents, sub_base, more));
            if below.is_empty() {
                assert(below =~= Map::<u64, EntryValue>::empty());
                assert(!(entries.get(name) matches Some(EntryValue::Tree(_))));
            } else {
                assert(entries.get(name) == Some(EntryValue::Tree(ids(sub_dir, below))));
                assert(contents(ids(sub_dir, below)) == below);
            }
            assert(value_at(contents, entries, rest) == value_at(contents, below, more));
        }
    } else {
        assert(entries.get(name) == entry);
    }
}

proof fn lemma_empty_value(contents: spec_fn(u64) -> Map<u64, EntryValue>, path: Seq<u64>)
    ensures
        value_at(contents, Map::empty(), path) is None,
{
}

proof fn lemma_tree_below(
    contents: spec_fn(u64) -> Map<u64, EntryValue>,
    dirs: Seq<Seq<u64>>,
    base: Seq<Map<u64, EntryValue>>,
    overrides: Map<Seq<u64>, Override>,
    ids: TreeIds,
    depth: nat,
    dir: Seq<u64>,
    rest: Seq<u64>,
)
    requires
        are_needed(dirs, overrides),
        is_within(dirs, depth),
        are_stored(contents, dirs, overridden(dirs, base, overrides), ids, depth),
        dirs.contains(dir),
        rest.len() > 0,
        dirs.contains(dir + rest),
    ensures
        ({
            let trees = overridden(dirs, base, overrides);
            let entries = final_tree(dirs, trees, ids, dir, (depth - dir.len()) as nat);
            value_at(contents, entries, rest) matches Some(EntryValue::Tree(id))
                ==> !contents(id).is_empty()
        }),
    decreases rest.len(),
{
    let trees = overridden(dirs, base, overrides);
    let here = (depth - dir.len()) as nat;
    let entries = final_tree(dirs, trees, ids, dir, here);
    let name = rest[0];
    let sub_dir = dir.push(name);
    let path = dir + rest;
    assert(entries.get(name) == final_entry(dirs, trees, ids, dir, name, here));
    assert(path.take(sub_dir.len() as int) =~= sub_dir);
    if rest.len() == 1 {
        assert(sub_dir =~= path);
    } else {
        let other = choose|other: Seq<u64>|
            overrides.contains_key(other) && #[trigger] is_below(other, path);
        assert(other.take(sub_dir.len() as int) =~= other.take(path.len() as int).take(
            sub_dir.len() as int,
        ));
        assert(is_below(other, sub_dir));
    }
    assert(dirs.contains(sub_dir));
    let sub_place = dirs.index_of(sub_dir);
    assert(0 <= sub_place < dirs.len() && dirs[sub_place] == sub_dir);
    assert(sub_dir.len() <= depth);
    assert((here - 1) as nat == (depth - sub_dir.len()) as nat);
    if rest.len() > 1 {
        assert(sub_dir + rest.skip(1) =~= path);
        lemma_tree_below(
            contents,
            dirs,
            base,
            overrides,
            ids,
            depth,
            sub_dir,
            rest.skip(1),
        );
    }
}

/// The root tree that is written holds what is final of the root directory.
proof fn lemma_root_is_final(
    dirs: Seq<Seq<u64>>,
    base: Seq<Map<u64, EntryValue>>,
    overrides: Map<Seq<u64>, Override>,
    ids: TreeIds,
    depth: nat,
    path: Seq<u64>,
)
    requires
        are_needed(dirs, overrides),
        is_within(dirs, depth),
        path.len() > 0,
        overrides.contains_key(path),
    ensures
        dirs.contains(Seq::<u64>::empty()),
        written_root(dirs, overridden(dirs, base, overrides), ids) == final_tree(
            dirs,
            overridden(dirs, base, overrides),
            ids,
            Seq::empty(),
            depth,
        ),
{
    let root = Seq::<u64>::empty();
    assert(path.take(0) =~= root);
    assert(is_below(path, root));
    assert(dirs.contains(root));
    lemma_needed_closed(dirs, overrides);
    lemma_written_root(dirs, overridden(dirs, base, overrides), ids, depth);
}

/// The tree that was written holds the overrides: what was set is there, and
/// what was removed is not. Where there is an override below another, only the
/// lower one is sure to be there; see [`lemma_cleared_overrides_hold`] for the
/// upper one.
pub proof fn lemma_overrides_hold(
    contents: spec_fn(u64) -> Map<u64, EntryValue>,
    dirs: Seq<Seq<u64>>,
    base: Seq<Map<u64, EntryValue>>,
    overrides: Map<Seq<u64>, Override>,
    ids: TreeIds,
    depth: nat,
    path: Seq<u64>,
)
    requires
        are_needed(dirs, overrides),
        base.len() == dirs.len(),
        is_within(dirs, depth),
        are_stored(contents, dirs, overridden(dirs, base, overrides), ids, depth),
        path.len() > 0,
        overrides.contains_key(path),
        !is_needed(overrides, path),
    ensures
        value_at(
            contents,
            written_root(dirs, overridden(dirs, base, overrides), ids),
            path,
        ) == (match overrides[path] {
            Override::Replace(value) => Some(value),
            Override::Tombstone => None,
        }),
{
    let root = Seq::<u64>::empty();
    lemma_root_is_final(dirs, base, overrides, ids, depth, path);
    assert(root + path =~= path);
    lemma_override_below(contents, dirs, base, overrides, ids, depth, root, path);
}

/// What was set at a path is there, and what was removed is not, also where
/// paths below it are removed, if nothing is left below it. So a file can take
/// the place of a directory. What was set is no tree then: an empty tree is
/// dropped.
pub proof fn lemma_cleared_overrides_hold(
    contents: spec_fn(u64) -> Map<u64, EntryValue>,
    base_tree_id: u64,
    dirs: Seq<Seq<u64>>,
    base: Seq<Map<u64, EntryValue>>,
    overrides: Map<Seq<u64>, Override>,
    ids: TreeIds,
    depth: nat,
    path: Seq<u64>,
)
    requires
        are_needed(dirs, overrides),
        is_within(dirs, depth),
        are_base_trees(contents, base_tree_id, dirs, base),
        are_stored(contents, dirs, overridden(dirs, base, overrides), ids, depth),
        path.len() > 0,
        overrides.contains_key(path),
        !(overrides[path] matches Override::Replace(EntryValue::Tree(_))),
        is_cleared(contents, base_tree_id, overrides, path),
    ensures
        value_at(
            contents,
            written_root(dirs, overridden(dirs, base, overrides), ids),
            path,
        ) == (match overrides[path] {
            Override::Replace(value) => Some(value),
            Override::Tombstone => None,
        }),
{
    let root = Seq::<u64>::empty();
    lemma_root_is_final(dirs, base, overrides, ids, depth, path);
    if is_needed(overrides, path) {
        assert(dirs.contains(path));
        lemma_nothing_left(
            contents,
            base_tree_id,
            dirs,
            base,
            overrides,
            ids,
            depth,
            path,
        );
    }
    assert(root + path =~= path);
    lemma_override_below(contents, dirs, base, overrides, ids, depth, root, path);
}

/// Below a path that was set or removed, the tree that was written holds what is
/// below the value that was set there: nothing, unless that is a tree.
pub proof fn lemma_below_overrides(
    contents: spec_fn(u64) -> Map<u64, EntryValue>,
    dirs: Seq<Seq<u64>>,
    base: Seq<Map<u64, EntryValue>>,
    overrides: Map<Seq<u64>, Override>,
    ids: TreeIds,
    depth: nat,
    path: Seq<u64>,
    rest: Seq<u64>,
)
    requires
        are_needed(dirs, overrides),
        base.len() == dirs.len(),
        is_within(dirs, depth),
        are_stored(contents, dirs, overridden(dirs, base, overrides), ids, depth),
        path.len() > 0,
        rest.len() > 0,
        overrides.contains_key(path),
        !is_needed(overrides, path),
    ensures
        value_at(
            contents,
            written_root(dirs, overridden(dirs, base, overrides), ids),
            path + rest,
        ) == (match overrides[path] {
            Override::Replace(EntryValue::Tree(id)) => value_at(contents, contents(id), rest),
            _ => None,
        }),
{
    lemma_overrides_hold(contents, dirs, base, overrides, ids, depth, path);
    lemma_value_below(
        contents,
        written_root(dirs, overridden(dirs, base, overrides), ids),
        path,
        rest,
    );
}

/// No directory above a path that was set or removed is left as an empty tree.
pub proof fn lemma_no_empty_tree(
    contents: spec_fn(u64) -> Map<u64, EntryValue>,
    dirs: Seq<Seq<u64>>,
    base: Seq<Map<u64, EntryValue>>,
    overrides: Map<Seq<u64>, Override>,
    ids: TreeIds,
    depth: nat,
    dir: Seq<u64>,
    path: Seq<u64>,
)
    requires
        are_needed(dirs, overrides),
        base.len() == dirs.len(),
        is_within(dirs, depth),
        are_stored(contents, dirs, overridden(dirs, base, overrides), ids, depth),
        overrides.contains_key(path),
        dir.len() > 0,
        is_below(path, dir),
    ensures
        value_at(
            contents,
            written_root(dirs, overridden(dirs, base, overrides), ids),
            dir,
        ) matches Some(EntryValue::Tree(id)) ==> !contents(id).is_empty(),
{
    let root = Seq::<u64>::empty();
    lemma_root_is_final(dirs, base, overrides, ids, depth, path);
    assert(root + dir =~= dir);
    assert(dirs.contains(dir));
    lemma_tree_below(contents, dirs, base, overrides, ids, depth, root, dir);
}

/// The tree that was written holds what the base tree holds at every path that
/// has no override at it or above it, and none below it either. Where the base
/// tree has a file or nothing, that stays too if the overrides below it only
/// remove.
pub proof fn lemma_rest_is_kept(
    contents: spec_fn(u64) -> Map<u64, EntryValue>,
    base_tree_id: u64,
    dirs: Seq<Seq<u64>>,
    base: Seq<Map<u64, EntryValue>>,
    overrides: Map<Seq<u64>, Override>,
    ids: TreeIds,
    depth: nat,
    path: Seq<u64>,
)
    requires
        are_needed(dirs, overrides),
        dirs.len() > 0,
        is_within(dirs, depth),
        are_base_trees(contents, base_tree_id, dirs, base),
        are_stored(contents, dirs, overridden(dirs, base, overrides), ids, depth),
        path.len() > 0,
        is_kept(overrides, path, value_at(contents, contents(base_tree_id), path)),
    ensures
        value_at(
            contents,
            written_root(dirs, overridden(dirs, base, overrides), ids),
            path,
        ) == value_at(contents, contents(base_tree_id), path),
{
    let root = Seq::<u64>::empty();
    let trees = overridden(dirs, base, overrides);
    lemma_needed_closed(dirs, overrides);
    if dirs[0].len() > 0 {
        lemma_parent_place(dirs, 0);
    }
    assert(dirs[0] =~= root);
    lemma_place(dirs, 0);
    assert(dirs.contains(root));
    assert(base[0] == contents(base_tree_id)) by {
        assert(base_tree_of(base_tree_id, dirs, base, 0) == Some(base_tree_id));
    }
    lemma_written_root(dirs, trees, ids, depth);
    assert(root + path =~= path);
    lemma_kept_below(
        contents,
        base_tree_id,
        dirs,
        base,
        overrides,
        ids,
        depth,
        root,
        path,
    );
}

} // verus!
