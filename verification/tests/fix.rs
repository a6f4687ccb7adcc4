//! Fixing files in commits.

use std::cell::RefCell;
use std::collections::BTreeMap;
use std::collections::BTreeSet;
use std::collections::HashMap;
use std::rc::Rc;

use indexmap::IndexSet;
use jj_core::commit::Commit;
use jj_core::fix::collect_changed_files;
use jj_core::fix::collect_files_to_fix;
use jj_core::fix::compute_changed_ranges;
use jj_core::fix::compute_file_line_count;
use jj_core::fix::fix_files;
use jj_core::fix::get_base_commit_map;
use jj_core::fix::CommitFix;
use jj_core::fix::CommitToFix;
use jj_core::fix::DiffHunk;
use jj_core::fix::DiffHunkKind;
use jj_core::fix::FileFixer;
use jj_core::fix::FileToFix;
use jj_core::fix::FixError;
use jj_core::fix::FixSummary;
use jj_core::fix::LineRange;
use jj_core::fix::ParallelFileFixer;
use jj_core::fix::PathValue;
use jj_core::fix::RegionsToFormat;
use jj_core::fix::TreeDiffEntry;
use jj_core::fix::TreeValue;

/// Texts that are known by numbers.
#[derive(Default)]
struct Texts {
    texts: Vec<String>,
}

impl Texts {
    fn id(&mut self, text: &str) -> u64 {
        let position = self.texts.iter().position(|known| known == text);
        let position = position.unwrap_or_else(|| {
            self.texts.push(text.to_owned());
            self.texts.len() - 1
        });
        position as u64
    }

    fn text(&self, id: u64) -> String {
        self.texts[id as usize].clone()
    }
}

/// The paths and the contents of files.
#[derive(Default)]
struct Store {
    paths: Texts,
    contents: Texts,
}

type Terms = Vec<Option<TreeValue>>;
type Tree = BTreeMap<u64, Terms>;

/// A repository. The root commit is the first one.
struct Repo {
    store: Rc<RefCell<Store>>,
    parents: Vec<Vec<u64>>,
    trees: Vec<Tree>,
}

fn copy_value(value: &Option<TreeValue>) -> Option<TreeValue> {
    match value {
        Some(TreeValue::File {
            id,
            executable,
            copy_id,
        }) => Some(TreeValue::File {
            id: *id,
            executable: *executable,
            copy_id: *copy_id,
        }),
        Some(TreeValue::Other(id)) => Some(TreeValue::Other(*id)),
        None => None,
    }
}

fn copy_terms(terms: &Terms) -> Terms {
    terms.iter().map(copy_value).collect()
}

fn terms_at(tree: &Tree, path: u64) -> Terms {
    match tree.get(&path) {
        Some(terms) => copy_terms(terms),
        None => vec![None],
    }
}

impl Repo {
    fn init() -> Self {
        Repo {
            store: Rc::new(RefCell::new(Store::default())),
            parents: vec![vec![]],
            trees: vec![Tree::new()],
        }
    }

    fn tree(&self, files: &[(&str, &str)]) -> Tree {
        let mut store = self.store.borrow_mut();
        files
            .iter()
            .map(|(path, content)| {
                let id = store.contents.id(content);
                let value = Some(TreeValue::File {
                    id,
                    executable: false,
                    copy_id: 0,
                });
                (store.paths.id(path), vec![value])
            })
            .collect()
    }

    fn commit_tree(&mut self, parents: &[u64], tree: Tree) -> u64 {
        self.parents.push(parents.to_vec());
        self.trees.push(tree);
        self.trees.len() as u64 - 1
    }

    fn commit(&mut self, parents: &[u64], files: &[(&str, &str)]) -> u64 {
        let tree = self.tree(files);
        self.commit_tree(parents, tree)
    }

    fn ancestors(&self, id: u64) -> BTreeSet<u64> {
        let mut ancestors = BTreeSet::from([id]);
        for parent in &self.parents[id as usize] {
            ancestors.extend(self.ancestors(*parent));
        }
        ancestors
    }

    fn merge_trees(&self, ids: &[u64]) -> Tree {
        let mut merged = Tree::new();
        let mut seen: BTreeSet<u64> = BTreeSet::new();
        for id in ids {
            let other = &self.trees[*id as usize];
            let ancestors = self.ancestors(*id);
            let base = match ancestors.intersection(&seen).max() {
                Some(base) => &self.trees[*base as usize],
                None => &self.trees[0],
            };
            let paths: BTreeSet<u64> = merged.keys().chain(other.keys()).copied().collect();
            for path in paths {
                let current = terms_at(&merged, path);
                let base = terms_at(base, path);
                let other = terms_at(other, path);
                let terms = if other == base {
                    current
                } else if current == base || seen.is_empty() {
                    other
                } else {
                    let mut terms = current;
                    terms.extend(base);
                    terms.extend(other);
                    terms
                };
                merged.insert(path, terms);
            }
            seen.extend(ancestors);
        }
        merged
    }

    /// The descendants of the commits, children first.
    fn descendants(&self, roots: &[u64]) -> Vec<Commit> {
        (0..self.trees.len() as u64)
            .rev()
            .filter(|id| {
                let ancestors = self.ancestors(*id);
                roots.iter().any(|root| ancestors.contains(root))
            })
            .map(|id| Commit {
                id,
                parent_ids: self.parents[id as usize].clone(),
            })
            .collect()
    }

    fn fix<F: FileFixer>(
        &mut self,
        roots: &[u64],
        include_unchanged_files: bool,
        fixer: &mut F,
    ) -> Result<FixSummary, FixError> {
        let commits = self.descendants(roots);
        let bases = get_base_commit_map(&commits);
        let to_fix: Vec<CommitToFix> = commits
            .iter()
            .map(|commit| {
                let base_ids: Vec<u64> = bases[&commit.id].iter().copied().collect();
                let base_tree = self.merge_trees(&base_ids);
                let tree = &self.trees[commit.id as usize];
                let empty = Tree::new();
                let diff_base = if include_unchanged_files {
                    &empty
                } else {
                    &base_tree
                };
                let paths: BTreeSet<u64> = diff_base.keys().chain(tree.keys()).copied().collect();
                let entries = paths
                    .into_iter()
                    .filter(|path| terms_at(diff_base, *path) != terms_at(tree, *path))
                    .map(|path| TreeDiffEntry {
                        path,
                        before: terms_at(diff_base, path),
                        base: terms_at(&base_tree, path),
                        after: terms_at(tree, path),
                    })
                    .collect();
                CommitToFix {
                    id: commit.id,
                    entries,
                }
            })
            .collect();
        let fixed = fix_files(&to_fix, include_unchanged_files, fixer)?;
        let mut summary = FixSummary::default();
        for commit in commits.iter().rev() {
            let values: Vec<PathValue> = fixed.plan.commit_paths[&commit.id]
                .iter()
                .map(|path| PathValue {
                    path: *path,
                    terms: terms_at(&self.trees[commit.id as usize], *path),
                })
                .collect();
            let parents_changed = commit
                .parent_ids
                .iter()
                .any(|parent| summary.rewrites.contains_key(parent));
            let fix = fixed.fix_commit(commit.id, &values, parents_changed);
            let mut tree: Tree = self.trees[commit.id as usize]
                .iter()
                .map(|(path, terms)| (*path, copy_terms(terms)))
                .collect();
            if let CommitFix::Rewrite(changes) = &fix {
                for change in changes {
                    tree.insert(change.path, copy_terms(&change.terms));
                }
            }
            let parents: Vec<u64> = commit
                .parent_ids
                .iter()
                .map(|parent| *summary.rewrites.get(parent).unwrap_or(parent))
                .collect();
            let new_id = match fix {
                CommitFix::Keep => commit.id,
                _ => self.commit_tree(&parents, tree),
            };
            summary.record(commit.id, &fix, new_id);
        }
        Ok(summary)
    }

    fn check_tree(&self, summary: &FixSummary, id: u64, files: &[(&str, &str)]) {
        let new_id = summary.rewrites[&id];
        assert_eq!(self.trees[new_id as usize], self.tree(files));
    }
}

/// A fixer that knows what to make of which files, and expects no others.
struct TestFileFixer {
    store: Rc<RefCell<Store>>,
    replacements: HashMap<FileToFix, String>,
}

impl TestFileFixer {
    fn new(repo: &Repo) -> Self {
        TestFileFixer {
            store: repo.store.clone(),
            replacements: HashMap::new(),
        }
    }

    fn add_replacement(&mut self, path: &str, base: Option<&str>, old: &str, new: &str) {
        let mut store = self.store.borrow_mut();
        let file = FileToFix {
            file_id: store.contents.id(old),
            base_file_id: base.map(|content| store.contents.id(content)),
            repo_path: store.paths.id(path),
        };
        self.replacements.insert(file, new.to_owned());
    }
}

impl FileFixer for TestFileFixer {
    fn fix_files(
        &mut self,
        files_to_fix: &Vec<FileToFix>,
    ) -> Result<Vec<(FileToFix, u64)>, FixError> {
        let mut store = self.store.borrow_mut();
        let mut changed = vec![];
        for file in files_to_fix {
            let Some(content) = self.replacements.remove(file) else {
                let path = store.paths.text(file.repo_path);
                let content = store.contents.text(file.file_id);
                return Err(FixError::FixContent(format!(
                    "Forced failure: Unexpected fix request:\npath: {path}\nold_content: \
                     {content:?}\n"
                )));
            };
            changed.push((*file, store.contents.id(&content)));
        }
        assert!(self.replacements.is_empty());
        Ok(changed)
    }
}

/// Makes what starts with "fixme" upper case, and fails on what starts with
/// "error".
fn fix_file(store: &RefCell<Store>, file: FileToFix) -> Result<Option<u64>, FixError> {
    let mut store = store.borrow_mut();
    let content = store.contents.text(file.file_id);
    if let Some(rest) = content.strip_prefix("fixme:") {
        Ok(Some(store.contents.id(&rest.to_ascii_uppercase())))
    } else if let Some(rest) = content.strip_prefix("error:") {
        Err(FixError::FixContent(format!("Forced failure: {rest}")))
    } else {
        Ok(None)
    }
}

fn fix_parallel(repo: &mut Repo, roots: &[u64]) -> Result<FixSummary, FixError> {
    let store = repo.store.clone();
    let mut fixer = ParallelFileFixer::new(move |file: FileToFix| fix_file(&store, file));
    repo.fix(roots, false, &mut fixer)
}

fn content_error(result: Result<FixSummary, FixError>) -> String {
    match result {
        Err(FixError::FixContent(message)) => message,
        _ => panic!("the fixer did not fail"),
    }
}

#[test]
fn test_fix_added_and_modified_files() {
    let mut repo = Repo::init();
    let commit_a = repo.commit(&[0], &[("file1", "unformatted")]);
    let commit_b = repo.commit(&[commit_a], &[("file1", "modified")]);
    let mut fixer = TestFileFixer::new(&repo);
    fixer.add_replacement("file1", None, "unformatted", "Formatted");
    fixer.add_replacement("file1", None, "modified", "Formatted");
    let summary = repo.fix(&[commit_a], false, &mut fixer).unwrap();

    assert_eq!(summary.rewrites.len(), 2);
    assert!(summary.rewrites.contains_key(&commit_a));
    assert!(summary.rewrites.contains_key(&commit_b));
    assert_eq!(summary.num_checked_commits, 2);
    assert_eq!(summary.num_fixed_commits, 2);
    repo.check_tree(&summary, commit_a, &[("file1", "Formatted")]);
    repo.check_tree(&summary, commit_b, &[("file1", "Formatted")]);
}

#[test]
fn test_fixer_does_not_change_content() {
    let mut repo = Repo::init();
    let commit_a = repo.commit(&[0], &[("file1", "Formatted")]);
    let mut fixer = TestFileFixer::new(&repo);
    fixer.add_replacement("file1", None, "Formatted", "Formatted");
    let summary = repo.fix(&[commit_a], false, &mut fixer).unwrap();

    assert!(summary.rewrites.is_empty());
    assert_eq!(summary.num_checked_commits, 1);
    assert_eq!(summary.num_fixed_commits, 0);
}

#[test]
fn test_empty_commit() {
    let mut repo = Repo::init();
    let commit_a = repo.commit(&[0], &[]);
    let mut fixer = TestFileFixer::new(&repo);
    let summary = repo.fix(&[commit_a], false, &mut fixer).unwrap();

    assert!(summary.rewrites.is_empty());
    assert_eq!(summary.num_checked_commits, 1);
    assert_eq!(summary.num_fixed_commits, 0);
}

#[test]
fn test_fix_empty_revset() {
    let mut repo = Repo::init();
    let mut fixer = TestFileFixer::new(&repo);
    let summary = repo.fix(&[], false, &mut fixer).unwrap();
    assert!(summary.rewrites.is_empty());
}

#[test]
fn test_fixer_fails() {
    let mut repo = Repo::init();
    let commit_a = repo.commit(&[0], &[("file1", "unformatted")]);
    let mut fixer = TestFileFixer::new(&repo);
    let result = repo.fix(&[commit_a], false, &mut fixer);
    assert_eq!(
        content_error(result),
        "Forced failure: Unexpected fix request:\npath: file1\nold_content: \"unformatted\"\n"
    );
}

#[test]
fn test_unchanged_file_is_not_fixed() {
    let mut repo = Repo::init();
    let commit_a = repo.commit(&[0], &[("file1", "unformatted")]);
    let commit_b = repo.commit(&[commit_a], &[("file1", "unformatted")]);
    let mut fixer = TestFileFixer::new(&repo);
    let summary = repo.fix(&[commit_b], false, &mut fixer).unwrap();

    assert!(summary.rewrites.is_empty());
    assert_eq!(summary.num_checked_commits, 1);
    assert_eq!(summary.num_fixed_commits, 0);
}

#[test]
fn test_fix_include_unchanged_files() {
    let mut repo = Repo::init();
    // c1: changed.txt, unchanged.txt
    let c1 = repo.commit(
        &[0],
        &[("changed.txt", "base"), ("unchanged.txt", "unformatted 2")],
    );
    // c2: changed.txt, unchanged.txt, newfile.txt
    let c2 = repo.commit(
        &[c1],
        &[
            ("changed.txt", "unformatted 1"),
            ("unchanged.txt", "unformatted 2"),
            ("newfile.txt", "unformatted 3"),
        ],
    );
    let mut fixer = TestFileFixer::new(&repo);
    fixer.add_replacement("changed.txt", Some("base"), "unformatted 1", "Formatted 1");
    fixer.add_replacement(
        "unchanged.txt",
        Some("unformatted 2"),
        "unformatted 2",
        "sorted includes\nunformatted 2",
    );
    fixer.add_replacement("newfile.txt", None, "unformatted 3", "Formatted 3");
    let summary = repo.fix(&[c2], true, &mut fixer).unwrap();

    assert_eq!(summary.rewrites.len(), 1);
    assert!(summary.rewrites.contains_key(&c2));
    repo.check_tree(
        &summary,
        c2,
        &[
            ("changed.txt", "Formatted 1"),
            ("unchanged.txt", "sorted includes\nunformatted 2"),
            ("newfile.txt", "Formatted 3"),
        ],
    );
}

/// If a descendant is already correctly formatted, it should still be rewritten
/// but its tree should be preserved.
#[test]
fn test_already_fixed_descendant() {
    let mut repo = Repo::init();
    let commit_a = repo.commit(&[0], &[("file1", "unformatted")]);
    let commit_b = repo.commit(&[commit_a], &[("file1", "Formatted")]);
    let mut fixer = TestFileFixer::new(&repo);
    fixer.add_replacement("file1", None, "unformatted", "Formatted");
    fixer.add_replacement("file1", None, "Formatted", "Formatted");
    let summary = repo.fix(&[commit_a], true, &mut fixer).unwrap();

    assert_eq!(summary.rewrites.len(), 2);
    assert!(summary.rewrites.contains_key(&commit_a));
    assert!(summary.rewrites.contains_key(&commit_b));
    assert_eq!(summary.num_checked_commits, 2);
    assert_eq!(summary.num_fixed_commits, 1);
    repo.check_tree(&summary, commit_a, &[("file1", "Formatted")]);
    repo.check_tree(&summary, commit_b, &[("file1", "Formatted")]);
}

#[test]
fn test_parallel_fixer_basic() {
    let mut repo = Repo::init();
    let commit_a = repo.commit(&[0], &[("file1", "fixme:content")]);
    let summary = fix_parallel(&mut repo, &[commit_a]).unwrap();

    assert_eq!(summary.rewrites.len(), 1);
    assert!(summary.rewrites.contains_key(&commit_a));
    assert_eq!(summary.num_checked_commits, 1);
    assert_eq!(summary.num_fixed_commits, 1);
    repo.check_tree(&summary, commit_a, &[("file1", "CONTENT")]);
}

/// A commit with a hundred files.
fn commit_hundred(repo: &mut Repo, content: impl Fn(usize) -> String) -> u64 {
    let files: Vec<(String, String)> = (0..100)
        .map(|i| (format!("file{i}"), content(i)))
        .collect();
    let files: Vec<(&str, &str)> = files
        .iter()
        .map(|(path, content)| (path.as_str(), content.as_str()))
        .collect();
    repo.commit(&[0], &files)
}

#[test]
fn test_parallel_fixer_fixes_files() {
    let mut repo = Repo::init();
    let commit_a = commit_hundred(&mut repo, |i| format!("fixme:content{i}"));
    let summary = fix_parallel(&mut repo, &[commit_a]).unwrap();
    let expected = commit_hundred(&mut repo, |i| format!("CONTENT{i}"));

    assert_eq!(summary.rewrites.len(), 1);
    assert!(summary.rewrites.contains_key(&commit_a));
    assert_eq!(summary.num_checked_commits, 1);
    assert_eq!(summary.num_fixed_commits, 1);
    let new_commit_a = summary.rewrites[&commit_a];
    assert_eq!(
        repo.trees[new_commit_a as usize],
        repo.trees[expected as usize]
    );
}

#[test]
fn test_parallel_fixer_does_not_change_content() {
    let mut repo = Repo::init();
    let commit_a = commit_hundred(&mut repo, |i| format!("content{i}"));
    let summary = fix_parallel(&mut repo, &[commit_a]).unwrap();

    assert!(summary.rewrites.is_empty());
    assert_eq!(summary.num_checked_commits, 1);
    assert_eq!(summary.num_fixed_commits, 0);
}

#[test]
fn test_parallel_fixer_no_changes_upon_partial_failure() {
    let mut repo = Repo::init();
    let commit_a = commit_hundred(&mut repo, |i| {
        if i == 7 {
            format!("error:boo{i}")
        } else if i % 3 == 0 {
            format!("fixme:content{i}")
        } else {
            format!("foobar:{i}")
        }
    });
    let result = fix_parallel(&mut repo, &[commit_a]);
    assert_eq!(content_error(result), "Forced failure: boo7");
}

#[test]
fn test_fix_multiple_revisions() {
    // D
    // | C
    // | B
    // |/
    // A
    let mut repo = Repo::init();
    let commit_a = repo.commit(&[0], &[("file1", "unformatted")]);
    let commit_b = repo.commit(&[commit_a], &[("file2", "unformatted")]);
    let commit_c = repo.commit(&[commit_b], &[("file3", "unformatted")]);
    let commit_d = repo.commit(&[commit_a], &[("file4", "unformatted")]);
    let mut fixer = TestFileFixer::new(&repo);
    for path in ["file1", "file2", "file3", "file4"] {
        fixer.add_replacement(path, None, "unformatted", "Formatted");
    }
    let summary = repo.fix(&[commit_a], false, &mut fixer).unwrap();

    repo.check_tree(&summary, commit_a, &[("file1", "Formatted")]);
    repo.check_tree(&summary, commit_b, &[("file2", "Formatted")]);
    repo.check_tree(&summary, commit_c, &[("file3", "Formatted")]);
    repo.check_tree(&summary, commit_d, &[("file4", "Formatted")]);
}

#[test]
fn test_get_base_commit_map_chain() {
    // We have a chain of commits.
    //
    // D
    // |
    // C
    // |
    // B
    // |
    // A
    let mut repo = Repo::init();
    let commit_a = repo.commit(&[0], &[("file1", "commit 1: content")]);
    let commit_b = repo.commit(&[commit_a], &[("file1", "commit 2: content")]);
    let commit_c = repo.commit(&[commit_b], &[("file1", "commit 3: content")]);
    let commit_d = repo.commit(&[commit_c], &[("file1", "commit 4: content")]);

    // Commits are expected to be sorted in child to parent order.
    let base_commit_map = get_base_commit_map(&repo.descendants(&[commit_b]));

    let expected_base_commit_map: HashMap<u64, IndexSet<u64>> = HashMap::from([
        (commit_d, IndexSet::from([commit_a])),
        (commit_c, IndexSet::from([commit_a])),
        (commit_b, IndexSet::from([commit_a])),
    ]);
    assert_eq!(base_commit_map, expected_base_commit_map);
}

#[test]
fn test_fix_complex_merge_with_base_map() {
    // We have a merge of commits
    //     E
    //    / \
    //   C   D
    //   | \ |
    //   A   B (roots)
    let mut repo = Repo::init();
    let commit_a = repo.commit(&[0], &[("file1", "base A")]);
    let commit_b = repo.commit(&[0], &[("file1", "base B")]);
    let commit_c = repo.commit(&[commit_a, commit_b], &[("file1", "unformatted C")]);
    let commit_d = repo.commit(&[commit_b], &[("file1", "base D")]);
    let commit_e = repo.commit(&[commit_c, commit_d], &[("file1", "unformatted E")]);

    let base_commit_map = get_base_commit_map(&[
        Commit {
            id: commit_e,
            parent_ids: vec![commit_c, commit_d],
        },
        Commit {
            id: commit_c,
            parent_ids: vec![commit_a, commit_b],
        },
    ]);

    // Should be {e: {a, b, d}, c: {a, b}}
    let expected_base_commit_map: HashMap<u64, IndexSet<u64>> = HashMap::from([
        (commit_e, IndexSet::from([commit_a, commit_b, commit_d])),
        (commit_c, IndexSet::from([commit_a, commit_b])),
    ]);
    assert_eq!(base_commit_map, expected_base_commit_map);

    let mut fixer = TestFileFixer::new(&repo);
    fixer.add_replacement("file1", Some("base A"), "unformatted C", "Formatted C");
    fixer.add_replacement("file1", Some("base A"), "unformatted E", "Formatted E");
    let summary = repo.fix(&[commit_e, commit_c], false, &mut fixer).unwrap();

    // C and E should be fixed.
    assert_eq!(summary.rewrites.len(), 2);
    assert!(summary.rewrites.contains_key(&commit_c));
    assert!(summary.rewrites.contains_key(&commit_e));
    repo.check_tree(&summary, commit_c, &[("file1", "Formatted C")]);
    repo.check_tree(&summary, commit_e, &[("file1", "Formatted E")]);
}

#[test]
fn test_fix_diamond_merge_with_base_map() {
    // We have a diamond merge:
    //
    //   E
    //  / \
    // C   D
    //  \ /
    //   B
    let mut repo = Repo::init();
    let commit_b = repo.commit(&[0], &[("file1", "base B")]);
    let commit_c = repo.commit(&[commit_b], &[("file1", "unformatted C")]);
    let commit_d = repo.commit(&[commit_b], &[("file1", "base D")]);
    let commit_e = repo.commit(&[commit_c, commit_d], &[("file1", "unformatted E")]);

    // We are fixing e and c.
    let base_commit_map = get_base_commit_map(&[
        Commit {
            id: commit_e,
            parent_ids: vec![commit_c, commit_d],
        },
        Commit {
            id: commit_c,
            parent_ids: vec![commit_b],
        },
    ]);

    // Should be {e: {b, d}, c: {b}}
    let expected_base_commit_map: HashMap<u64, IndexSet<u64>> = HashMap::from([
        (commit_e, IndexSet::from([commit_b, commit_d])),
        (commit_c, IndexSet::from([commit_b])),
    ]);
    assert_eq!(base_commit_map, expected_base_commit_map);

    let mut fixer = TestFileFixer::new(&repo);
    fixer.add_replacement("file1", Some("base B"), "unformatted C", "Formatted C");
    fixer.add_replacement("file1", Some("base D"), "unformatted E", "Formatted E");
    let summary = repo.fix(&[commit_e, commit_c], false, &mut fixer).unwrap();

    // C and E should be fixed.
    assert_eq!(summary.rewrites.len(), 2);
    assert!(summary.rewrites.contains_key(&commit_c));
    assert!(summary.rewrites.contains_key(&commit_e));
    repo.check_tree(&summary, commit_c, &[("file1", "Formatted C")]);
    repo.check_tree(&summary, commit_e, &[("file1", "Formatted E")]);
}

#[test]
fn test_fix_sequence_formatted_from_base() {
    let mut repo = Repo::init();
    let c1 = repo.commit(&[0], &[("foo", "base")]);
    let c2 = repo.commit(&[c1], &[("foo", "unformatted 1")]);
    let c3 = repo.commit(&[c2], &[("foo", "unformatted 2")]);
    // Run fix on c2.
    let mut fixer = TestFileFixer::new(&repo);
    fixer.add_replacement("foo", Some("base"), "unformatted 1", "Formatted 1");
    fixer.add_replacement("foo", Some("base"), "unformatted 2", "Formatted 2");
    let summary = repo.fix(&[c2], false, &mut fixer).unwrap();

    assert_eq!(summary.rewrites.len(), 2);
    assert!(summary.rewrites.contains_key(&c2));
    assert!(summary.rewrites.contains_key(&c3));
    repo.check_tree(&summary, c2, &[("foo", "Formatted 1")]);
    repo.check_tree(&summary, c3, &[("foo", "Formatted 2")]);
}

#[test]
fn test_fix_with_forking_commits() {
    let mut repo = Repo::init();
    // Two linear commits.
    let c1 = repo.commit(&[0], &[("foo", "initial")]);
    let c2 = repo.commit(&[c1], &[("foo", "base")]);
    // Forked commits.
    let c3 = repo.commit(&[c2], &[("foo", "unformatted 1")]);
    let c4 = repo.commit(&[c2], &[("foo", "unformatted 2")]);
    // Run fix on c3 and c4 (i.e. the forked commits).
    let mut fixer = TestFileFixer::new(&repo);
    fixer.add_replacement("foo", Some("base"), "unformatted 1", "Formatted 1");
    fixer.add_replacement("foo", Some("base"), "unformatted 2", "Formatted 2");
    let summary = repo.fix(&[c3, c4], false, &mut fixer).unwrap();

    assert_eq!(summary.rewrites.len(), 2);
    assert!(summary.rewrites.contains_key(&c3));
    assert!(summary.rewrites.contains_key(&c4));
    repo.check_tree(&summary, c3, &[("foo", "Formatted 1")]);
    repo.check_tree(&summary, c4, &[("foo", "Formatted 2")]);
}

#[test]
fn test_fix_with_merging_commits() {
    let mut repo = Repo::init();
    let c1 = repo.commit(&[0], &[("foo", "base")]);
    // Two forked commits.
    let c2 = repo.commit(&[c1], &[("foo", "left")]);
    let c3 = repo.commit(&[c1], &[("foo", "right")]);
    // c4: "unformatted" (Merge c2, c3)
    let c4 = repo.commit(&[c2, c3], &[("foo", "unformatted")]);
    // Run fix on c4 with merging base.
    let mut fixer = TestFileFixer::new(&repo);
    fixer.add_replacement("foo", Some("left"), "unformatted", "Formatted");
    let summary = repo.fix(&[c4], false, &mut fixer).unwrap();

    assert_eq!(summary.rewrites.len(), 1);
    assert!(summary.rewrites.contains_key(&c4));
    repo.check_tree(&summary, c4, &[("foo", "Formatted")]);
}

#[test]
fn test_fix_conflicted_base_commit() {
    let mut repo = Repo::init();
    let c1 = repo.commit(&[0], &[("foo", "base")]);
    // Left and right side of the conflict.
    let c2 = repo.commit(&[c1], &[("foo", "left")]);
    let c3 = repo.commit(&[c1], &[("foo", "right")]);
    // c4: Merge(c2, c3). Creates conflict in "foo".
    let c4_tree = repo.merge_trees(&[c2, c3]);
    let c4 = repo.commit_tree(&[c2, c3], c4_tree);
    // c5: "unformatted"
    let c5 = repo.commit(&[c4], &[("foo", "unformatted")]);
    // Run fix on c5.
    let mut fixer = TestFileFixer::new(&repo);
    fixer.add_replacement("foo", Some("left"), "unformatted", "Formatted");
    let summary = repo.fix(&[c5], false, &mut fixer).unwrap();

    assert_eq!(summary.rewrites.len(), 1);
    assert!(summary.rewrites.contains_key(&c5));
    repo.check_tree(&summary, c5, &[("foo", "Formatted")]);
}

#[test]
fn test_fix_conflicted_current_commit() {
    let mut repo = Repo::init();
    let c1 = repo.commit(&[0], &[("foo", "base")]);
    // Left and right side of the conflict.
    let c2_left = repo.commit(&[c1], &[("foo", "left")]);
    let c2_right = repo.commit(&[c1], &[("foo", "right")]);
    // c2: Merge(c2_left, c2_right) -> Conflict
    let c2_tree = repo.merge_trees(&[c2_left, c2_right]);
    let c2 = repo.commit_tree(&[c2_left, c2_right], c2_tree);
    // c3: "unformatted"
    let c3 = repo.commit(&[c2], &[("foo", "unformatted")]);
    // Run fix on c2 and c3.
    let mut fixer = TestFileFixer::new(&repo);
    fixer.add_replacement("foo", Some("left"), "unformatted", "Formatted");
    let summary = repo.fix(&[c2, c3], false, &mut fixer).unwrap();

    // c2 should not be rewritten because it matches the merge of its parents
    assert_eq!(summary.rewrites.len(), 1);
    assert!(summary.rewrites.contains_key(&c3));
    repo.check_tree(&summary, c3, &[("foo", "Formatted")]);
}

#[test]
fn test_fix_reverts_commit_to_empty() {
    let mut repo = Repo::init();
    // Base commit: "Formatted\n"
    let c1 = repo.commit(&[0], &[("file", "Formatted\n")]);
    // Child commit: "unformatted\n"
    let c2 = repo.commit(&[c1], &[("file", "unformatted\n")]);
    // Run fix on c2.
    let mut fixer = TestFileFixer::new(&repo);
    fixer.add_replacement("file", Some("Formatted\n"), "unformatted\n", "Formatted\n");
    let summary = repo.fix(&[c2], false, &mut fixer).unwrap();

    assert_eq!(summary.rewrites.len(), 1);
    assert!(summary.rewrites.contains_key(&c2));
    repo.check_tree(&summary, c2, &[("file", "Formatted\n")]);
}

#[test]
fn test_fix_renamed_file() {
    let mut repo = Repo::init();
    // Base: file_a = "unformatted\n"
    let c1 = repo.commit(&[0], &[("file_a", "unformatted\n")]);
    // Child: file_b = "unformatted\n"
    let c2 = repo.commit(&[c1], &[("file_b", "unformatted\n")]);
    // Run fix on c2.
    let mut fixer = TestFileFixer::new(&repo);
    fixer.add_replacement("file_b", None, "unformatted\n", "Formatted\n");
    let summary = repo.fix(&[c2], false, &mut fixer).unwrap();

    assert_eq!(summary.rewrites.len(), 1);
    assert!(summary.rewrites.contains_key(&c2));
    // Since we are not using copy tracking right now, we are doing the diff against
    // an empty tree. Thus, we format the whole file.
    repo.check_tree(&summary, c2, &[("file_b", "Formatted\n")]);
}

#[test]
fn test_fix_empty_file_not_formatted() {
    let mut repo = Repo::init();
    // Base: "content\n"
    let c1 = repo.commit(&[0], &[("file", "content\n")]);
    // Child: ""
    let c2 = repo.commit(&[c1], &[("file", "")]);
    // Run fix on c2.
    let mut fixer = TestFileFixer::new(&repo);
    fixer.add_replacement("file", Some("content\n"), "", "");
    let summary = repo.fix(&[c2], false, &mut fixer).unwrap();

    // Empty files are not formatted when include_unchanged_files is false.
    assert!(summary.rewrites.is_empty());
}

#[test]
fn test_fix_forking_commits_same_file_id_different_base_content() {
    let mut repo = Repo::init();
    let c_a = repo.commit(&[0], &[("file", "base A")]);
    let c_b = repo.commit(&[0], &[("file", "base B")]);
    // Same file content / FileId but different base commits
    // c1 has parent A
    let c1 = repo.commit(&[c_a], &[("file", "unformatted")]);
    // c2 has parent B
    let c2 = repo.commit(&[c_b], &[("file", "unformatted")]);
    // Run fix on c1 and c2.
    let mut fixer = TestFileFixer::new(&repo);
    fixer.add_replacement("file", Some("base A"), "unformatted", "Formatted A");
    fixer.add_replacement("file", Some("base B"), "unformatted", "Formatted B");
    let summary = repo.fix(&[c1, c2], false, &mut fixer).unwrap();

    assert_eq!(summary.rewrites.len(), 2);
    assert!(summary.rewrites.contains_key(&c1));
    assert!(summary.rewrites.contains_key(&c2));
    repo.check_tree(&summary, c1, &[("file", "Formatted A")]);
    repo.check_tree(&summary, c2, &[("file", "Formatted B")]);
}

fn changed(hunks: &[(DiffHunkKind, &str)]) -> RegionsToFormat {
    let current: String = hunks.iter().map(|(_, text)| *text).collect();
    let hunks: Vec<DiffHunk> = hunks
        .iter()
        .map(|(kind, text)| DiffHunk {
            kind: *kind,
            base: match kind {
                DiffHunkKind::Matching => text.as_bytes().to_vec(),
                DiffHunkKind::Different => b"other\n".to_vec(),
            },
            current: text.as_bytes().to_vec(),
        })
        .collect();
    compute_changed_ranges(current.as_bytes(), &hunks)
}

fn ranges(pairs: &[(usize, usize)]) -> RegionsToFormat {
    RegionsToFormat::LineRanges(
        pairs
            .iter()
            .map(|(first, last)| LineRange::new(*first, *last))
            .collect(),
    )
}

#[test]
fn test_compute_changed_line_ranges() {
    let same = DiffHunkKind::Matching;
    let other = DiffHunkKind::Different;

    // Insert at end.
    assert_eq!(
        changed(&[(same, "a\n"), (other, "b\n")]),
        ranges(&[(2, 2)])
    );

    // Delete in the middle.
    assert_eq!(
        changed(&[(same, "a\n"), (other, ""), (same, "c\n")]),
        ranges(&[])
    );

    // Modify in the middle.
    assert_eq!(
        changed(&[(same, "a\n"), (other, "B\n"), (same, "c\n")]),
        ranges(&[(2, 2)])
    );

    // Modify multiple.
    assert_eq!(
        changed(&[(same, "a\n"), (other, "B\nC\n")]),
        ranges(&[(2, 3)])
    );

    // Insert at start.
    assert_eq!(
        changed(&[(other, "new\n"), (same, "a\n")]),
        ranges(&[(1, 1)])
    );

    // Inserting new line at EOF.
    assert_eq!(changed(&[(other, "a\n")]), ranges(&[(1, 1)]));

    // Insert at EOF but no newline.
    assert_eq!(changed(&[(same, "a\n"), (other, "b")]), ranges(&[(2, 2)]));

    // Complex case with multiple modifications and insertions.
    assert_eq!(
        changed(&[
            (same, "a\n"),
            (other, "B\nC\n"),
            (same, "d\ne\n"),
            (other, "F\n")
        ]),
        ranges(&[(2, 3), (6, 6)])
    );

    // Add line to empty file.
    assert_eq!(changed(&[(other, "a\n")]), ranges(&[(1, 1)]));

    // Remove last line from file.
    assert_eq!(changed(&[(other, "")]), ranges(&[]));
}

#[test]
fn test_compute_file_line_count() {
    assert_eq!(compute_file_line_count(b""), 0);
    assert_eq!(compute_file_line_count(b"a"), 1);
    assert_eq!(compute_file_line_count(b"a\n"), 1);
    assert_eq!(compute_file_line_count(b"a\nb"), 2);
    assert_eq!(compute_file_line_count(b"a\nb\n"), 2);
}

#[test]
fn line_counts_add_up() {
    assert_eq!(
        compute_file_line_count(b"a\nb\nc"),
        compute_file_line_count(b"a\n") + compute_file_line_count(b"b\nc")
    );
}

fn file(file_id: u64) -> FileToFix {
    FileToFix {
        file_id,
        base_file_id: None,
        repo_path: 1,
    }
}

#[test]
fn first_failure_is_reported() {
    let changed = collect_changed_files(vec![
        (file(1), Ok(Some(11))),
        (file(2), Ok(None)),
        (file(3), Ok(Some(13))),
    ]);
    assert_eq!(changed.unwrap(), vec![(file(1), 11), (file(3), 13)]);
    let failed = collect_changed_files(vec![
        (file(1), Ok(Some(11))),
        (file(2), Err(FixError::Io("second".to_owned()))),
        (file(3), Err(FixError::Backend("third".to_owned()))),
    ]);
    assert!(matches!(failed, Err(FixError::Io(message)) if message == "second"));
}

fn regular(id: u64, executable: bool) -> Option<TreeValue> {
    Some(TreeValue::File {
        id,
        executable,
        copy_id: 5,
    })
}

#[test]
fn all_sides_of_a_conflict_are_fixed() {
    let entry = || TreeDiffEntry {
        path: 1,
        before: vec![regular(20, false)],
        base: vec![None],
        after: vec![regular(21, true), None, Some(TreeValue::Other(7)), regular(22, false)],
    };
    let deleted = TreeDiffEntry {
        path: 2,
        before: vec![regular(23, false)],
        base: vec![None],
        after: vec![None],
    };
    let commits = [
        CommitToFix {
            id: 100,
            entries: vec![entry(), deleted],
        },
        CommitToFix {
            id: 101,
            entries: vec![entry()],
        },
    ];
    // Every file is handed to the fixer once.
    let plan = collect_files_to_fix(&commits, false);
    let expected = |file_id: u64| FileToFix {
        file_id,
        base_file_id: Some(20),
        repo_path: 1,
    };
    assert_eq!(plan.files, vec![expected(21), expected(22)]);
    assert_eq!(plan.commit_paths[&100], vec![1]);

    let mut fixer = ParallelFileFixer::new(|file: FileToFix| Ok(Some(file.file_id + 100)));
    let fixed = fix_files(&commits, false, &mut fixer).unwrap();
    let value = PathValue {
        path: 1,
        terms: entry().after,
    };
    // The shape of the conflict and everything but the contents is kept.
    match fixed.fix_commit(100, &[value], false) {
        CommitFix::Rewrite(changes) => {
            assert_eq!(changes.len(), 1);
            assert_eq!(changes[0].path, 1);
            assert_eq!(
                changes[0].terms,
                vec![
                    regular(121, true),
                    None,
                    Some(TreeValue::Other(7)),
                    regular(122, false)
                ]
            );
        }
        _ => panic!("the commit is not rewritten"),
    }
    // A path that is not recorded for the commit is left alone.
    let mut other = fixed;
    other.plan.commit_paths.insert(100, vec![2]);
    let value = PathValue {
        path: 1,
        terms: entry().after,
    };
    assert!(matches!(other.fix_commit(100, &[value], false), CommitFix::Keep));
    let fixed = other;
    assert!(matches!(fixed.fix_commit(100, &[], true), CommitFix::Reparent));
    assert!(matches!(fixed.fix_commit(100, &[], false), CommitFix::Keep));
}

#[test]
fn removed_lines_have_no_range() {
    let same = DiffHunkKind::Matching;
    let different = DiffHunkKind::Different;
    // The lines that were removed leave an empty hunk behind.
    assert_eq!(
        changed(&[(same, "a\n"), (different, ""), (same, "b\n"), (different, "c")]),
        ranges(&[(3, 3)])
    );
    assert_eq!(compute_file_line_count(b"a\nb\nc"), 3);
}

#[test]
fn lines_outside_of_ranges_are_lines_of_the_base() {
    let hunk = |kind: DiffHunkKind, base: &str, current: &str| DiffHunk {
        kind,
        base: base.as_bytes().to_vec(),
        current: current.as_bytes().to_vec(),
    };
    let base = "a\nb\nc\nd\n";
    let current = "x\nb\nd\ny";
    let hunks = [
        hunk(DiffHunkKind::Different, "a\n", "x\n"),
        hunk(DiffHunkKind::Matching, "b\n", "b\n"),
        hunk(DiffHunkKind::Different, "c\n", ""),
        hunk(DiffHunkKind::Matching, "d\n", "d\n"),
        hunk(DiffHunkKind::Different, "", "y"),
    ];
    let regions = compute_changed_ranges(current.as_bytes(), &hunks);
    assert_eq!(regions, ranges(&[(1, 1), (4, 4)]));
    let current_lines: Vec<&str> = current.lines().collect();
    for line in [2, 3] {
        assert!(base.lines().any(|other| other == current_lines[line - 1]));
    }
}
