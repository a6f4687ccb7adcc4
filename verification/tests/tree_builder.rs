//! Building trees.

use std::collections::BTreeMap;

use jj_core::tree_builder::EntryValue;
use jj_core::tree_builder::TreeBuilder;
use jj_core::tree_builder::TreeStep;
use jj_core::tree_builder::TreeWrite;

type Entries = BTreeMap<u64, EntryValue>;

/// Trees by their ids.
#[derive(Default)]
struct Trees {
    trees: Vec<Entries>,
    reads: usize,
}

impl Trees {
    fn write(&mut self, entries: Entries) -> u64 {
        let known = self.trees.iter().position(|tree| *tree == entries);
        known.unwrap_or_else(|| {
            self.trees.push(entries);
            self.trees.len() - 1
        }) as u64
    }

    fn write_all(&mut self, files: &[(&[u64], u64)]) -> u64 {
        let mut entries = Entries::new();
        for (path, value) in files {
            if path.len() == 1 {
                entries.insert(path[0], EntryValue::Other(*value));
            } else if !entries.contains_key(&path[0]) {
                let below: Vec<(&[u64], u64)> = files
                    .iter()
                    .filter(|(other, _)| other.len() > 1 && other[0] == path[0])
                    .map(|(other, value)| (&other[1..], *value))
                    .collect();
                let id = self.write_all(&below);
                entries.insert(path[0], EntryValue::Tree(id));
            }
        }
        self.write(entries)
    }

    /// Applies the overrides and returns the id of the root tree.
    fn build(&mut self, base: u64, overrides: &[(&[u64], Option<u64>)]) -> u64 {
        let mut builder = TreeBuilder::new("store", base);
        assert_eq!(*builder.store(), "store");
        for (path, value) in overrides {
            builder.set_or_remove(path.to_vec(), value.map(EntryValue::Other));
        }
        let mut base_trees = match builder.write_tree() {
            TreeWrite::Unchanged(id) => return id,
            TreeWrite::Read(base_trees) => base_trees,
        };
        while base_trees.trees.len() < base_trees.dirs.len() {
            let entries = match base_trees.next_read() {
                Some(id) => {
                    self.reads += 1;
                    self.trees[id as usize].clone()
                }
                None => Entries::new(),
            };
            base_trees.push(entries);
        }
        let mut to_write = base_trees.apply();
        loop {
            match to_write.pop() {
                TreeStep::Write { dir, entries } => {
                    let id = self.write(entries);
                    to_write.written(&dir, id);
                }
                TreeStep::Empty => {}
                TreeStep::Root(entries) => return self.write(entries),
            }
        }
    }
}

#[test]
fn no_override_changes_nothing() {
    let mut trees = Trees::default();
    let base = trees.write_all(&[(&[1], 10), (&[2, 3], 11)]);
    assert_eq!(trees.build(base, &[]), base);
    assert_eq!(trees.reads, 0);
}

#[test]
fn files_are_set_and_removed() {
    let mut trees = Trees::default();
    let base = trees.write_all(&[(&[1], 10), (&[2, 3], 11), (&[2, 4], 12), (&[5, 6], 13)]);
    let built = trees.build(
        base,
        &[
            (&[1], None),
            (&[2, 3], Some(20)),
            (&[2, 7, 8], Some(21)),
            (&[9], Some(22)),
        ],
    );
    let expected = trees.write_all(&[
        (&[2, 3], 20),
        (&[2, 4], 12),
        (&[2, 7, 8], 21),
        (&[5, 6], 13),
        (&[9], 22),
    ]);
    assert_eq!(built, expected);
    // The tree of the directory that is not touched is not read.
    assert_eq!(trees.reads, 2);
}

#[test]
fn empty_directories_disappear() {
    let mut trees = Trees::default();
    let base = trees.write_all(&[(&[1], 10), (&[2, 3, 4], 11)]);
    let built = trees.build(base, &[(&[2, 3, 4], None)]);
    assert_eq!(built, trees.write_all(&[(&[1], 10)]));
    let built = trees.build(base, &[(&[2, 3, 4], None), (&[1], None)]);
    assert_eq!(built, trees.write_all(&[]));
}

#[test]
fn files_and_directories_replace_each_other() {
    let mut trees = Trees::default();
    let base = trees.write_all(&[(&[1], 10), (&[2, 3], 11)]);
    // A directory where there was a file.
    let built = trees.build(base, &[(&[1, 5], Some(20))]);
    assert_eq!(built, trees.write_all(&[(&[1, 5], 20), (&[2, 3], 11)]));
    // A file where there was a directory.
    let built = trees.build(base, &[(&[2, 3], None), (&[2], Some(21))]);
    assert_eq!(built, trees.write_all(&[(&[1], 10), (&[2], 21)]));
}

#[test]
fn the_last_override_counts() {
    let mut trees = Trees::default();
    let base = trees.write_all(&[(&[1], 10)]);
    let built = trees.build(base, &[(&[2], Some(20)), (&[2], None), (&[2], Some(21))]);
    assert_eq!(built, trees.write_all(&[(&[1], 10), (&[2], 21)]));

    let mut builder = TreeBuilder::new((), base);
    builder.set(vec![1], EntryValue::Other(30));
    builder.remove(vec![1]);
    assert!(matches!(builder.write_tree(), TreeWrite::Read(_)));
}

#[test]
fn removing_below_a_file_keeps_the_file() {
    let mut trees = Trees::default();
    let base = trees.write_all(&[(&[1], 10), (&[2, 3], 11)]);
    let built = trees.build(base, &[(&[1, 5], None), (&[1, 6, 7], None)]);
    assert_eq!(built, base);
    let built = trees.build(base, &[(&[8, 9], None)]);
    assert_eq!(built, base);
}

#[test]
fn nothing_is_left_below_a_removed_path() {
    let mut trees = Trees::default();
    let base = trees.write_all(&[(&[1, 2, 3], 10), (&[1, 2, 4], 11), (&[1, 5], 12)]);
    let built = trees.build(base, &[(&[1, 2], None)]);
    assert_eq!(built, trees.write_all(&[(&[1, 5], 12)]));
    let built = trees.build(base, &[(&[1, 2], None), (&[1, 5], None)]);
    assert_eq!(built, trees.write_all(&[]));
}
