//! Operation heads in a directory.

use std::collections::BTreeSet;
use std::slice;

use jj_core::simple_op_heads_store::decode_hex;
use jj_core::simple_op_heads_store::DirEntry;
use jj_core::simple_op_heads_store::HeadChange;
use jj_core::simple_op_heads_store::OpHeadsStoreError;
use jj_core::simple_op_heads_store::OperationId;
use jj_core::simple_op_heads_store::SimpleOpHeadsStore;
use jj_core::simple_op_heads_store::SimpleOpHeadsStoreInitError;

fn id(hex: &str) -> OperationId {
    OperationId::from_hex(hex).unwrap()
}

/// A directory whose files are named by the heads.
struct Dir {
    store: SimpleOpHeadsStore,
    names: BTreeSet<String>,
}

impl Dir {
    fn update(&mut self, old_ids: &[OperationId], new_id: &OperationId) {
        for change in self.store.update_op_heads(old_ids, new_id) {
            match change {
                HeadChange::Add(id) => {
                    self.names.insert(id.hex());
                }
                HeadChange::Remove(id) => {
                    let removed = self.names.remove(&id.hex());
                    assert!(!SimpleOpHeadsStore::removal_failed(removed, !removed));
                }
            }
        }
    }

    fn heads(&self) -> Vec<OperationId> {
        // The order in which a directory is listed is not defined.
        let entries: Vec<DirEntry> = self
            .names
            .iter()
            .rev()
            .map(|name| DirEntry::Named(name.clone()))
            .collect();
        self.store.get_op_heads(&entries).unwrap()
    }
}

#[test]
fn test_op_heads() {
    let op1 = id("1111");
    let op2 = id("2222");
    let op3 = id("3333");
    let op4 = id("4444");

    // Initial op head is respected
    let mut dir = Dir {
        store: SimpleOpHeadsStore::load("dir"),
        names: BTreeSet::new(),
    };
    dir.update(&[], &op1);
    assert_eq!(dir.heads(), vec![id("1111")]);

    // Simple replacement
    dir.update(slice::from_ref(&op1), &op2);
    assert_eq!(dir.heads(), vec![id("2222")]);

    // Duplicating is a no-op
    dir.update(&[], &op2);
    assert_eq!(dir.heads(), vec![id("2222")]);

    // Deleting non-head is a no-op
    dir.update(slice::from_ref(&op1), &op2);
    assert_eq!(dir.heads(), vec![id("2222")]);

    // Can create multiple heads
    dir.update(&[], &op3);
    assert_eq!(dir.heads(), vec![id("2222"), id("3333")]);

    // Can replace multiple heads
    dir.update(&[id("2222"), id("3333")], &op4);
    assert_eq!(dir.heads(), vec![id("4444")]);

    // Can replace multiple heads by one of the old heads
    dir.update(&[], &op3);
    dir.update(&[id("3333"), id("4444")], &op4);
    assert_eq!(dir.heads(), vec![id("4444")]);
}

#[test]
fn heads_are_read_in_order() {
    let store = SimpleOpHeadsStore::load("dir");
    let heads = store
        .get_op_heads(&[
            DirEntry::Named("bb".to_owned()),
            DirEntry::Named("lock".to_owned()),
            DirEntry::Named("aabb".to_owned()),
            DirEntry::Named("AA".to_owned()),
        ])
        .unwrap();
    assert_eq!(heads, vec![id("aa"), id("aabb"), id("bb")]);
}

#[test]
fn heads_that_cannot_be_read() {
    let store = SimpleOpHeadsStore::load("dir");
    let read_error = |entries: &[DirEntry]| match store.get_op_heads(entries) {
        Err(OpHeadsStoreError::Read(message)) => message,
        _ => panic!("not a read error"),
    };
    assert_eq!(
        read_error(&[DirEntry::Named("lock".to_owned())]),
        "Corrupt repository: no head operation"
    );
    assert_eq!(
        read_error(&[
            DirEntry::Named("aa".to_owned()),
            DirEntry::NotUtf8("x?".to_owned()),
            DirEntry::Failed("gone".to_owned()),
        ]),
        "Non-utf8 in op head file name: x?"
    );
    assert_eq!(
        read_error(&[DirEntry::Failed("gone".to_owned())]),
        "gone"
    );
    assert!(SimpleOpHeadsStore::removal_failed(false, false));
    let error = SimpleOpHeadsStoreInitError {
        source: "gone".to_owned(),
    };
    assert_eq!(
        error.message(),
        "Failed to initialize simple operation heads store"
    );
}

#[test]
fn paths_in_the_directory() {
    let store = SimpleOpHeadsStore::load("dir");
    assert_eq!(SimpleOpHeadsStore::name(), "simple_op_heads_store");
    assert_eq!(store.dir, ["dir", "heads"]);
    assert_eq!(store.head_path(&id("0aF0")), ["dir", "heads", "0af0"]);
    assert_eq!(store.lock_path(), ["dir", "heads", "lock"]);
}

#[test]
fn hex_is_read_back() {
    for bytes in [vec![], vec![0, 255], vec![1, 2, 171]] {
        let id = OperationId { bytes };
        assert_eq!(OperationId::from_hex(&id.hex()).unwrap(), id);
    }
    assert_eq!(decode_hex("00fF"), Some(vec![0, 255]));
    assert_eq!(decode_hex("00f"), None);
    assert_eq!(decode_hex("0g"), None);
    assert!(OperationId::from_hex("柔術").is_none());
}
