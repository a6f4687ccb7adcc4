//! Predecessors of commits.

use std::collections::BTreeMap;

use jj_core::commit::Commit;
use jj_core::evolution::accumulate_predecessors;
use jj_core::evolution::needs_walk;
use jj_core::evolution::resolve_transitive_edges;
use jj_core::evolution::reverse_edges;
use jj_core::evolution::walk_predecessors;
use jj_core::evolution::CommitEvolutionEntry;
use jj_core::evolution::Operation;
use jj_core::evolution::WalkPredecessorsError;
use jj_core::evolution::WalkStep;

fn graph(edges: &[(u64, &[u64])]) -> BTreeMap<u64, Vec<u64>> {
    edges
        .iter()
        .map(|(from, to)| (*from, to.to_vec()))
        .collect()
}

fn operation(id: u64, parent_ids: &[u64], edges: Option<&[(u64, &[u64])]>) -> Operation {
    Operation {
        id,
        parent_ids: parent_ids.to_vec(),
        commit_predecessors: edges.map(graph),
    }
}

/// Walks the operations from the newest to the oldest.
fn walk(
    operations: &[Operation],
    start: &[u64],
) -> Result<Vec<(u64, Option<u64>)>, WalkPredecessorsError> {
    let mut operations = operations.iter();
    let mut state = walk_predecessors(start);
    let mut entries = vec![];
    loop {
        match state.next() {
            WalkStep::NextOperation => state.visit(operations.next())?,
            WalkStep::Entry(entry) => entries.push((entry.commit_id, entry.operation)),
            WalkStep::Done => return Ok(entries),
        }
    }
}

#[test]
fn walk_of_a_chain() {
    let operations = [
        operation(3, &[2], Some(&[(13, &[12])])),
        operation(2, &[1], Some(&[(12, &[11]), (99, &[])])),
        operation(1, &[0], Some(&[(11, &[])])),
    ];
    assert_eq!(
        walk(&operations, &[13]).unwrap(),
        vec![(13, Some(3)), (12, Some(2)), (11, Some(1))]
    );
    assert_eq!(walk(&operations, &[]).unwrap(), vec![]);
    // A commit that no operation made is emitted at the end.
    assert_eq!(
        walk(&operations, &[50, 12]).unwrap(),
        vec![(12, Some(2)), (11, Some(1)), (50, None)]
    );
}

#[test]
fn walk_stops_at_operations_without_records() {
    let operations = [
        operation(3, &[2], Some(&[(13, &[12])])),
        operation(2, &[1], None),
        operation(1, &[0], Some(&[(12, &[11])])),
    ];
    assert_eq!(
        walk(&operations, &[13]).unwrap(),
        vec![(13, Some(3)), (12, None)]
    );
}

#[test]
fn commits_of_an_operation_come_before_their_predecessors() {
    // 5 was made from 3 and 4, which were made from 2, all in one operation.
    let operations = [operation(
        7,
        &[6],
        Some(&[(3, &[2]), (4, &[2]), (5, &[3, 4])]),
    )];
    let entries = walk(&operations, &[5]).unwrap();
    let ids: Vec<u64> = entries.iter().map(|(id, _)| *id).collect();
    let place = |id: u64| ids.iter().position(|other| *other == id).unwrap();
    assert_eq!(ids.len(), 5);
    assert!(place(5) < place(3));
    assert!(place(5) < place(4));
    assert_eq!(entries[3..], [(2, None), (2, None)]);
    // The same commit twice is emitted once.
    let entries = walk(&operations, &[3, 3]).unwrap();
    assert_eq!(entries, vec![(3, Some(7)), (2, None)]);
}

#[test]
fn cycles_are_detected() {
    let operations = [operation(2, &[1], Some(&[(1, &[2]), (2, &[1])]))];
    let error = walk(&operations, &[1]).unwrap_err();
    assert!(matches!(
        error,
        WalkPredecessorsError::CycleDetected(1 | 2)
    ));
    assert_eq!(
        error.message("abc"),
        "Predecessors cycle detected around commit abc"
    );
    assert_eq!(
        WalkPredecessorsError::Backend("gone".to_owned()).message(""),
        "gone"
    );
    assert_eq!(
        WalkPredecessorsError::OpStore("lost".to_owned()).message(""),
        "lost"
    );
    assert!(resolve_transitive_edges(&graph(&[(1, &[1])]), &[1]).is_err());
    // A cycle that cannot be reached does no harm.
    assert_eq!(
        resolve_transitive_edges(&graph(&[(1, &[1]), (2, &[3])]), &[2]),
        Ok(graph(&[(2, &[3])]))
    );
}

#[test]
fn predecessors_of_an_entry() {
    let commit = || Commit {
        id: 3,
        parent_ids: vec![1],
    };
    let op = operation(7, &[6], Some(&[(3, &[2, 1])]));
    assert!(op.stores_commit_predecessors());
    assert_eq!(op.predecessors_for_commit(3), Some(&vec![2, 1]));
    assert_eq!(op.predecessors_for_commit(4), None);
    let entry = CommitEvolutionEntry {
        commit: commit(),
        operation: Some(op),
    };
    assert_eq!(entry.predecessor_ids(), vec![2, 1]);
    let entry = CommitEvolutionEntry {
        commit: commit(),
        operation: None,
    };
    assert!(entry.predecessor_ids().is_empty());
    let op = operation(7, &[6], None);
    assert!(!op.stores_commit_predecessors());
    assert_eq!(op.predecessors_for_commit(3), None);
}

#[test]
fn transitive_edges() {
    let edges = graph(&[(5, &[4, 3]), (4, &[2]), (3, &[2, 1]), (9, &[8]), (7, &[])]);
    assert_eq!(
        resolve_transitive_edges(&edges, &[5]),
        Ok(graph(&[(5, &[2, 1]), (4, &[2]), (3, &[2, 1])]))
    );
    assert_eq!(
        resolve_transitive_edges(&edges, &[7, 9]),
        Ok(graph(&[(9, &[8]), (7, &[])]))
    );
}

#[test]
fn edges_are_reversed() {
    let edges = graph(&[(5, &[4, 3]), (4, &[2, 2]), (3, &[2])]);
    assert_eq!(
        reverse_edges(edges),
        graph(&[(2, &[3, 4, 4]), (3, &[5]), (4, &[5])])
    );
}

#[test]
fn accumulated_over_one_operation() {
    let new_ops = [operation(2, &[1], Some(&[(13, &[12]), (12, &[11])]))];
    let old_ops = [operation(1, &[0], None)];
    assert!(!needs_walk(&new_ops, &old_ops));
    assert_eq!(
        accumulate_predecessors(&new_ops, &old_ops, &[], &[]).unwrap(),
        graph(&[(12, &[11]), (13, &[11])])
    );
    assert!(accumulate_predecessors(&[], &old_ops, &[], &[])
        .unwrap()
        .is_empty());
    let without = [operation(2, &[1], None)];
    assert!(accumulate_predecessors(&without, &old_ops, &[], &[])
        .unwrap()
        .is_empty());
}

#[test]
fn accumulated_over_a_fork() {
    // Operation 2 rewrote 10 as 12, operation 3 rewrote 10 as 13.
    let new_op = || operation(3, &[1], Some(&[(13, &[10])]));
    let old_op = || operation(2, &[1], Some(&[(12, &[10])]));
    assert!(needs_walk(&[new_op()], &[old_op()]));
    assert_eq!(
        accumulate_predecessors(&[new_op()], &[old_op()], &[old_op()], &[new_op()]).unwrap(),
        graph(&[(13, &[12]), (10, &[12])])
    );
    // What is not recorded cannot be accumulated.
    let unrecorded = operation(4, &[1], None);
    assert!(
        accumulate_predecessors(&[new_op()], &[old_op()], &[unrecorded], &[new_op()])
            .unwrap()
            .is_empty()
    );
}
