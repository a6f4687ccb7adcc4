//! Arranging commits.

use std::collections::BTreeMap;
use std::collections::BTreeSet;
use std::collections::HashMap;

use jj_core::arrange::arrange_start;
use jj_core::arrange::find_external_parents;
use jj_core::arrange::handle_key_event;
use jj_core::arrange::handle_ui_event;
use jj_core::arrange::target_revisions;
use jj_core::arrange::Ancestor;
use jj_core::arrange::ArrangeStart;
use jj_core::arrange::CommitState;
use jj_core::arrange::KeyCode;
use jj_core::arrange::KeyEvent;
use jj_core::arrange::KeyModifiers;
use jj_core::arrange::Rewrite;
use jj_core::arrange::RewriteAction;
use jj_core::arrange::RewritePlan;
use jj_core::arrange::RewriteStep;
use jj_core::arrange::Row;
use jj_core::arrange::State;
use jj_core::arrange::UiAction;
use jj_core::arrange::UiStep;
use jj_core::commit::Commit;
use jj_core::graph_lines::graph_input;
use jj_core::graph_lines::graph_lines;

const ROOT: u64 = 0;
const A: u64 = 1;
const B: u64 = 2;
const C: u64 = 3;
const D: u64 = 4;
const E: u64 = 5;
const F: u64 = 6;

fn commit(id: u64, parent_ids: &[u64]) -> Commit {
    Commit {
        id,
        parent_ids: parent_ids.to_vec(),
    }
}

type Snapshot = (
    BTreeMap<u64, (Commit, UiAction, Vec<u64>)>,
    Vec<u64>,
    Vec<u64>,
    usize,
    Vec<u64>,
    Vec<u64>,
);

fn snapshot(state: &State) -> Snapshot {
    (
        state
            .commits
            .iter()
            .map(|(id, commit)| {
                (
                    *id,
                    (commit.commit.clone(), commit.action, commit.parents.clone()),
                )
            })
            .collect(),
        state.head_order.clone(),
        state.current_order.clone(),
        state.current_selection,
        state.external_children.iter().copied().collect(),
        state.external_parents.iter().copied().collect(),
    )
}

fn no_op_plan(commits: &[&Commit]) -> RewritePlan {
    let rewrites = commits
        .iter()
        .map(|commit| {
            (
                commit.id,
                Rewrite {
                    old_commit: (*commit).clone(),
                    new_parents: commit.parent_ids.clone(),
                    action: RewriteAction::Keep,
                },
            )
        })
        .collect();
    RewritePlan { rewrites }
}

/// Executes a plan. New commits have numbers above a hundred. Returns the
/// parents of the new commits by the commits that they replace, and what stands
/// for the commits that were replaced or abandoned.
fn execute(plan: &RewritePlan) -> (BTreeMap<u64, (u64, Vec<u64>)>, HashMap<u64, Vec<u64>>) {
    let mut rewritten = BTreeMap::new();
    let mut moved: HashMap<u64, Vec<u64>> = HashMap::new();
    for id in plan.rewrite_order() {
        let rewrite = &plan.rewrites[&id];
        let new_parents: Vec<u64> = rewrite
            .new_parents
            .iter()
            .flat_map(|parent| moved.get(parent).cloned().unwrap_or(vec![*parent]))
            .collect();
        match rewrite.step(&new_parents) {
            RewriteStep::Abandon => {
                moved.insert(id, new_parents);
            }
            RewriteStep::Rebase => {
                moved.insert(id, vec![id + 100]);
                rewritten.insert(id, (id + 100, new_parents));
            }
            RewriteStep::Unchanged => {}
        }
    }
    (rewritten, moved)
}

/// This graph, in which lowercase nodes are external to the set:
/// f
/// |
/// D e
/// |\|
/// B C
/// |/
/// A
/// |
/// root
fn diamond() -> State {
    State::new(
        vec![
            commit(D, &[B, C]),
            commit(C, &[A]),
            commit(B, &[A]),
            commit(A, &[ROOT]),
        ],
        vec![commit(E, &[C]), commit(F, &[D])],
        vec![commit(ROOT, &[])],
    )
}

fn key(code: KeyCode, modifiers: KeyModifiers) -> KeyEvent {
    KeyEvent {
        code,
        modifiers,
        is_release: false,
    }
}

#[test]
fn test_update_commit_order_empty() {
    let mut state = State::new(vec![], vec![], vec![]);
    assert_eq!(state.head_order, Vec::<u64>::new());
    state.update_commit_order();
    assert_eq!(state.current_order, Vec::<u64>::new());
}

#[test]
fn test_update_commit_order_reorder() {
    // Move A on top of C:
    // D C          A
    // |/           |
    // B     =>     C D
    // |            |/
    // A            B
    let mut state = State::new(
        vec![
            commit(D, &[B]),
            commit(C, &[B]),
            commit(B, &[A]),
            commit(A, &[ROOT]),
        ],
        vec![],
        vec![commit(ROOT, &[])],
    );

    // The initial head order is determined by the input order
    assert_eq!(state.head_order, vec![D, C]);

    // We get the original order before we make any changes
    assert_eq!(state.current_order, vec![D, C, B, A]);

    // Update parents and head order and check that the commit order changes.
    state.commits.get_mut(&A).unwrap().parents = vec![C];
    state.commits.get_mut(&B).unwrap().parents = vec![ROOT];
    state.head_order = vec![D, A];
    state.update_commit_order();
    assert_eq!(state.current_order, vec![D, A, C, B]);
}

#[test]
fn test_swap_commits() {
    let mut state = diamond();
    assert_eq!(state.head_order, vec![D]);
    assert_eq!(state.current_order, vec![D, B, C, A]);

    // Swap D and C:
    // f           f
    // |           |
    // D e         C e
    // |\|         |\|
    // B C    =>   B D
    // |/          |/
    // A           A
    // |           |
    // root        root
    //
    state.swap_commits(D, C);
    assert_eq!(state.head_order, vec![C]);
    assert_eq!(state.current_order, vec![C, B, D, A]);
    assert_eq!(state.current_selection, 2);
    assert_eq!(state.commits[&C].parents, vec![B, D]);
    assert_eq!(state.commits[&D].parents, vec![A]);
    assert_eq!(state.commits[&E].parents, vec![D]);
    assert_eq!(state.commits[&F].parents, vec![C]);

    // Swap B and D:
    // f           f
    // |           |
    // C e         C e
    // |\|         |\|
    // B D    =>   D B
    // |/          |/
    // A           A
    // |           |
    // root        root
    //
    state.swap_commits(B, D);
    assert_eq!(state.head_order, vec![C]);
    assert_eq!(state.current_order, vec![C, D, B, A]);
    assert_eq!(state.current_selection, 1);
    assert_eq!(state.commits[&C].parents, vec![D, B]);
    assert_eq!(state.commits[&D].parents, vec![A]);
    assert_eq!(state.commits[&B].parents, vec![A]);
    assert_eq!(state.commits[&E].parents, vec![B]);

    // Swap A and C:
    // f           f
    // |           |
    // C e         A e
    // |\|         |\|
    // D B    =>   D B
    // |/          |/
    // A           C
    // |           |
    // root        root
    //
    state.swap_commits(A, C);
    assert_eq!(state.head_order, vec![A]);
    assert_eq!(state.current_order, vec![A, D, B, C]);
    assert_eq!(state.current_selection, 1);
    assert_eq!(state.commits[&A].parents, vec![D, B]);
    assert_eq!(state.commits[&D].parents, vec![C]);
    assert_eq!(state.commits[&B].parents, vec![C]);
    assert_eq!(state.commits[&F].parents, vec![A]);

    // No-op swap
    state.swap_commits(A, A);
    assert_eq!(state.current_selection, 1);
    assert_eq!(state.current_order, vec![A, D, B, C]);
}

#[test]
fn test_swap_selection_down() {
    let mut state = diamond();
    assert_eq!(state.current_order, vec![D, B, C, A]);

    // Attempting to swap D down should have no effect because it has two parents
    state.current_selection = 0;
    assert_eq!(state.current_id(), D);
    let state_before = snapshot(&state);
    state.swap_selection_down();
    assert_eq!(snapshot(&state), state_before);

    // Swap B down:
    // f           f
    // |           |
    // D e         D e
    // |\|         |\|
    // B C    =>   A C
    // |/          |/
    // A           B
    // |           |
    // root        root
    //
    state.current_selection = 1;
    assert_eq!(state.current_id(), B);
    state.swap_selection_down();
    assert_eq!(state.current_order, vec![D, A, C, B]);
    assert_eq!(state.current_selection, 3);

    // Swap C down:
    // f           f
    // |           |
    // D e         D e
    // |\|         |\|
    // A C    =>   A B
    // |/          |/
    // B           C
    // |           |
    // root        root
    //
    state.current_selection = 2;
    assert_eq!(state.current_id(), C);
    state.swap_selection_down();
    assert_eq!(state.current_order, vec![D, A, B, C]);
    assert_eq!(state.current_selection, 3);

    // Attempting to swap C down should have no effect because it would move outside
    // of range
    state.current_selection = 3;
    assert_eq!(state.current_id(), C);
    let state_before = snapshot(&state);
    state.swap_selection_down();
    assert_eq!(snapshot(&state), state_before);
}

#[test]
fn test_swap_selection_up() {
    let mut state = diamond();
    assert_eq!(state.current_order, vec![D, B, C, A]);

    // Attempting to swap A up should have no effect because it has two children
    state.current_selection = 3;
    assert_eq!(state.current_id(), A);
    let state_before = snapshot(&state);
    state.swap_selection_up();
    assert_eq!(snapshot(&state), state_before);

    // Attempting to swap C up should have no effect because it has two children
    // even though one is external. We could change this to ignore the external
    // child.
    state.current_selection = 2;
    assert_eq!(state.current_id(), C);
    let state_before = snapshot(&state);
    state.swap_selection_up();
    assert_eq!(snapshot(&state), state_before);

    // Swap B up:
    // f           f
    // |           |
    // D e         B e
    // |\|         |\|
    // B C    =>   D C
    // |/          |/
    // A           A
    // |           |
    // root        root
    //
    state.current_selection = 1;
    assert_eq!(state.current_id(), B);
    state.swap_selection_up();
    assert_eq!(state.current_order, vec![B, D, C, A]);
    assert_eq!(state.current_selection, 0);

    // Attempting to swap B up should have no effect because it would move outside
    // of range
    state.current_selection = 0;
    assert_eq!(state.current_id(), B);
    let state_before = snapshot(&state);
    state.swap_selection_up();
    assert_eq!(snapshot(&state), state_before);
}

#[test]
fn test_execute_plan_reorder() {
    // Move A between C and D, let E follow:
    //   F           F E
    //   |           |/
    // D C           A
    // |/            |
    // B E    =>   D C
    // |/          |/
    // A           B
    // |           |
    // root        root
    let commit_a = commit(A, &[ROOT]);
    let commit_b = commit(B, &[A]);
    let commit_c = commit(C, &[B]);
    let commit_d = commit(D, &[B]);
    let commit_e = commit(E, &[A]);
    let commit_f = commit(F, &[C]);
    let mut plan = no_op_plan(&[
        &commit_a, &commit_b, &commit_c, &commit_d, &commit_e, &commit_f,
    ]);

    // Update the plan with the new parents
    plan.rewrites.get_mut(&A).unwrap().new_parents = vec![C];
    plan.rewrites.get_mut(&B).unwrap().new_parents = vec![ROOT];
    plan.rewrites.get_mut(&F).unwrap().new_parents = vec![A];

    let (rewritten, _) = execute(&plan);
    assert_eq!(
        rewritten.keys().copied().collect::<BTreeSet<u64>>(),
        BTreeSet::from([A, B, C, D, E, F])
    );
    let (new_a, new_a_parents) = &rewritten[&A];
    let (new_b, new_b_parents) = &rewritten[&B];
    let (new_c, new_c_parents) = &rewritten[&C];
    let (_, new_d_parents) = &rewritten[&D];
    let (_, new_e_parents) = &rewritten[&E];
    let (_, new_f_parents) = &rewritten[&F];
    assert_eq!(new_b_parents, &[ROOT]);
    assert_eq!(new_c_parents, &[*new_b]);
    assert_eq!(new_a_parents, &[*new_c]);
    assert_eq!(new_d_parents, &[*new_b]);
    assert_eq!(new_e_parents, &[*new_a]);
    assert_eq!(new_f_parents, &[*new_a]);
}

#[test]
fn test_execute_plan_abandon() {
    // Move C onto A and abandon it:
    // D           D
    // |           |
    // C           C (abandoned)
    // |           |
    // B    =>   B |
    // |         |/
    // A         A
    // |         |
    // root      root
    let commit_a = commit(A, &[ROOT]);
    let commit_b = commit(B, &[A]);
    let commit_c = commit(C, &[B]);
    let commit_d = commit(D, &[C]);
    let mut plan = no_op_plan(&[&commit_a, &commit_b, &commit_c, &commit_d]);

    // Update parents and action, then apply the changes.
    *plan.rewrites.get_mut(&C).unwrap() = Rewrite {
        old_commit: commit_c.clone(),
        new_parents: vec![A],
        action: RewriteAction::Abandon,
    };

    let (rewritten, moved) = execute(&plan);
    assert_eq!(rewritten.keys().copied().collect::<Vec<u64>>(), vec![D]);
    let (new_d, new_d_parents) = &rewritten[&D];
    assert_eq!(new_d_parents, &[A]);
    // The commits that are left without a child are the heads.
    let mut parents_of: BTreeMap<u64, Vec<u64>> = [&commit_a, &commit_b, &commit_c, &commit_d]
        .into_iter()
        .filter(|commit| !moved.contains_key(&commit.id))
        .map(|commit| (commit.id, commit.parent_ids.clone()))
        .collect();
    parents_of.insert(*new_d, new_d_parents.clone());
    let heads: BTreeSet<u64> = parents_of
        .keys()
        .copied()
        .filter(|id| !parents_of.values().any(|parents| parents.contains(id)))
        .collect();
    assert_eq!(heads, BTreeSet::from([B, *new_d]));
}

#[test]
fn swapping_twice_changes_nothing() {
    let mut state = diamond();
    let before = snapshot(&state);
    state.swap_commits(D, A);
    assert_ne!(snapshot(&state), before);
    state.swap_commits(D, A);
    assert_eq!(snapshot(&state), before);
}

#[test]
fn external_parents_are_kept_in_order() {
    let parents = find_external_parents(&[
        commit(D, &[B, 9]),
        commit(C, &[8, 9]),
        commit(B, &[ROOT, 8]),
    ]);
    assert_eq!(
        parents.iter().copied().collect::<Vec<u64>>(),
        vec![9, 8, ROOT]
    );
}

#[test]
fn rows_show_what_becomes_of_commits() {
    let mut state = diamond();
    state.commits.get_mut(&B).unwrap().action = UiAction::Abandon;
    state.current_selection = 1;
    let rows = state.rows();
    let shown: Vec<(u64, bool, &str, Option<&str>, bool)> = rows
        .iter()
        .map(|row| {
            (
                row.id,
                row.selected,
                row.glyph,
                row.action_text,
                row.is_context_node,
            )
        })
        .collect();
    assert_eq!(
        shown,
        vec![
            (E, false, "○", None, true),
            (F, false, "○", None, true),
            (D, false, "○", Some("keep"), false),
            (B, true, "×", Some("abandon"), false),
            (C, false, "○", Some("keep"), false),
            (A, false, "○", Some("keep"), false),
            (ROOT, false, "○", None, true),
        ]
    );
    assert_eq!(
        rows[2].edges,
        vec![Ancestor::Parent(B), Ancestor::Parent(C)]
    );
    state.commits.remove(&C);
    assert_eq!(
        state.row(D).edges,
        vec![Ancestor::Parent(B), Ancestor::Anonymous]
    );
}

#[test]
fn keys_move_the_selection() {
    let mut state = diamond();
    for (code, selection) in [
        (KeyCode::Up, 0),
        (KeyCode::Down, 1),
        (KeyCode::Char('j'), 2),
        (KeyCode::Char('j'), 3),
        (KeyCode::Down, 3),
        (KeyCode::Char('k'), 2),
        (KeyCode::Char('x'), 2),
        (KeyCode::Other, 2),
    ] {
        state = handle_key_event(key(code, KeyModifiers::Plain), state);
        assert_eq!(state.current_selection, selection);
    }
    // Other modifiers make it another key.
    let state = handle_key_event(key(KeyCode::Up, KeyModifiers::Other), state);
    assert_eq!(state.current_selection, 2);
}

#[test]
fn keys_change_commits() {
    let mut state = diamond();
    state.current_selection = 1;
    let state = handle_key_event(key(KeyCode::Char('a'), KeyModifiers::Plain), state);
    assert_eq!(state.commits[&B].action, UiAction::Abandon);
    let state = handle_key_event(key(KeyCode::Char('p'), KeyModifiers::Plain), state);
    assert_eq!(state.commits[&B].action, UiAction::Keep);
    let state = handle_key_event(key(KeyCode::Char('J'), KeyModifiers::Shift), state);
    assert_eq!(state.current_order, vec![D, A, C, B]);
    let state = handle_key_event(key(KeyCode::Char('K'), KeyModifiers::Shift), state);
    assert_eq!(state.current_order, vec![D, A, C, B]);
}

#[test]
fn keys_end_the_dialog() {
    let step = handle_ui_event(key(KeyCode::Char('q'), KeyModifiers::Plain), diamond());
    assert!(matches!(step, UiStep::Quit));
    let step = handle_ui_event(key(KeyCode::Char('c'), KeyModifiers::Control), diamond());
    assert!(matches!(step, UiStep::Quit));
    let step = handle_ui_event(key(KeyCode::Char('c'), KeyModifiers::Plain), diamond());
    assert!(matches!(step, UiStep::Confirm(_)));
    let release = KeyEvent {
        code: KeyCode::Char('q'),
        modifiers: KeyModifiers::Plain,
        is_release: true,
    };
    let step = handle_ui_event(release, diamond());
    assert!(matches!(step, UiStep::Continue(_)));
}

#[test]
fn plans_hold_all_but_external_parents() {
    let mut state = diamond();
    state.current_selection = 1;
    state.swap_selection_down();
    state.commits.get_mut(&C).unwrap().action = UiAction::Abandon;
    assert!(state.is_valid());
    let plan = state.to_rewrite_plan();
    assert_eq!(
        plan.rewrites.keys().copied().collect::<BTreeSet<u64>>(),
        BTreeSet::from([A, B, C, D, E, F])
    );
    assert_eq!(plan.rewrites[&C].action, RewriteAction::Abandon);
    assert_eq!(plan.rewrites[&D].action, RewriteAction::Keep);
    assert_eq!(plan.rewrites[&A].new_parents, vec![B]);
    assert_eq!(plan.rewrites[&A].old_commit, commit(A, &[ROOT]));
    let order = plan.rewrite_order();
    let place = |id: u64| order.iter().position(|other| *other == id).unwrap();
    assert!(place(B) < place(A));
    assert!(place(A) < place(D));
    assert!(place(C) < place(E));
}

#[test]
fn commits_start_out_kept() {
    let state = diamond();
    assert_eq!(
        state.commits[&A],
        CommitState {
            commit: commit(A, &[ROOT]),
            action: UiAction::Keep,
            parents: vec![ROOT],
        }
    );
    assert_eq!(state.current_selection, 0);
}

#[test]
fn revisions_are_checked_first() {
    assert_eq!(target_revisions(&[], &[]), None);
    let pos = vec!["a".to_owned()];
    let opt = vec!["b".to_owned()];
    assert_eq!(
        target_revisions(&pos, &opt),
        Some(vec!["a".to_owned(), "b".to_owned()])
    );
    match arrange_start(Some("abc"), 3) {
        ArrangeStart::Gap { message, hint } => {
            assert_eq!(message, "Cannot arrange revset with gaps in.");
            assert_eq!(hint, "Revision abc would need to be in the set.");
        }
        _ => panic!("there is a gap"),
    }
    assert!(matches!(arrange_start(None, 0), ArrangeStart::Nothing));
    assert!(matches!(arrange_start(None, 1), ArrangeStart::Run));
}

#[test]
fn graph_beside_rows() {
    let row = |id: u64, edges: Vec<Ancestor>, glyph: &'static str| Row {
        id,
        selected: false,
        edges,
        glyph,
        action_text: None,
        is_context_node: false,
    };
    let rows = [
        row(C, vec![Ancestor::Parent(A), Ancestor::Parent(B)], "○"),
        row(B, vec![], "×"),
        row(A, vec![Ancestor::Anonymous], "○"),
    ];
    let texts = [
        b"one".to_vec(),
        b"one\ntwo\nthree\n".to_vec(),
        b"one\n".to_vec(),
    ];
    assert_eq!(
        graph_input(&rows[1], &texts[1]),
        (B, vec![], "×".to_owned(), "\n\n\n".to_owned())
    );
    assert_eq!(
        graph_input(&rows[2], &texts[2]),
        (A, vec![None], "○".to_owned(), "\n".to_owned())
    );
    let lines = graph_lines(&rows, &texts);
    assert_eq!(lines, ["○\n├─╮\n", "│ ×\n│\n│\n", "○\n│\n~\n"]);
    // What is drawn for a row depends on those before it only.
    assert_eq!(graph_lines(&rows[..2], &texts[..2]), lines[..2]);
}
