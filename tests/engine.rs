use branch_actions::compose::{combine, move_tree_between_workspaces, ComposeError, WorkspaceState};
use branch_actions::rebase::{rebase, RebaseError, RebaseStep};
use branch_actions::store::{Commit, ObjectStore, StoreError};
use branch_actions::tree::{merge_trees, Tree};

fn tree(entries: &[Option<u64>]) -> Tree {
    Tree { entries: entries.to_vec() }
}

fn commit(store: &mut ObjectStore, parents: Vec<usize>, entries: &[Option<u64>], change_id: Option<u64>) -> usize {
    store
        .add_commit(Commit {
            parents,
            tree: tree(entries),
            conflict: None,
            change_id,
            message: String::from("commit"),
        })
        .unwrap()
}

#[test]
fn merge_takes_each_sides_changes() {
    let base = tree(&[Some(1), Some(2)]);
    let ours = tree(&[Some(5), Some(2)]);
    let theirs = tree(&[Some(1), Some(2), Some(9)]);
    let m = merge_trees(&base, &ours, &theirs);
    assert!(!m.conflicted);
    assert_eq!(m.tree.entries, vec![Some(5), Some(2), Some(9)]);
    assert_eq!(m.markers.entries, vec![None, None, None]);
}

#[test]
fn merge_conflict_keeps_ours_and_marks_theirs() {
    let base = tree(&[Some(1)]);
    let ours = tree(&[Some(2)]);
    let theirs = tree(&[Some(3)]);
    let m = merge_trees(&base, &ours, &theirs);
    assert!(m.conflicted);
    assert_eq!(m.tree.entries, vec![Some(2)]);
    assert_eq!(m.markers.entries, vec![Some(3)]);
}

#[test]
fn merge_of_deletion_against_unchanged() {
    let base = tree(&[Some(1), Some(2)]);
    let ours = tree(&[Some(1), None]);
    let theirs = tree(&[Some(1), Some(2)]);
    let m = merge_trees(&base, &ours, &theirs);
    assert!(!m.conflicted);
    assert_eq!(m.tree.get(1), None);
    assert_eq!(m.tree.get(0), Some(1));
}

#[test]
fn tree_set_and_compare() {
    let mut t = Tree::new();
    t.set(3, Some(7));
    assert_eq!(t.get(3), Some(7));
    assert_eq!(t.get(0), None);
    let u = tree(&[None, None, None, Some(7), None]);
    assert!(t.same_as(&u));
    t.set(3, None);
    assert!(t.same_as(&Tree::new()));
}

#[test]
fn combine_with_no_stack_keeps_uncommitted_edits() {
    let base = tree(&[Some(1)]);
    let uncommitted = tree(&[Some(1), Some(4)]);
    let r = combine(&base, &vec![], &uncommitted).unwrap();
    assert_eq!(r.entries, uncommitted.entries);
}

#[test]
fn combine_with_one_stack_returns_its_tree() {
    let base = tree(&[Some(1)]);
    let head = tree(&[Some(8)]);
    let r = combine(&base, &vec![tree(&[Some(8)])], &Tree::new()).unwrap();
    assert_eq!(r.entries, head.entries);
}

#[test]
fn combine_merges_independent_stacks() {
    let base = tree(&[Some(1), Some(2), Some(3)]);
    let a = tree(&[Some(10), Some(2), Some(3)]);
    let b = tree(&[Some(1), Some(2), Some(30)]);
    let r = combine(&base, &vec![a, b], &Tree::new()).unwrap();
    assert_eq!(r.entries, vec![Some(10), Some(2), Some(30)]);
}

#[test]
fn combine_names_the_conflicting_stack() {
    let base = tree(&[Some(1)]);
    let a = tree(&[Some(2)]);
    let b = tree(&[Some(1), Some(5)]);
    let c = tree(&[Some(3)]);
    let r = combine(&base, &vec![a, b, c], &Tree::new());
    assert_eq!(r.unwrap_err(), ComposeError::Conflict { stack_index: 2 });
}

#[test]
fn same_line_edits_fail_fast_but_transition_favours_ours() {
    let base = tree(&[Some(1)]);
    let x = tree(&[Some(2)]);
    let y = tree(&[Some(3)]);
    let failed = combine(&base, &vec![x, y], &Tree::new());
    assert_eq!(failed.unwrap_err(), ComposeError::Conflict { stack_index: 1 });

    // The lossless composition keeps the first stack's content, and the
    // transition of the uncommitted tree always succeeds.
    let old = WorkspaceState::create(tree(&[Some(1)]), vec![]);
    let new = WorkspaceState::create(tree(&[Some(1)]), vec![tree(&[Some(2)]), tree(&[Some(3)])]);
    let moved = move_tree_between_workspaces(&tree(&[Some(1), Some(9)]), &old, &new);
    assert_eq!(moved.entries, vec![Some(2), Some(9)]);
    let edited = move_tree_between_workspaces(&tree(&[Some(7)]), &old, &new);
    assert_eq!(edited.entries, vec![Some(7)]);
}

#[test]
fn store_refuses_missing_parent() {
    let mut store = ObjectStore::new();
    let r = store.add_commit(Commit {
        parents: vec![3],
        tree: Tree::new(),
        conflict: None,
        change_id: None,
        message: String::from("orphan"),
    });
    assert_eq!(r, Err(StoreError::MissingParent));
    assert_eq!(store.len(), 0);
}

#[test]
fn rebase_onto_own_base_reproduces_trees() {
    let mut store = ObjectStore::new();
    let base = commit(&mut store, vec![], &[Some(1)], None);
    let a = commit(&mut store, vec![base], &[Some(1), Some(2)], Some(11));
    let b = commit(&mut store, vec![a], &[Some(1), Some(2), Some(3)], Some(12));
    let c = commit(&mut store, vec![b], &[Some(1), Some(2), Some(3)], Some(13));
    let steps = vec![
        RebaseStep::Pick { commit_id: a, new_message: None },
        RebaseStep::Pick { commit_id: b, new_message: None },
        RebaseStep::Pick { commit_id: c, new_message: None },
    ];
    let before = store.len();
    let out = rebase(&mut store, base, &steps, false).unwrap();
    assert_eq!(out.commit_mapping.len(), 3);
    assert_eq!(store.len(), before + 3);
    for (old, new) in &out.commit_mapping {
        assert!(store.tree_of(*new).same_as(store.tree_of(*old)));
        assert!(!store.is_conflicted(*new));
        assert_eq!(store.commits[*new].change_id, store.commits[*old].change_id);
    }
    assert_eq!(out.top_commit, before + 2);
}

#[test]
fn rebase_skipping_noops_drops_empty_commit() {
    let mut store = ObjectStore::new();
    let base = commit(&mut store, vec![], &[Some(1)], None);
    let a = commit(&mut store, vec![base], &[Some(1), Some(2)], None);
    let empty = commit(&mut store, vec![a], &[Some(1), Some(2)], None);
    let steps = vec![
        RebaseStep::Pick { commit_id: a, new_message: None },
        RebaseStep::Pick { commit_id: empty, new_message: None },
    ];
    let before = store.len();
    let out = rebase(&mut store, base, &steps, true).unwrap();
    assert_eq!(store.len(), before + 1);
    assert_eq!(out.commit_mapping, vec![(a, before), (empty, before)]);
}

#[test]
fn rebase_conflicts_propagate_without_aborting() {
    let mut store = ObjectStore::new();
    let root = commit(&mut store, vec![], &[Some(1)], None);
    let a = commit(&mut store, vec![root], &[Some(2)], Some(1));
    let b = commit(&mut store, vec![a], &[Some(3)], Some(2));
    let hostile = commit(&mut store, vec![root], &[Some(9)], None);
    let steps = vec![
        RebaseStep::Pick { commit_id: a, new_message: None },
        RebaseStep::Pick { commit_id: b, new_message: None },
    ];
    let before = store.len();
    let out = rebase(&mut store, hostile, &steps, false).unwrap();
    assert_eq!(out.commit_mapping, vec![(a, before), (b, before + 1)]);
    assert!(store.is_conflicted(before));
    // The auto-resolved tree of the first keeps the hostile content; the
    // second's change (2 -> 3) no longer applies to it.
    assert_eq!(store.tree_of(before).entries, vec![Some(9)]);
    assert!(store.is_conflicted(before + 1));
    assert_eq!(store.commits[before + 1].parents, vec![before]);
}

#[test]
fn rebase_second_commit_clean_on_conflicted_first() {
    let mut store = ObjectStore::new();
    let root = commit(&mut store, vec![], &[Some(1), Some(1)], None);
    let a = commit(&mut store, vec![root], &[Some(2), Some(1)], None);
    let b = commit(&mut store, vec![a], &[Some(2), Some(5)], None);
    let hostile = commit(&mut store, vec![root], &[Some(9), Some(1)], None);
    let steps = vec![
        RebaseStep::Pick { commit_id: a, new_message: Some(String::from("renamed")) },
        RebaseStep::Pick { commit_id: b, new_message: None },
    ];
    let before = store.len();
    let out = rebase(&mut store, hostile, &steps, false).unwrap();
    assert!(store.is_conflicted(before));
    assert!(!store.is_conflicted(before + 1));
    assert_eq!(store.tree_of(out.top_commit).entries, vec![Some(9), Some(5)]);
    assert_eq!(store.commits[before].message, "renamed");
}

#[test]
fn rebase_records_reference_positions() {
    let mut store = ObjectStore::new();
    let root = commit(&mut store, vec![], &[Some(1)], None);
    let a = commit(&mut store, vec![root], &[Some(2)], None);
    let steps = vec![
        RebaseStep::Reference { name: String::from("bottom") },
        RebaseStep::Pick { commit_id: a, new_message: None },
        RebaseStep::Reference { name: String::from("top") },
    ];
    let before = store.len();
    let out = rebase(&mut store, root, &steps, false).unwrap();
    assert_eq!(out.references.len(), 2);
    assert_eq!(out.references[0].name, "bottom");
    assert_eq!(out.references[0].commit_id, root);
    assert_eq!(out.references[1].name, "top");
    assert_eq!(out.references[1].commit_id, before);
}

#[test]
fn rebase_fails_only_on_missing_commits() {
    let mut store = ObjectStore::new();
    let root = commit(&mut store, vec![], &[Some(1)], None);
    let steps = vec![RebaseStep::Pick { commit_id: 7, new_message: None }];
    assert_eq!(rebase(&mut store, root, &steps, false).unwrap_err(), RebaseError::MissingCommit);
    assert_eq!(rebase(&mut store, 5, &vec![], false).unwrap_err(), RebaseError::MissingOnto);
    assert_eq!(store.len(), 1);
}

#[test]
fn merge_base_and_ancestors() {
    let mut store = ObjectStore::new();
    let root = commit(&mut store, vec![], &[Some(1)], None);
    let a = commit(&mut store, vec![root], &[Some(2)], None);
    let b = commit(&mut store, vec![root], &[Some(3)], None);
    let a2 = commit(&mut store, vec![a], &[Some(4)], None);
    let m = commit(&mut store, vec![a2, b], &[Some(5)], None);
    assert_eq!(store.merge_base(a2, b), Some(root));
    assert_eq!(store.merge_base(m, b), Some(b));
    assert_eq!(store.merge_base(m, a), Some(a));
    let anc = store.ancestors(a2);
    assert_eq!(anc, vec![true, true, false, true]);
    assert_eq!(store.first_parent_log(m, root), vec![m, a2, a]);
    let lone = commit(&mut store, vec![], &[Some(6)], None);
    assert_eq!(store.merge_base(lone, m), None);
}
