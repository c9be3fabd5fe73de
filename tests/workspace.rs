use branch_actions::base::{get_base_branch_data, set_base_branch, set_target_push_remote, BaseError};
use branch_actions::branch_manager::{
    apply_branch, checkout_branch_trees, create_virtual_branch, create_virtual_branch_from_branch, unapply_stack,
    update_uncommited_changes, ApplyError, BranchCreateRequest, CreateError,
};
use branch_actions::commits::{cherry_rebase, cherry_rebase_group, compute_updated_branch_head, CherryRebaseError};
use branch_actions::compose::{ComposeError, WorkspaceState};
use branch_actions::integration::{
    integrate_upstream, resolve_upstream_integration, BaseBranchResolution, IntegrationError, Resolution,
};
use branch_actions::stack::{ensure_selected_for_changes, Branch, Stack, Target, Workspace};
use branch_actions::status::{
    BaseBranchResolutionApproach, BranchStatus, NameAndStatus, ResolutionApproach, StackStatus, StatusError,
    TreeStatus,
};
use branch_actions::store::{Commit, ObjectStore};
use branch_actions::tree::Tree;
use branch_actions::upstream::{upstream_integration_statuses, StackStatuses};

const README: usize = 0;
const FILE: usize = 1;
const OTHER: usize = 2;

fn tree(entries: &[Option<u64>]) -> Tree {
    Tree { entries: entries.to_vec() }
}

fn commit(store: &mut ObjectStore, parents: Vec<usize>, entries: &[Option<u64>], change_id: Option<u64>) -> usize {
    store
        .add_commit(Commit {
            parents,
            tree: tree(entries),
            conflict: None,
            change_id,
            message: String::from("commit"),
        })
        .unwrap()
}

fn workspace(store: ObjectStore, sha: usize) -> Workspace {
    let worktree = store.tree_of(sha).copy();
    Workspace {
        store,
        target: Target {
            branch: String::from("refs/remotes/origin/master"),
            remote_url: String::from("https://example.com/repo.git"),
            sha,
            push_remote_name: None,
        },
        stacks: vec![],
        worktree,
    }
}

fn stack(id: u64, branches: Vec<Branch>, head: usize, tree: Tree) -> Stack {
    Stack {
        id,
        name: format!("stack-{}", id),
        branches,
        head,
        tree,
        allow_rebasing: true,
        in_workspace: true,
        order: id as usize,
        selected_for_changes: false,
        wip_change_id: None,
    }
}

fn branch(name: &str, commits: Vec<usize>) -> Branch {
    Branch { name: String::from(name), archived: false, commits, upstream: None, upstream_head: None, pr_number: None }
}

fn status(tree_status: TreeStatus, statuses: &[BranchStatus]) -> StackStatus {
    let named = statuses
        .iter()
        .enumerate()
        .map(|(i, s)| NameAndStatus { name: format!("b{}", i), status: *s })
        .collect();
    StackStatus::create(tree_status, named).unwrap()
}

fn find(ws: &Workspace, id: u64) -> &Stack {
    ws.stacks.iter().find(|s| s.id == id).unwrap()
}

#[test]
fn stack_status_needs_a_branch() {
    assert_eq!(StackStatus::create(TreeStatus::Empty, vec![]).unwrap_err(), StatusError::NoBranches);
    let s = status(TreeStatus::Conflicted, &[BranchStatus::Empty]);
    assert!(s.is_single());
}

#[test]
fn resolution_table() {
    let all = [
        ResolutionApproach::Rebase,
        ResolutionApproach::Merge,
        ResolutionApproach::Unapply,
        ResolutionApproach::Delete,
    ];
    let integrated = status(TreeStatus::Empty, &[BranchStatus::Integrated, BranchStatus::Integrated]);
    let allowed: Vec<bool> = all.iter().map(|a| integrated.resolution_acceptable(a)).collect();
    assert_eq!(allowed, vec![false, false, true, true]);

    let single = status(TreeStatus::SafelyUpdatable, &[BranchStatus::SafelyUpdatable]);
    let allowed: Vec<bool> = all.iter().map(|a| single.resolution_acceptable(a)).collect();
    assert_eq!(allowed, vec![true, true, true, false]);

    let single_integrated = status(TreeStatus::Empty, &[BranchStatus::Integrated]);
    assert!(!single_integrated.resolution_acceptable(&ResolutionApproach::Merge));
    assert!(single_integrated.resolution_acceptable(&ResolutionApproach::Delete));
}

#[test]
fn merge_never_allowed_for_several_branches() {
    let trees = [TreeStatus::Empty, TreeStatus::Conflicted, TreeStatus::SafelyUpdatable];
    let branches = [
        BranchStatus::Integrated,
        BranchStatus::Empty,
        BranchStatus::SafelyUpdatable,
        BranchStatus::Conflicted { rebasable: false },
        BranchStatus::Conflicted { rebasable: true },
    ];
    for t in trees {
        for a in branches {
            for b in branches {
                let s = status(t, &[a, b]);
                assert!(!s.resolution_acceptable(&ResolutionApproach::Merge));
                assert!(s.resolution_acceptable(&ResolutionApproach::Unapply));
            }
        }
    }
}

#[test]
fn statuses_up_to_date_when_target_unmoved() {
    let mut store = ObjectStore::new();
    let t0 = commit(&mut store, vec![], &[Some(1)], None);
    let ws = workspace(store, t0);
    assert!(matches!(upstream_integration_statuses(&ws, t0, &vec![]), Ok(StackStatuses::UpToDate)));
}

#[test]
fn hard_reset_then_statuses_up_to_date() {
    let mut store = ObjectStore::new();
    let t0 = commit(&mut store, vec![], &[Some(1)], None);
    let local = commit(&mut store, vec![t0], &[Some(1), Some(5)], None);
    let upstream = commit(&mut store, vec![t0], &[Some(2)], None);
    let mut ws = workspace(store, local);
    let before = ws.store.len();
    let r = resolve_upstream_integration(&mut ws, upstream, BaseBranchResolutionApproach::HardReset).unwrap();
    assert_eq!(r, upstream);
    assert_eq!(ws.store.len(), before);
    let base = Some(BaseBranchResolution { target_commit_oid: r, approach: BaseBranchResolutionApproach::HardReset });
    let outcome = integrate_upstream(&mut ws, upstream, &vec![], &base, &vec![]).unwrap();
    assert!(outcome.archived_branches.is_empty());
    assert_eq!(ws.target.sha, upstream);
    assert!(matches!(upstream_integration_statuses(&ws, upstream, &vec![]), Ok(StackStatuses::UpToDate)));
    // With no stack left the new target's tree is checked out.
    assert_eq!(ws.worktree.entries, vec![Some(2)]);
}

#[test]
fn target_merge_and_rebase_resolutions() {
    let mut store = ObjectStore::new();
    let t0 = commit(&mut store, vec![], &[Some(1), Some(1)], None);
    let local = commit(&mut store, vec![t0], &[Some(1), Some(5)], None);
    let upstream = commit(&mut store, vec![t0], &[Some(2), Some(1)], None);
    let mut ws = workspace(store, local);
    let merged = resolve_upstream_integration(&mut ws, upstream, BaseBranchResolutionApproach::Merge).unwrap();
    assert_eq!(ws.store.commits[merged].parents, vec![local, upstream]);
    assert_eq!(ws.store.tree_of(merged).entries, vec![Some(2), Some(5)]);
    let rebased = resolve_upstream_integration(&mut ws, upstream, BaseBranchResolutionApproach::Rebase).unwrap();
    assert_eq!(ws.store.commits[rebased].parents, vec![upstream]);
    assert_eq!(ws.store.tree_of(rebased).entries, vec![Some(2), Some(5)]);
    assert_eq!(
        resolve_upstream_integration(&mut ws, 99, BaseBranchResolutionApproach::Rebase),
        Err(IntegrationError::MissingCommit)
    );
}

#[test]
fn end_to_end_rebase_onto_moving_target() {
    // (a) A stack with the edit "content" (blob 20) in FILE, on T0.
    let mut store = ObjectStore::new();
    let t0 = commit(&mut store, vec![], &[Some(10)], None);
    let c1 = commit(&mut store, vec![t0], &[Some(10), Some(20)], Some(1));
    let mut ws = workspace(store, t0);
    let s1_tree = ws.store.tree_of(c1).copy();
    ws.stacks.push(stack(1, vec![branch("s1", vec![c1])], c1, s1_tree));
    assert_eq!(apply_branch(&mut ws, 1).unwrap(), "stack-1");
    assert_eq!(find(&ws, 1).head, c1);
    assert!(matches!(upstream_integration_statuses(&ws, t0, &vec![]), Ok(StackStatuses::UpToDate)));

    // (b) The target moves on with an independent change to another file.
    let t1 = commit(&mut ws.store, vec![t0], &[Some(10), None, Some(30)], None);
    let statuses = match upstream_integration_statuses(&ws, t1, &vec![]) {
        Ok(StackStatuses::UpdatesRequired(v)) => v,
        _ => panic!("updates expected"),
    };
    assert_eq!(statuses.len(), 1);
    assert_eq!(statuses[0].0, 1);
    assert_eq!(statuses[0].1.tree_status, TreeStatus::Empty);
    assert_eq!(statuses[0].1.branch_statuses[0].status, BranchStatus::SafelyUpdatable);
    let resolutions =
        vec![Resolution { branch_id: 1, branch_tree: find(&ws, 1).tree.copy(), approach: ResolutionApproach::Rebase }];
    integrate_upstream(&mut ws, t1, &resolutions, &None, &vec![]).unwrap();
    assert_eq!(ws.target.sha, t1);
    let head = find(&ws, 1).head;
    assert_eq!(ws.store.commits[head].parents, vec![t1]);
    assert_eq!(ws.store.tree_of(head).entries, vec![Some(10), Some(20), Some(30)]);
    assert_eq!(find(&ws, 1).branches[0].commits, vec![head]);
    assert_eq!(ws.worktree.entries, vec![Some(10), Some(20), Some(30)]);

    // (c) The target moves on with a conflicting edit to the same file.
    let t2 = commit(&mut ws.store, vec![t1], &[Some(10), Some(21), Some(30)], None);
    let statuses = match upstream_integration_statuses(&ws, t2, &vec![]) {
        Ok(StackStatuses::UpdatesRequired(v)) => v,
        _ => panic!("updates expected"),
    };
    assert_eq!(statuses[0].1.branch_statuses[0].status, BranchStatus::Conflicted { rebasable: false });
    let resolutions =
        vec![Resolution { branch_id: 1, branch_tree: find(&ws, 1).tree.copy(), approach: ResolutionApproach::Rebase }];
    assert!(integrate_upstream(&mut ws, t2, &resolutions, &None, &vec![]).is_ok());
    let head = find(&ws, 1).head;
    assert!(ws.store.is_conflicted(head));
    assert_eq!(ws.store.commits[head].parents, vec![t2]);
    assert_eq!(ws.store.tree_of(head).entries, vec![Some(10), Some(21), Some(30)]);
}

#[test]
fn stale_resolutions_are_refused() {
    let mut store = ObjectStore::new();
    let t0 = commit(&mut store, vec![], &[Some(10)], None);
    let c1 = commit(&mut store, vec![t0], &[Some(10), Some(20)], Some(1));
    let t1 = commit(&mut store, vec![t0], &[Some(11)], None);
    let mut ws = workspace(store, t0);
    let s1_tree = ws.store.tree_of(c1).copy();
    ws.stacks.push(stack(1, vec![branch("s1", vec![c1])], c1, s1_tree));

    let stale_tree = vec![Resolution { branch_id: 1, branch_tree: tree(&[Some(10)]), approach: ResolutionApproach::Rebase }];
    assert_eq!(
        integrate_upstream(&mut ws, t1, &stale_tree, &None, &vec![]).unwrap_err(),
        IntegrationError::StaleResolutions
    );
    let not_allowed =
        vec![Resolution { branch_id: 1, branch_tree: find(&ws, 1).tree.copy(), approach: ResolutionApproach::Delete }];
    assert_eq!(
        integrate_upstream(&mut ws, t1, &not_allowed, &None, &vec![]).unwrap_err(),
        IntegrationError::StaleResolutions
    );
    assert_eq!(integrate_upstream(&mut ws, t1, &vec![], &None, &vec![]).unwrap_err(), IntegrationError::StaleResolutions);
    assert_eq!(integrate_upstream(&mut ws, t0, &vec![], &None, &vec![]).unwrap_err(), IntegrationError::UpToDate);
    assert_eq!(integrate_upstream(&mut ws, 42, &vec![], &None, &vec![]).unwrap_err(), IntegrationError::MissingCommit);
    assert_eq!(ws.target.sha, t0);
    assert_eq!(find(&ws, 1).head, c1);
}

#[test]
fn integrated_branch_is_archived_and_stack_deleted() {
    let mut store = ObjectStore::new();
    let t0 = commit(&mut store, vec![], &[Some(10)], None);
    let c1 = commit(&mut store, vec![t0], &[Some(10), Some(20)], Some(1));
    let t1 = commit(&mut store, vec![c1], &[Some(10), Some(20)], None);
    let mut ws = workspace(store, t0);
    let s1_tree = ws.store.tree_of(c1).copy();
    ws.stacks.push(stack(1, vec![branch("s1", vec![c1])], c1, s1_tree));
    let integrated = vec![false, true, false];
    let statuses = match upstream_integration_statuses(&ws, t1, &integrated) {
        Ok(StackStatuses::UpdatesRequired(v)) => v,
        _ => panic!("updates expected"),
    };
    assert_eq!(statuses[0].1.branch_statuses[0].status, BranchStatus::Integrated);
    assert_eq!(statuses[0].1.tree_status, TreeStatus::Empty);

    // A fully integrated stack with nothing uncommitted may be deleted.
    let resolutions =
        vec![Resolution { branch_id: 1, branch_tree: find(&ws, 1).tree.copy(), approach: ResolutionApproach::Delete }];
    let outcome = integrate_upstream(&mut ws, t1, &resolutions, &None, &integrated).unwrap();
    assert!(outcome.archived_branches.is_empty());
    assert!(ws.stacks.is_empty());
    assert_eq!(ws.worktree.entries, vec![Some(10), Some(20)]);
}

#[test]
fn rebase_resolution_archives_emptied_branch() {
    let mut store = ObjectStore::new();
    let t0 = commit(&mut store, vec![], &[Some(10), None, None], None);
    let c1 = commit(&mut store, vec![t0], &[Some(10), Some(20)], Some(1));
    let c2 = commit(&mut store, vec![c1], &[Some(10), Some(20), Some(30)], Some(2));
    let t1 = commit(&mut store, vec![c1], &[Some(11), Some(20)], None);
    let mut ws = workspace(store, t0);
    let s_tree = ws.store.tree_of(c2).copy();
    ws.stacks.push(stack(1, vec![branch("low", vec![c1]), branch("high", vec![c2])], c2, s_tree));
    let integrated = vec![false, true, false, false];
    let resolutions =
        vec![Resolution { branch_id: 1, branch_tree: find(&ws, 1).tree.copy(), approach: ResolutionApproach::Rebase }];
    let outcome = integrate_upstream(&mut ws, t1, &resolutions, &None, &integrated).unwrap();
    assert_eq!(outcome.archived_branches, vec![String::from("low")]);
    let s = find(&ws, 1);
    assert!(s.branches[0].archived);
    assert!(!s.branches[1].archived);
    assert_eq!(s.branches[1].commits.len(), 1);
    assert_eq!(ws.store.commits[s.head].parents, vec![t1]);
    assert_eq!(ws.store.tree_of(s.head).entries, vec![Some(11), Some(20), Some(30)]);
}

#[test]
fn unapply_and_merge_resolutions() {
    let mut store = ObjectStore::new();
    let t0 = commit(&mut store, vec![], &[Some(10), Some(1), Some(1)], None);
    let a = commit(&mut store, vec![t0], &[Some(10), Some(2), Some(1)], Some(1));
    let b = commit(&mut store, vec![t0], &[Some(10), Some(1), Some(3)], Some(2));
    let t1 = commit(&mut store, vec![t0], &[Some(11), Some(1), Some(1)], None);
    let mut ws = workspace(store, t0);
    let ta = ws.store.tree_of(a).copy();
    let tb = ws.store.tree_of(b).copy();
    ws.stacks.push(stack(1, vec![branch("a", vec![a])], a, ta));
    ws.stacks.push(stack(2, vec![branch("b", vec![b])], b, tb));
    let resolutions = vec![
        Resolution { branch_id: 2, branch_tree: find(&ws, 2).tree.copy(), approach: ResolutionApproach::Unapply },
        Resolution { branch_id: 1, branch_tree: find(&ws, 1).tree.copy(), approach: ResolutionApproach::Merge },
    ];
    integrate_upstream(&mut ws, t1, &resolutions, &None, &vec![]).unwrap();
    assert!(!find(&ws, 2).in_workspace);
    let s = find(&ws, 1);
    assert!(s.in_workspace);
    assert_eq!(ws.store.commits[s.head].parents, vec![a, t1]);
    assert_eq!(ws.store.tree_of(s.head).entries, vec![Some(11), Some(2), Some(1)]);
    assert_eq!(ws.worktree.entries, vec![Some(11), Some(2), Some(1)]);
}

#[test]
fn duplicate_resolutions_are_refused() {
    let mut store = ObjectStore::new();
    let t0 = commit(&mut store, vec![], &[Some(10)], None);
    let a = commit(&mut store, vec![t0], &[Some(10), Some(2)], Some(1));
    let t1 = commit(&mut store, vec![t0], &[Some(11)], None);
    let mut ws = workspace(store, t0);
    let ta = ws.store.tree_of(a).copy();
    let tb = ws.store.tree_of(a).copy();
    ws.stacks.push(stack(1, vec![branch("a", vec![a])], a, ta));
    ws.stacks.push(stack(2, vec![branch("b", vec![a])], a, tb));
    let twice = vec![
        Resolution { branch_id: 1, branch_tree: find(&ws, 1).tree.copy(), approach: ResolutionApproach::Rebase },
        Resolution { branch_id: 1, branch_tree: find(&ws, 1).tree.copy(), approach: ResolutionApproach::Rebase },
    ];
    assert_eq!(integrate_upstream(&mut ws, t1, &twice, &None, &vec![]).unwrap_err(), IntegrationError::StaleResolutions);
}

#[test]
fn conflicting_stacks_fail_integration_without_changes() {
    let mut store = ObjectStore::new();
    let t0 = commit(&mut store, vec![], &[Some(10), Some(1)], None);
    let a = commit(&mut store, vec![t0], &[Some(10), Some(2)], Some(1));
    let b = commit(&mut store, vec![t0], &[Some(10), Some(3)], Some(2));
    let t1 = commit(&mut store, vec![t0], &[Some(11), Some(1)], None);
    let mut ws = workspace(store, t0);
    let ta = ws.store.tree_of(a).copy();
    let tb = ws.store.tree_of(b).copy();
    ws.stacks.push(stack(1, vec![branch("a", vec![a])], a, ta));
    ws.stacks.push(stack(2, vec![branch("b", vec![b])], b, tb));
    let resolutions = vec![
        Resolution { branch_id: 1, branch_tree: find(&ws, 1).tree.copy(), approach: ResolutionApproach::Rebase },
        Resolution { branch_id: 2, branch_tree: find(&ws, 2).tree.copy(), approach: ResolutionApproach::Rebase },
    ];
    assert_eq!(integrate_upstream(&mut ws, t1, &resolutions, &None, &vec![]).unwrap_err(), IntegrationError::Conflict);
    assert_eq!(ws.target.sha, t0);
    assert_eq!(find(&ws, 1).head, a);
    assert_eq!(find(&ws, 2).head, b);
}

#[test]
fn create_stack_claims_uncommitted_paths() {
    let mut store = ObjectStore::new();
    let t0 = commit(&mut store, vec![], &[Some(10)], None);
    let mut ws = workspace(store, t0);
    ws.worktree = tree(&[Some(10), Some(20), Some(30)]);
    let req = BranchCreateRequest {
        id: 7,
        name: Some(String::from("feature")),
        ownership: vec![FILE],
        order: None,
        selected_for_changes: None,
    };
    assert_eq!(create_virtual_branch(&mut ws, &req), Ok(7));
    let s = find(&ws, 7);
    assert_eq!(s.head, t0);
    assert!(s.in_workspace);
    assert_eq!(s.branches.len(), 1);
    assert_eq!(s.tree.get(FILE), Some(20));
    assert_eq!(s.tree.get(OTHER), None);
    assert_eq!(s.tree.get(README), Some(10));
    assert_eq!(create_virtual_branch(&mut ws, &req), Err(CreateError::DuplicateId));
}

#[test]
fn create_from_branch_rebases_stale_branch() {
    let mut store = ObjectStore::new();
    let t0 = commit(&mut store, vec![], &[Some(10)], None);
    let f1 = commit(&mut store, vec![t0], &[Some(10), Some(20)], Some(5));
    let t1 = commit(&mut store, vec![t0], &[Some(11)], None);
    let mut ws = workspace(store, t1);
    assert_eq!(create_virtual_branch_from_branch(&mut ws, 3, String::from("feature"), f1), Ok(3));
    let s = find(&ws, 3);
    assert!(s.in_workspace);
    assert_eq!(ws.store.commits[s.head].parents, vec![t1]);
    assert_eq!(ws.store.tree_of(s.head).entries, vec![Some(11), Some(20)]);
    assert_eq!(s.tree.entries, vec![Some(11), Some(20)]);
    assert_eq!(ws.worktree.entries, vec![Some(11), Some(20)]);
    assert_eq!(
        create_virtual_branch_from_branch(&mut ws, 3, String::from("again"), f1),
        Err(CreateError::DuplicateId)
    );
    assert_eq!(
        create_virtual_branch_from_branch(&mut ws, 4, String::from("missing"), 77),
        Err(CreateError::MissingCommit)
    );
}

#[test]
fn apply_unapplies_conflicting_stacks_and_merges_when_rebase_forbidden() {
    let mut store = ObjectStore::new();
    let t0 = commit(&mut store, vec![], &[Some(10), Some(1)], None);
    let a = commit(&mut store, vec![t0], &[Some(10), Some(2)], Some(1));
    let t1 = commit(&mut store, vec![t0], &[Some(11), Some(1)], None);
    let mut ws = workspace(store, t1);
    let other_tree = tree(&[Some(11), Some(9)]);
    ws.stacks.push(stack(1, vec![branch("other", vec![])], t1, other_tree));
    ws.worktree = tree(&[Some(11), Some(9)]);
    let ta = ws.store.tree_of(a).copy();
    let mut s2 = stack(2, vec![branch("a", vec![a])], a, ta);
    s2.in_workspace = false;
    s2.allow_rebasing = false;
    ws.stacks.push(s2);
    assert_eq!(apply_branch(&mut ws, 2).unwrap(), "stack-2");
    assert!(!find(&ws, 1).in_workspace);
    let s = find(&ws, 2);
    assert!(s.in_workspace);
    assert_eq!(ws.store.commits[s.head].parents, vec![a, t1]);
    assert_eq!(s.tree.entries, vec![Some(11), Some(2)]);
    assert!(s.selected_for_changes);
    assert_eq!(apply_branch(&mut ws, 99), Err(ApplyError::NotFound));
}

#[test]
fn checkout_and_transition_of_uncommitted_changes() {
    let mut store = ObjectStore::new();
    let t0 = commit(&mut store, vec![], &[Some(10), Some(1), Some(1)], None);
    let mut ws = workspace(store, t0);
    ws.stacks.push(stack(1, vec![branch("a", vec![])], t0, tree(&[Some(10), Some(2), Some(1)])));
    ws.stacks.push(stack(2, vec![branch("b", vec![])], t0, tree(&[Some(10), Some(1), Some(3)])));
    let t = checkout_branch_trees(&mut ws).unwrap();
    assert_eq!(t.entries, vec![Some(10), Some(2), Some(3)]);
    assert_eq!(ws.worktree.entries, vec![Some(10), Some(2), Some(3)]);
    ws.stacks.push(stack(3, vec![branch("c", vec![])], t0, tree(&[Some(10), Some(5), Some(1)])));
    assert_eq!(checkout_branch_trees(&mut ws).unwrap_err(), ComposeError::Conflict { stack_index: 2 });

    let before = WorkspaceState::create(tree(&[Some(10)]), vec![]);
    let after = WorkspaceState::create(tree(&[Some(10)]), vec![tree(&[Some(12)])]);
    ws.worktree = tree(&[Some(10), Some(40)]);
    update_uncommited_changes(&mut ws, &before, &after);
    assert_eq!(ws.worktree.entries, vec![Some(12), Some(40)]);
}

#[test]
fn updated_branch_head_carries_uncommitted_tree() {
    let mut store = ObjectStore::new();
    let t0 = commit(&mut store, vec![], &[Some(10), Some(1)], None);
    let t1 = commit(&mut store, vec![t0], &[Some(11), Some(1)], None);
    let s = stack(1, vec![branch("a", vec![])], t0, tree(&[Some(10), Some(7)]));
    let u = compute_updated_branch_head(&mut store, &s, t1);
    assert_eq!(u.head, t1);
    assert_eq!(u.tree.entries, vec![Some(11), Some(7)]);
    let t2 = commit(&mut store, vec![t1], &[Some(11), Some(8)], None);
    let u = compute_updated_branch_head(&mut store, &s, t2);
    assert_ne!(u.head, t2);
    assert!(store.is_conflicted(u.head));
    assert_eq!(u.tree.entries, vec![Some(11), Some(8)]);
}

#[test]
fn cherry_rebase_keeps_going_on_conflicts() {
    let mut store = ObjectStore::new();
    let t0 = commit(&mut store, vec![], &[Some(1), Some(1)], None);
    let a = commit(&mut store, vec![t0], &[Some(2), Some(1)], None);
    let b = commit(&mut store, vec![a], &[Some(2), Some(3)], None);
    let clean = commit(&mut store, vec![t0], &[Some(1), Some(1), Some(4)], None);
    let top = cherry_rebase(&mut store, clean, t0, b).unwrap().unwrap();
    assert_eq!(store.tree_of(top).entries, vec![Some(2), Some(3), Some(4)]);
    assert_eq!(cherry_rebase(&mut store, clean, b, b), Ok(None));
    let hostile = commit(&mut store, vec![t0], &[Some(9), Some(1)], None);
    let mut ids = vec![b, a];
    let before = store.len();
    let top = cherry_rebase_group(&mut store, hostile, &mut ids).unwrap();
    assert_eq!(ids, vec![a, b]);
    assert_eq!(top, before + 1);
    assert_eq!(store.len(), before + 2);
    assert!(store.is_conflicted(before));
    assert_eq!(store.commits[before].parents, vec![hostile]);
    assert_eq!(store.commits[top].parents, vec![before]);
}

#[test]
fn base_branch_divergence() {
    let mut store = ObjectStore::new();
    let t0 = commit(&mut store, vec![], &[Some(1)], None);
    let local = commit(&mut store, vec![t0], &[Some(2)], None);
    let up1 = commit(&mut store, vec![t0], &[Some(3)], None);
    let up2 = commit(&mut store, vec![up1], &[Some(4)], None);
    let ws = workspace(store, local);
    let data = get_base_branch_data(&ws, up2);
    assert_eq!(data.branch_name, "refs/remotes/origin/master");
    assert_eq!(data.diverged_ahead, vec![local]);
    assert_eq!(data.diverged_behind, vec![up2, up1]);
    assert_eq!(data.upstream_commits, vec![up2, up1]);
    assert_eq!(data.behind, 2);
    assert!(data.diverged);
    let even = get_base_branch_data(&ws, local);
    assert_eq!(even.behind, 0);
    assert!(!even.diverged);
}

#[test]
fn set_base_branch_moves_head_work_into_a_stack() {
    let mut store = ObjectStore::new();
    let t0 = commit(&mut store, vec![], &[Some(1)], None);
    let local = commit(&mut store, vec![t0], &[Some(1), Some(2)], None);
    let up = commit(&mut store, vec![t0], &[Some(3)], None);
    let mut ws = workspace(store, t0);
    ws.target.branch = String::from("refs/remotes/origin/old");
    ws.worktree = tree(&[Some(1), Some(2), Some(7)]);
    let data = set_base_branch(
        &mut ws,
        String::from("refs/remotes/origin/master"),
        String::from("https://example.com/other.git"),
        up,
        local,
        false,
        String::from("feature"),
        5,
    )
    .unwrap();
    assert_eq!(ws.target.sha, t0);
    assert_eq!(ws.target.branch, "refs/remotes/origin/master");
    assert_eq!(ws.target.remote_url, "https://example.com/other.git");
    assert_eq!(data.behind, 1);
    assert_eq!(data.diverged_behind, vec![up]);
    assert!(!data.diverged);
    let s = find(&ws, 5);
    assert_eq!(s.head, local);
    assert_eq!(s.branches[0].commits, vec![local]);
    assert_eq!(s.tree.entries, vec![Some(1), Some(2), Some(7)]);
    assert!(s.in_workspace);

    // The same branch again changes nothing.
    let again = set_base_branch(
        &mut ws,
        String::from("refs/remotes/origin/master"),
        String::from("https://example.com/other.git"),
        up,
        up,
        false,
        String::from("feature"),
        6,
    )
    .unwrap();
    assert_eq!(again.base_sha, t0);
    assert_eq!(ws.stacks.len(), 1);

    set_target_push_remote(&mut ws, String::from("origin"));
    assert_eq!(ws.target.push_remote_name, Some(String::from("origin")));
}

#[test]
fn set_base_branch_errors() {
    let mut store = ObjectStore::new();
    let t0 = commit(&mut store, vec![], &[Some(1)], None);
    let lone = commit(&mut store, vec![], &[Some(2)], None);
    let mut ws = workspace(store, t0);
    let missing = set_base_branch(&mut ws, String::from("b"), String::from("u"), 9, t0, false, String::from("h"), 1);
    assert_eq!(missing.unwrap_err(), BaseError::MissingCommit);
    let unrelated = set_base_branch(&mut ws, String::from("b"), String::from("u"), lone, t0, false, String::from("h"), 1);
    assert_eq!(unrelated.unwrap_err(), BaseError::NoMergeBase);
    ws.stacks.push(stack(1, vec![branch("x", vec![])], t0, tree(&[Some(1)])));
    let taken = set_base_branch(&mut ws, String::from("b"), String::from("u"), t0, t0, true, String::from("h"), 1);
    assert!(taken.is_ok());
    ws.worktree = tree(&[Some(5)]);
    let dup = set_base_branch(&mut ws, String::from("c"), String::from("u"), t0, t0, false, String::from("h"), 1);
    assert_eq!(dup.unwrap_err(), BaseError::DuplicateId);
}

#[test]
fn stack_without_live_branches_has_no_status() {
    let mut store = ObjectStore::new();
    let t0 = commit(&mut store, vec![], &[Some(10)], None);
    let t1 = commit(&mut store, vec![t0], &[Some(11)], None);
    let mut ws = workspace(store, t0);
    let mut archived = branch("old", vec![]);
    archived.archived = true;
    ws.stacks.push(stack(1, vec![archived], t0, tree(&[Some(10)])));
    assert_eq!(
        StackStatus::of_stack(&ws.store, &ws.stacks[0], t1, &vec![]).unwrap_err(),
        StatusError::NoBranches
    );
    assert!(upstream_integration_statuses(&ws, t1, &vec![]).is_err());
    let resolutions = vec![Resolution { branch_id: 1, branch_tree: tree(&[Some(10)]), approach: ResolutionApproach::Unapply }];
    assert_eq!(integrate_upstream(&mut ws, t1, &resolutions, &None, &vec![]).unwrap_err(), IntegrationError::NoBranches);
}

#[test]
fn cherry_rebase_group_refuses_missing_commits() {
    let mut store = ObjectStore::new();
    let t0 = commit(&mut store, vec![], &[Some(1)], None);
    let mut ids = vec![5, t0];
    assert_eq!(cherry_rebase_group(&mut store, t0, &mut ids), Err(CherryRebaseError::MissingCommit));
    assert_eq!(store.len(), 1);
}

#[test]
fn selection_goes_to_first_applied_stack() {
    let mut stacks = vec![
        stack(1, vec![branch("a", vec![])], 0, Tree::new()),
        stack(2, vec![branch("b", vec![])], 0, Tree::new()),
        stack(3, vec![branch("c", vec![])], 0, Tree::new()),
    ];
    stacks[0].in_workspace = false;
    ensure_selected_for_changes(&mut stacks);
    let selected: Vec<bool> = stacks.iter().map(|s| s.selected_for_changes).collect();
    assert_eq!(selected, vec![false, true, false]);
    stacks[1].selected_for_changes = false;
    stacks[2].selected_for_changes = true;
    ensure_selected_for_changes(&mut stacks);
    let selected: Vec<bool> = stacks.iter().map(|s| s.selected_for_changes).collect();
    assert_eq!(selected, vec![false, false, true]);
}

#[test]
fn unapply_then_apply_keeps_uncommitted_changes() {
    let mut store = ObjectStore::new();
    let t0 = commit(&mut store, vec![], &[Some(10)], None);
    let mut ws = workspace(store, t0);
    ws.worktree = tree(&[Some(10), Some(20)]);
    let req = BranchCreateRequest {
        id: 1,
        name: Some(String::from("feature")),
        ownership: vec![FILE],
        order: None,
        selected_for_changes: None,
    };
    create_virtual_branch(&mut ws, &req).unwrap();

    let before = ws.store.len();
    unapply_stack(&mut ws, 1, 77).unwrap();
    assert_eq!(ws.store.len(), before + 1);
    assert_eq!(find(&ws, 1).head, before);
    assert_eq!(find(&ws, 1).wip_change_id, Some(77));
    assert_eq!(find(&ws, 1).branches[0].commits, vec![before]);
    assert_eq!(ws.worktree.get(FILE), None);
    assert_eq!(ws.worktree.get(README), Some(10));
    let s = find(&ws, 1);
    assert!(!s.in_workspace);
    assert!(!s.selected_for_changes);
    assert_eq!(s.tree.get(FILE), Some(20));

    assert_eq!(apply_branch(&mut ws, 1).unwrap(), "feature");
    let s = find(&ws, 1);
    assert_eq!(s.head, t0);
    assert_eq!(s.wip_change_id, None);
    assert!(s.branches[0].commits.is_empty());
    assert!(s.in_workspace);
    assert!(s.selected_for_changes);
    assert_eq!(s.tree.get(FILE), Some(20));
    assert_eq!(ws.worktree.get(FILE), Some(20));
    assert_eq!(unapply_stack(&mut ws, 9, 78), Err(ApplyError::NotFound));
}

#[test]
fn checkout_combines_over_the_heads_common_ancestor() {
    let mut store = ObjectStore::new();
    let t0 = commit(&mut store, vec![], &[Some(10), Some(1), Some(1)], None);
    let t1 = commit(&mut store, vec![t0], &[Some(11), Some(1), Some(1)], None);
    let mut ws = workspace(store, t1);
    ws.stacks.push(stack(1, vec![branch("a", vec![])], t0, tree(&[Some(10), Some(2), Some(1)])));
    ws.stacks.push(stack(2, vec![branch("b", vec![])], t0, tree(&[Some(10), Some(1), Some(3)])));
    // Over t0 the two stacks merge cleanly; t1's change is not theirs.
    let t = checkout_branch_trees(&mut ws).unwrap();
    assert_eq!(t.entries, vec![Some(10), Some(2), Some(3)]);
}

#[test]
fn create_stack_names_orders_and_selection() {
    let mut store = ObjectStore::new();
    let t0 = commit(&mut store, vec![], &[Some(10)], None);
    let mut ws = workspace(store, t0);
    let req = |id: u64, name: Option<&str>, order: Option<usize>, selected: Option<bool>| BranchCreateRequest {
        id,
        name: name.map(String::from),
        ownership: vec![],
        order,
        selected_for_changes: selected,
    };
    create_virtual_branch(&mut ws, &req(1, None, None, None)).unwrap();
    assert_eq!(find(&ws, 1).name, "Lane");
    assert_eq!(find(&ws, 1).order, 0);
    assert!(find(&ws, 1).selected_for_changes);

    create_virtual_branch(&mut ws, &req(2, None, None, None)).unwrap();
    assert_eq!(find(&ws, 2).name, "Lane 1");
    assert_eq!(find(&ws, 2).order, 1);
    assert!(!find(&ws, 2).selected_for_changes);

    // Placed first: the others move down, keeping their order.
    create_virtual_branch(&mut ws, &req(3, Some("feature"), Some(0), Some(true))).unwrap();
    assert_eq!(find(&ws, 3).order, 0);
    assert_eq!(find(&ws, 1).order, 1);
    assert_eq!(find(&ws, 2).order, 2);
    assert!(find(&ws, 3).selected_for_changes);
    assert!(!find(&ws, 1).selected_for_changes);

    create_virtual_branch(&mut ws, &req(4, Some("feature"), None, Some(false))).unwrap();
    assert_eq!(find(&ws, 4).name, "feature 1");
    assert_eq!(find(&ws, 4).order, 3);
    assert!(!find(&ws, 4).selected_for_changes);
    assert!(find(&ws, 3).selected_for_changes);
}

#[test]
fn base_branch_recent_commits() {
    let mut store = ObjectStore::new();
    let mut head = commit(&mut store, vec![], &[Some(0)], None);
    for i in 1..25u64 {
        head = commit(&mut store, vec![head], &[Some(i)], None);
    }
    let ws = workspace(store, head);
    let data = get_base_branch_data(&ws, head);
    assert_eq!(data.recent_commits.len(), 20);
    assert_eq!(data.recent_commits[0], head);
    assert_eq!(data.recent_commits[19], head - 19);
    assert!(!data.conflicted);
}

#[test]
fn workspace_state_from_applied_heads() {
    let mut store = ObjectStore::new();
    let t0 = commit(&mut store, vec![], &[Some(10)], None);
    let a = commit(&mut store, vec![t0], &[Some(10), Some(2)], None);
    let mut ws = workspace(store, t0);
    ws.stacks.push(stack(1, vec![branch("a", vec![a])], a, tree(&[Some(10), Some(2), Some(3)])));
    let mut off = stack(2, vec![branch("b", vec![])], t0, tree(&[Some(9)]));
    off.in_workspace = false;
    ws.stacks.push(off);
    let state = WorkspaceState::of_workspace(&ws);
    assert_eq!(state.base.entries, vec![Some(10)]);
    assert_eq!(state.heads.len(), 1);
    assert_eq!(state.heads[0].entries, vec![Some(10), Some(2)]);
}
