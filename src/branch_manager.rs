use vstd::prelude::*;

use crate::commits::{merge_base_of, merge_commit_model};
use crate::compose::{
    any_step_conflicts, combine, compose, first_conflict, move_tree_between_workspaces, tree_views,
    ComposeError, WorkspaceState,
};
use crate::stack_rebase::{lemma_rebase_branches_wf, rebase_branches, rebase_stack_branches};
use crate::stack::{
    any_selected, branch_in, branch_views, commit_count, ensure_selected_for_changes, exactly_one_selected,
    has_selected, workspace_stacks, Branch,
    Stack, StackId, Workspace,
};
use crate::store::{extends, lemma_extends_push, store_wf, Commit, CommitModel, ObjectStore};
use crate::graph::{first_parent_log, lemma_log_bounds};
use crate::tree::{entry, has_conflict, merge_trees, merged, same_tree, Tree};

verus! {

/// Why a stack could not be applied.
#[derive(Clone, Copy, Debug, PartialEq, Eq, Structural)]
pub enum ApplyError {
    /// No stack has that id.
    NotFound,
}

/// The real trees of the applied stacks' heads, in order.
pub open spec fn applied_head_trees(s: Seq<CommitModel>, stacks: Seq<Stack>) -> Seq<Seq<Option<u64>>> {
    workspace_stacks(stacks).map_values(|st: Stack| s[st.head as int].tree)
}

impl WorkspaceState {
    /// The state the workspace is composed from, as its commits have it: the
    /// target's tree as the base and the real trees of the applied stacks'
    /// heads, in order.
    pub fn of_workspace(ws: &Workspace) -> (r: WorkspaceState)
        requires
            ws.sound(),
        ensures
            r.base@ == ws.store@[ws.target.sha as int].tree,
            tree_views(r.heads@) == applied_head_trees(ws.store@, ws.stacks@),
    {
        let ghost all = ws.stacks@;
        let mut heads: Vec<Tree> = Vec::new();
        let mut i: usize = 0;
        assert(all.take(0) =~= Seq::<Stack>::empty());
        while i < ws.stacks.len()
            invariant
                ws.sound(),
                all == ws.stacks@,
                i <= all.len(),
                tree_views(heads@) == applied_head_trees(ws.store@, all.take(i as int)),
            decreases all.len() - i,
        {
            assert(all.take(i + 1).drop_last() =~= all.take(i as int));
            assert(all.take(i + 1).last() == all[i as int]);
            let ghost before = heads@;
            if ws.stacks[i].in_workspace {
                assert(all[i as int].in_store(ws.store@.len()));
                heads.push(ws.store.tree_of(ws.stacks[i].head).copy());
                assert(tree_views(heads@) =~= tree_views(before).push(ws.store@[all[i as int].head as int].tree));
                assert(applied_head_trees(ws.store@, all.take(i + 1)) =~= applied_head_trees(
                    ws.store@,
                    all.take(i as int),
                ).push(ws.store@[all[i as int].head as int].tree));
            } else {
                assert(applied_head_trees(ws.store@, all.take(i + 1)) =~= applied_head_trees(
                    ws.store@,
                    all.take(i as int),
                ));
            }
            i = i + 1;
        }
        assert(all.take(all.len() as int) =~= all);
        WorkspaceState::create(ws.store.tree_of(ws.target.sha).copy(), heads)
    }
}

/// `k` is the first stack with id `id`.
pub open spec fn first_stack(stacks: Seq<Stack>, id: StackId, k: int) -> bool {
    &&& 0 <= k < stacks.len()
    &&& stacks[k].id == id
    &&& forall|m: int| 0 <= m < k ==> #[trigger] stacks[m].id != id
}

/// The tree that a stack's changes are measured from: the merge base of the
/// target and the stack's head.
pub open spec fn stack_base_tree(s: Seq<CommitModel>, target: usize, head: usize) -> Seq<Option<u64>> {
    match merge_base_of(s, target, head) {
        Some(m) => s[m as int].tree,
        None => Seq::empty(),
    }
}

/// A stack is stale when it does not sit on the target or its head has no
/// change id: it is then brought onto the target before it is applied.
pub open spec fn stack_is_stale(s: Seq<CommitModel>, target: usize, head: usize) -> bool {
    merge_base_of(s, target, head) != Some(target) || s[head as int].change_id is None
}

pub open spec fn apply_merge_message() -> Seq<char> {
    "Merge target into stack"@
}

/// Branch views with the top commit of the top branch dropped.
pub open spec fn drop_top_commit(v: Seq<(Seq<char>, bool, Seq<usize>)>) -> Seq<(Seq<char>, bool, Seq<usize>)> {
    v.update(v.len() - 1, (v.last().0, v.last().1, v.last().2.drop_last()))
}

/// The stack's head is the placeholder commit that saved its uncommitted
/// changes: clean, carrying the placeholder's change id, on a parent, and
/// the top commit of the top branch.
pub open spec fn wip_undoes(
    s: Seq<CommitModel>,
    head: usize,
    v: Seq<(Seq<char>, bool, Seq<usize>)>,
    wip: Option<u64>,
) -> bool {
    &&& wip is Some
    &&& s[head as int].markers is None
    &&& s[head as int].change_id == wip
    &&& s[head as int].parents.len() > 0
    &&& v.len() > 0
    &&& v.last().2.len() > 0
    &&& v.last().2.last() == head
}

/// Undoes the placeholder commit of a stack coming back to the workspace:
/// when its head is that commit and is not conflicted, the head moves back
/// to the commit's parent and the stack's tree keeps the saved changes as
/// uncommitted ones. The placeholder is forgotten unless the head is
/// conflicted.
fn undo_wip(store: &ObjectStore, st: Stack) -> (r: Stack)
    requires
        store.wf(),
        st.in_store(store@.len()),
    ensures
        ({
            let v = branch_views(st.branches@);
            let u = wip_undoes(store@, st.head, v, st.wip_change_id);
            &&& r.id == st.id
            &&& r.name@ == st.name@
            &&& r.tree@ == st.tree@
            &&& r.in_workspace == st.in_workspace
            &&& r.allow_rebasing == st.allow_rebasing
            &&& r.order == st.order
            &&& r.selected_for_changes == st.selected_for_changes
            &&& r.head == if u {
                store@[st.head as int].parents[0]
            } else {
                st.head
            }
            &&& branch_views(r.branches@) == if u {
                drop_top_commit(v)
            } else {
                v
            }
            &&& r.wip_change_id == if st.wip_change_id is Some && store@[st.head as int].markers is Some {
                st.wip_change_id
            } else {
                None
            }
            &&& r.in_store(store@.len())
        }),
{
    let mut st = st;
    let ghost v = branch_views(st.branches@);
    let ghost old_st = st;
    assert(store.commits@[st.head as int]@ == store@[st.head as int]);
    let conflicted = store.is_conflicted(st.head);
    if let Some(w) = st.wip_change_id {
        if !conflicted {
            let c = &store.commits[st.head];
            let n = st.branches.len();
            if c.change_id == Some(w) && c.parents.len() > 0 && n > 0 && st.branches[n - 1].commits.len() > 0
                && st.branches[n - 1].commits[st.branches[n - 1].commits.len() - 1] == st.head {
                let parent = c.parents[0];
                assert(parent < st.head) by {
                    assert(store@[st.head as int].parents[0] < st.head);
                }
                let mut b = st.branches[n - 1].copy();
                let ghost bc = b.commits@;
                b.commits.pop();
                let ghost nb = (b.name@, b.archived, b.commits@);
                st.branches.set(n - 1, b);
                assert(v[n - 1] == (old_st.branches@[n - 1].name@, old_st.branches@[n - 1].archived, bc));
                assert(branch_views(st.branches@) =~= drop_top_commit(v));
                st.head = parent;
                proof {
                    assert forall|i: int| 0 <= i < st.branches@.len() implies branch_in(#[trigger] st.branches@[i], store@.len()) by {
                        assert(branch_in(old_st.branches@[i], store@.len()));
                        if i == n - 1 {
                            assert forall|k: int| 0 <= k < st.branches@[i].commits@.len() implies #[trigger] st.branches@[i].commits@[k] < store@.len() by {
                                assert(st.branches@[i].commits@[k] == bc[k]);
                            }
                        }
                    }
                }
            }
        }
    }
    if !conflicted {
        st.wip_change_id = None;
    }
    st
}

/// The head a stack has once brought onto the target `t`, before its
/// placeholder commit is undone: its own head when it is current, else the
/// top of its rebased branches, or the merge commit written next.
pub open spec fn brought_head(s: Seq<CommitModel>, t: usize, st: Stack) -> usize {
    if !stack_is_stale(s, t, st.head) {
        st.head
    } else if st.allow_rebasing {
        rebase_branches(s, t, st.branches@, Seq::empty(), false).head
    } else {
        s.len() as usize
    }
}

/// The branches of a stack once brought onto the target `t`.
pub open spec fn brought_views(s: Seq<CommitModel>, t: usize, st: Stack) -> Seq<(Seq<char>, bool, Seq<usize>)> {
    if stack_is_stale(s, t, st.head) && st.allow_rebasing {
        rebase_branches(s, t, st.branches@, Seq::empty(), false).branches
    } else {
        branch_views(st.branches@)
    }
}

/// Applies the stack with id `stack_id`. When its tree clashes with the
/// uncommitted changes, every other applied stack is unapplied first. A
/// stale stack is brought onto the target: its branches are rebased there
/// when rebasing is allowed, else its head is merged with the target, and
/// its tree becomes the new head's tree. When the head is then the clean
/// placeholder commit that saved the stack's changes on unapplying, that
/// commit is undone: the head goes back to its parent and the changes stay
/// in the stack's tree, uncommitted. The first applied stack is selected for
/// changes if none is. The working tree is then carried from the
/// composition of the applied stacks' trees as it was to the one as it is.
/// Returns the stack's name.
#[verifier::spinoff_prover]
pub fn apply_branch(ws: &mut Workspace, stack_id: StackId) -> (r: Result<String, ApplyError>)
    requires
        old(ws).wf(),
    ensures
        store_wf(final(ws).store@),
        extends(final(ws).store@, old(ws).store@),
        final(ws).target == old(ws).target,
        r is Err <==> forall|k: int| !#[trigger] first_stack(old(ws).stacks@, stack_id, k),
        r is Err ==> final(ws).stacks == old(ws).stacks && final(ws).worktree == old(ws).worktree,
        r is Ok ==> has_selected(final(ws).stacks@),
        r is Ok ==> final(ws).worktree@ == merged(
            compose(old(ws).store@[old(ws).target.sha as int].tree, applied_trees(old(ws).stacks@)),
            old(ws).worktree@,
            compose(old(ws).store@[old(ws).target.sha as int].tree, applied_trees(final(ws).stacks@)),
        ),
        r is Ok ==> exists|k: int| {
            let s = old(ws).store@;
            let t = old(ws).target.sha;
            let st = old(ws).stacks@[k];
            let conflicted = has_conflict(stack_base_tree(s, t, st.head), st.tree@, old(ws).worktree@);
            &&& #[trigger] first_stack(old(ws).stacks@, stack_id, k)
            &&& r matches Ok(name) && name@ == st.name@
            &&& final(ws).stacks@.len() == old(ws).stacks@.len()
            &&& final(ws).stacks@[k].in_workspace
            &&& forall|j: int| 0 <= j < final(ws).stacks@.len() ==> (#[trigger] final(ws).stacks@[j]).id
                == old(ws).stacks@[j].id
            &&& forall|j: int|
                0 <= j < final(ws).stacks@.len() && j != k ==> (#[trigger] final(ws).stacks@[j]).in_workspace
                    == (old(ws).stacks@[j].in_workspace && !conflicted)
            &&& final(ws).stacks@[k].name@ == st.name@
            &&& !has_selected(old(ws).stacks@) ==> exactly_one_selected(
                final(ws).stacks@,
            )
            &&& stack_is_stale(s, t, st.head) && !st.allow_rebasing ==> final(ws).store@ == s.push(
                merge_commit_model(s, st.head, t, apply_merge_message()),
            )
            &&& final(ws).stacks@[k].head == if wip_undoes(
                final(ws).store@,
                brought_head(s, t, st),
                brought_views(s, t, st),
                st.wip_change_id,
            ) {
                final(ws).store@[brought_head(s, t, st) as int].parents[0]
            } else {
                brought_head(s, t, st)
            }
            &&& branch_views(final(ws).stacks@[k].branches@) == if wip_undoes(
                final(ws).store@,
                brought_head(s, t, st),
                brought_views(s, t, st),
                st.wip_change_id,
            ) {
                drop_top_commit(brought_views(s, t, st))
            } else {
                brought_views(s, t, st)
            }
            &&& final(ws).stacks@[k].tree@ == if stack_is_stale(s, t, st.head) {
                final(ws).store@[brought_head(s, t, st) as int].tree
            } else {
                st.tree@
            }
            &&& final(ws).stacks@[k].wip_change_id == if st.wip_change_id is Some
                && final(ws).store@[brought_head(s, t, st) as int].markers is Some {
                st.wip_change_id
            } else {
                None
            }
        },
{
    let ghost s0 = ws.store@;
    let ghost stacks0 = ws.stacks@;
    assert(s0.subrange(0, s0.len() as int) =~= s0);
    let mut pos: usize = 0;
    let mut found = false;
    while pos < ws.stacks.len() && !found
        invariant
            ws.stacks@ == stacks0,
            pos <= ws.stacks@.len(),
            found ==> pos < stacks0.len() && stacks0[pos as int].id == stack_id,
            forall|m: int| 0 <= m < pos ==> #[trigger] stacks0[m].id != stack_id,
        decreases ws.stacks@.len() - pos, if found { 0int } else { 1int },
    {
        if ws.stacks[pos].id == stack_id {
            found = true;
        } else {
            pos = pos + 1;
        }
    }
    if pos == ws.stacks.len() {
        assert forall|k: int| !#[trigger] first_stack(stacks0, stack_id, k) by {
            if first_stack(stacks0, stack_id, k) {
                assert(stacks0[k].id != stack_id);
            }
        }
        return Err(ApplyError::NotFound);
    }
    assert(first_stack(stacks0, stack_id, pos as int));
    let target_tree = ws.store.tree_of(ws.target.sha).copy();
    let old_state = WorkspaceState::create(target_tree.copy(), applied_stack_trees(&ws.stacks));
    let old_cwd = ws.worktree.copy();
    let target = ws.target.sha;
    assert(stacks0[pos as int].in_store(s0.len()));
    let head = ws.stacks[pos].head;
    let merge_base = ws.store.find_merge_base(target, head);
    let base_tree = match merge_base {
        Some(m) => ws.store.tree_of(m).copy(),
        None => Tree::new(),
    };
    let conflicted = merge_trees(&base_tree, &ws.stacks[pos].tree, &ws.worktree).conflicted;
    if conflicted {
        // Applying the requested stack takes priority over the others.
        let mut j: usize = 0;
        while j < ws.stacks.len()
            invariant
                ws.stacks@.len() == stacks0.len(),
                ws.store@ == s0,
                j <= stacks0.len(),
                forall|m: int| 0 <= m < stacks0.len() ==> (#[trigger] ws.stacks@[m]).id == stacks0[m].id,
                forall|m: int| 0 <= m < stacks0.len() ==> (#[trigger] ws.stacks@[m]).head == stacks0[m].head,
                forall|m: int|
                    0 <= m < stacks0.len() ==> (#[trigger] ws.stacks@[m]).in_store(s0.len()),
                forall|m: int|
                    0 <= m < j && m != pos ==> !(#[trigger] ws.stacks@[m]).in_workspace,
                forall|m: int| j <= m < stacks0.len() ==> #[trigger] ws.stacks@[m] == stacks0[m],
                ws.stacks@[pos as int] == stacks0[pos as int],
                pos < stacks0.len(),
                ws.target == old(ws).target,
                ws.worktree == old(ws).worktree,
                ws.store.wf(),
            decreases stacks0.len() - j,
        {
            if j != pos && ws.stacks[j].in_workspace {
                let st = ws.stacks[j].unapplied();
                ws.stacks.set(j, st);
            }
            j = j + 1;
        }
    }
    assert(ws.store.commits@[head as int]@ == s0[head as int]);
    let stale = match merge_base {
        Some(m) => m != target,
        None => true,
    } || ws.store.commits[head].change_id.is_none();
    let stack = if stale {
        if ws.stacks[pos].allow_rebasing {
            let no_integrated: Vec<bool> = Vec::new();
            assert(no_integrated@ =~= Seq::<bool>::empty());
            proof {
                lemma_rebase_branches_wf(s0, target, stacks0[pos as int].branches@, Seq::empty(), false);
            }
            let (top, branches, _archived) = rebase_stack_branches(
                &mut ws.store,
                target,
                &ws.stacks[pos].branches,
                &no_integrated,
                false,
            );
            let tree = ws.store.tree_of(top).copy();
            let st = ws.stacks[pos].moved_to(top, tree, Some(branches));
            assert(st.head == brought_head(s0, target, stacks0[pos as int]));
            assert(branch_views(st.branches@) == brought_views(s0, target, stacks0[pos as int]));
            proof {
                let f = rebase_branches(s0, target, stacks0[pos as int].branches@, Seq::empty(), false);
                assert forall|b: int| 0 <= b < st.branches@.len() implies branch_in(#[trigger] st.branches@[b], ws.store@.len()) by {
                    assert(branch_views(st.branches@)[b] == f.branches[b]);
                    assert forall|c: int| 0 <= c < st.branches@[b].commits@.len() implies #[trigger] st.branches@[b].commits@[c] < ws.store@.len() by {
                        assert(f.branches[b].2[c] < f.store.len());
                    }
                }
            }
            st
        } else {
            let message = String::from_str("Merge target into stack");
            proof {
                reveal_strlit("Merge target into stack");
            }
            let merged_head = ws.store.merge_commits(head, target, message);
            proof {
                lemma_extends_push(s0, merge_commit_model(s0, head, target, apply_merge_message()));
            }
            let tree = ws.store.tree_of(merged_head).copy();
            let st = ws.stacks[pos].moved_to(merged_head, tree, None);
            assert(st.head == brought_head(s0, target, stacks0[pos as int]));
            assert(branch_views(st.branches@) == brought_views(s0, target, stacks0[pos as int]));
            proof {
                assert forall|b: int| 0 <= b < st.branches@.len() implies branch_in(#[trigger] st.branches@[b], ws.store@.len()) by {
                    assert(branch_in(stacks0[pos as int].branches@[b], s0.len()));
                    assert forall|c: int| 0 <= c < st.branches@[b].commits@.len() implies #[trigger] st.branches@[b].commits@[c] < ws.store@.len() by {
                        assert(stacks0[pos as int].branches@[b].commits@[c] < s0.len());
                    }
                }
            }
            st
        }
    } else {
        let tree = ws.stacks[pos].tree.copy();
        let st = ws.stacks[pos].moved_to(head, tree, None);
        assert(st.head == brought_head(s0, target, stacks0[pos as int]));
        assert(branch_views(st.branches@) == brought_views(s0, target, stacks0[pos as int]));
        proof {
            assert forall|b: int| 0 <= b < st.branches@.len() implies branch_in(#[trigger] st.branches@[b], ws.store@.len()) by {
                assert(branch_in(stacks0[pos as int].branches@[b], s0.len()));
                assert forall|c: int| 0 <= c < st.branches@[b].commits@.len() implies #[trigger] st.branches@[b].commits@[c] < ws.store@.len() by {
                    assert(stacks0[pos as int].branches@[b].commits@[c] < s0.len());
                }
            }
        }
        st
    };
    assert(stack.in_store(ws.store@.len()));
    let stack = undo_wip(&ws.store, stack);
    let name = ws.stacks[pos].name.clone();
    let ghost before = ws.stacks@;
    ws.stacks.set(pos, stack);
    proof {
        assert forall|i: int| 0 <= i < ws.stacks@.len() implies (#[trigger] ws.stacks@[i]).in_store(ws.store@.len()) by {
            if i != pos {
                assert(ws.stacks@[i] == before[i]);
                before[i].lemma_in_store_grows(s0.len(), ws.store@.len());
            }
        }
    }
    let ghost placed = ws.stacks@;
    proof {
        if !has_selected(stacks0) && stacks0[pos as int].selected_for_changes {
            assert(placed[pos as int].in_workspace && placed[pos as int].selected_for_changes);
            assert(has_selected(placed));
            assert forall|j: int|
                0 <= j < placed.len() && (#[trigger] placed[j]).in_workspace && placed[j].selected_for_changes implies j
                    == pos by {
                if j != pos {
                    assert(stacks0[j].in_workspace);
                }
            }
            assert(exactly_one_selected(placed));
        }
        if !has_selected(stacks0) && !stacks0[pos as int].selected_for_changes {
            assert forall|j: int| 0 <= j < placed.len() implies !((#[trigger] placed[j]).in_workspace
                && placed[j].selected_for_changes) by {
                if j != pos && placed[j].in_workspace {
                    assert(stacks0[j].in_workspace);
                }
            }
        }
    }
    ensure_selected_for_changes(&mut ws.stacks);
    proof {
        assert(placed[pos as int].in_workspace);
        assert forall|i: int| 0 <= i < ws.stacks@.len() implies (#[trigger] ws.stacks@[i]).in_store(ws.store@.len()) by {
            placed[i].lemma_in_store_same_commits(ws.stacks@[i], ws.store@.len());
        }
        assert forall|i: int, j: int| 0 <= i < j < ws.stacks@.len() implies #[trigger] ws.stacks@[i].id
            != #[trigger] ws.stacks@[j].id by {
            assert(placed[i].id != placed[j].id);
        }
    }
    let new_state = WorkspaceState::create(target_tree, applied_stack_trees(&ws.stacks));
    ws.worktree = move_tree_between_workspaces(&old_cwd, &old_state, &new_state);
    Ok(name)
}

/// The trees of the applied stacks, in order.
pub open spec fn applied_trees(stacks: Seq<Stack>) -> Seq<Seq<Option<u64>>> {
    workspace_stacks(stacks).map_values(|st: Stack| st.tree@)
}

/// The trees of the applied stacks, in order.
pub(crate) fn applied_stack_trees(stacks: &Vec<Stack>) -> (r: Vec<Tree>)
    ensures
        tree_views(r@) == applied_trees(stacks@),
{
    let ghost all = stacks@;
    let mut heads: Vec<Tree> = Vec::new();
    let mut i: usize = 0;
    assert(all.take(0) =~= Seq::<Stack>::empty());
    while i < stacks.len()
        invariant
            all == stacks@,
            i <= all.len(),
            tree_views(heads@) == applied_trees(all.take(i as int)),
        decreases all.len() - i,
    {
        assert(all.take(i + 1).drop_last() =~= all.take(i as int));
        assert(all.take(i + 1).last() == all[i as int]);
        let ghost before = heads@;
        if stacks[i].in_workspace {
            heads.push(stacks[i].tree.copy());
            assert(tree_views(heads@) =~= tree_views(before).push(all[i as int].tree@));
            assert(applied_trees(all.take(i + 1)) =~= applied_trees(all.take(i as int)).push(all[i as int].tree@));
        } else {
            assert(applied_trees(all.take(i + 1)) =~= applied_trees(all.take(i as int)));
        }
        i = i + 1;
    }
    assert(all.take(all.len() as int) =~= all);
    heads
}

/// The best common ancestor of all the given heads, found pairwise in turn;
/// `None` for no heads or when two of them share no history.
pub open spec fn heads_merge_base(s: Seq<CommitModel>, heads: Seq<usize>) -> Option<usize>
    decreases heads.len(),
{
    if heads.len() == 0 {
        None
    } else if heads.len() == 1 {
        Some(heads[0])
    } else {
        match heads_merge_base(s, heads.drop_last()) {
            Some(b) => merge_base_of(s, b, heads.last()),
            None => None,
        }
    }
}

/// The heads of the applied stacks, in order.
pub open spec fn applied_heads(stacks: Seq<Stack>) -> Seq<usize> {
    workspace_stacks(stacks).map_values(|st: Stack| st.head)
}

/// The tree that the applied stacks are combined over: that of their heads'
/// common ancestor, or the target's when they have none.
pub open spec fn combine_base(s: Seq<CommitModel>, stacks: Seq<Stack>, target: usize) -> Seq<Option<u64>> {
    match heads_merge_base(s, applied_heads(stacks)) {
        Some(b) => s[b as int].tree,
        None => s[target as int].tree,
    }
}

/// The common ancestor of the applied stacks' heads, if any.
fn applied_merge_base(ws: &Workspace) -> (r: Option<usize>)
    requires
        ws.sound(),
    ensures
        r == heads_merge_base(ws.store@, applied_heads(ws.stacks@)),
        r matches Some(b) ==> b < ws.store@.len(),
{
    let ghost all = ws.stacks@;
    let mut base: Option<usize> = None;
    let mut count: usize = 0;
    let mut i: usize = 0;
    assert(all.take(0) =~= Seq::<Stack>::empty());
    assert(applied_heads(all.take(0)) =~= Seq::<usize>::empty());
    while i < ws.stacks.len()
        invariant
            ws.sound(),
            all == ws.stacks@,
            i <= all.len(),
            count == applied_heads(all.take(i as int)).len(),
            count <= i,
            base == heads_merge_base(ws.store@, applied_heads(all.take(i as int))),
            base matches Some(b) ==> b < ws.store@.len(),
        decreases all.len() - i,
    {
        let ghost prev = applied_heads(all.take(i as int));
        assert(all.take(i + 1).drop_last() =~= all.take(i as int));
        assert(all.take(i + 1).last() == all[i as int]);
        if ws.stacks[i].in_workspace {
            let h = ws.stacks[i].head;
            assert(all[i as int].in_store(ws.store@.len()));
            let ghost cur = applied_heads(all.take(i + 1));
            assert(cur =~= prev.push(h));
            assert(cur.drop_last() =~= prev);
            base = if count == 0 {
                Some(h)
            } else {
                match base {
                    Some(b) => ws.store.find_merge_base(b, h),
                    None => None,
                }
            };
            count = count + 1;
        } else {
            assert(applied_heads(all.take(i + 1)) =~= prev);
        }
        i = i + 1;
    }
    assert(all.take(all.len() as int) =~= all);
    base
}

/// Checks out the combination of the applied stacks' trees over the tree of
/// their heads' common ancestor (the target's when there is none) and
/// returns it: with no stack applied the working tree stays as it is; with
/// one, it becomes that stack's tree. Fails, leaving the working tree alone,
/// when the stacks conflict with each other.
pub fn checkout_branch_trees(ws: &mut Workspace) -> (r: Result<Tree, ComposeError>)
    requires
        old(ws).sound(),
    ensures
        final(ws).store == old(ws).store,
        final(ws).stacks == old(ws).stacks,
        final(ws).target == old(ws).target,
        ({
            let base = combine_base(old(ws).store@, old(ws).stacks@, old(ws).target.sha);
            let heads = applied_trees(old(ws).stacks@);
            &&& heads.len() == 0 ==> (r matches Ok(t) && t@ == old(ws).worktree@)
            &&& heads.len() == 1 ==> (r matches Ok(t) && t@ == heads[0])
            &&& heads.len() > 1 ==> (r is Ok <==> !any_step_conflicts(base, heads))
            &&& heads.len() > 1 ==> (r matches Err(ComposeError::Conflict { stack_index }) ==> first_conflict(
                base,
                heads,
                stack_index as int,
            ))
            &&& heads.len() > 1 ==> (r matches Ok(t) ==> t@ == compose(base, heads))
        }),
        r matches Ok(t) ==> final(ws).worktree@ == t@,
        r is Err ==> final(ws).worktree == old(ws).worktree,
{
    let heads = applied_stack_trees(&ws.stacks);
    let base = match applied_merge_base(ws) {
        Some(b) => ws.store.tree_of(b).copy(),
        None => ws.store.tree_of(ws.target.sha).copy(),
    };
    let r = combine(&base, &heads, &ws.worktree);
    match r {
        Ok(t) => {
            ws.worktree = t.copy();
            Ok(t)
        },
        Err(e) => Err(e),
    }
}

/// Carries the working tree, made on top of the workspace `before`, over to
/// the workspace `after`, and checks the result out.
pub fn update_uncommited_changes(ws: &mut Workspace, before: &WorkspaceState, after: &WorkspaceState)
    ensures
        final(ws).store == old(ws).store,
        final(ws).stacks == old(ws).stacks,
        final(ws).target == old(ws).target,
        final(ws).worktree@ == merged(before.composed(), old(ws).worktree@, after.composed()),
{
    let tree = ws.worktree.copy();
    update_uncommited_changes_with_tree(ws, before, after, &tree);
}

/// Carries `tree`, made on top of the workspace `before`, over to the
/// workspace `after`, and checks the result out.
pub fn update_uncommited_changes_with_tree(
    ws: &mut Workspace,
    before: &WorkspaceState,
    after: &WorkspaceState,
    tree: &Tree,
)
    ensures
        final(ws).store == old(ws).store,
        final(ws).stacks == old(ws).stacks,
        final(ws).target == old(ws).target,
        final(ws).worktree@ == merged(before.composed(), tree@, after.composed()),
{
    ws.worktree = move_tree_between_workspaces(tree, before, after);
}

/// Why a stack could not be created.
#[derive(Clone, Copy, Debug, PartialEq, Eq, Structural)]
pub enum CreateError {
    /// A stack with that id exists already.
    DuplicateId,
    /// The given head is not in the store.
    MissingCommit,
    /// No order is free after the applied stacks' orders.
    NoOrderLeft,
}

/// The tree of a new stack: the target's tree, with the claimed paths as the
/// working tree has them.
pub open spec fn claimed_tree(
    base: Seq<Option<u64>>,
    worktree: Seq<Option<u64>>,
    claims: Seq<usize>,
    p: int,
) -> Option<u64> {
    if 0 <= p < usize::MAX && claims.contains(p as usize) {
        entry(worktree, p)
    } else {
        entry(base, p)
    }
}

/// Whether some stack has id `id`.
pub(crate) fn id_taken(stacks: &Vec<Stack>, id: StackId) -> (r: bool)
    ensures
        r == exists|k: int| 0 <= k < stacks@.len() && #[trigger] stacks@[k].id == id,
{
    let mut k: usize = 0;
    while k < stacks.len()
        invariant
            k <= stacks@.len(),
            forall|m: int| 0 <= m < k ==> #[trigger] stacks@[m].id != id,
        decreases stacks@.len() - k,
    {
        if stacks[k].id == id {
            return true;
        }
        k = k + 1;
    }
    false
}

/// A request for a new stack. Without a name the stack is called "Lane";
/// a name that an applied stack already has gets a suffix. `order` is the
/// place among the applied stacks, the next free one by default.
/// `selected_for_changes` set makes the stack the only selected one; unset,
/// the stack is selected when no applied stack is. `ownership` lists the
/// paths whose uncommitted changes the new stack takes over.
#[derive(Debug)]
pub struct BranchCreateRequest {
    pub id: StackId,
    pub name: Option<String>,
    pub ownership: Vec<usize>,
    pub order: Option<usize>,
    pub selected_for_changes: Option<bool>,
}

/// Some applied stack is called `n`.
pub open spec fn name_in_use(stacks: Seq<Stack>, n: Seq<char>) -> bool {
    exists|k: int| 0 <= k < stacks.len() && (#[trigger] stacks[k]).in_workspace && stacks[k].name@ == n
}

/// Whether some applied stack is called `name`.
fn name_taken(stacks: &Vec<Stack>, name: &String) -> (r: bool)
    ensures
        r == name_in_use(stacks@, name@),
{
    let mut k: usize = 0;
    while k < stacks.len()
        invariant
            k <= stacks@.len(),
            forall|m: int| 0 <= m < k ==> !((#[trigger] stacks@[m]).in_workspace && stacks@[m].name@ == name@),
        decreases stacks@.len() - k,
    {
        if stacks[k].in_workspace && stacks[k].name == *name {
            return true;
        }
        k = k + 1;
    }
    false
}

/// `name` when no applied stack has it, else `name` with " 1" added as
/// often as needed to make it unused.
fn dedup_name(stacks: &Vec<Stack>, name: String) -> (r: String)
    ensures
        !name_in_use(stacks@, r@),
        !name_in_use(stacks@, name@) ==> r@ == name@,
{
    let mut longest: usize = 0;
    let mut k: usize = 0;
    while k < stacks.len()
        invariant
            k <= stacks@.len(),
            forall|m: int| 0 <= m < k ==> (#[trigger] stacks@[m]).name@.len() <= longest,
        decreases stacks@.len() - k,
    {
        let l = stacks[k].name.as_str().unicode_len();
        if l > longest {
            longest = l;
        }
        k = k + 1;
    }
    let mut candidate = name;
    let ghost first = candidate@;
    while name_taken(stacks, &candidate)
        invariant
            forall|m: int| 0 <= m < stacks@.len() ==> (#[trigger] stacks@[m]).name@.len() <= longest,
            name_in_use(stacks@, candidate@) ==> candidate@.len() <= longest,
            candidate@.len() <= longest + 2 || !name_in_use(stacks@, candidate@),
            candidate@ != first ==> name_in_use(stacks@, first),
        decreases longest + 2 - candidate@.len(),
    {
        proof {
            reveal_strlit(" 1");
        }
        let ghost before = candidate@;
        candidate = candidate.concat(" 1");
        assert(candidate@.len() == before.len() + 2);
        assert(candidate@ != first ==> name_in_use(stacks@, first)) by {
            if before == first {
            }
        }
    }
    candidate
}

/// The place that the applied stack at `j` takes among the applied stacks
/// ordered by order, ties by position.
pub open spec fn order_rank(stacks: Seq<Stack>, j: int, n: nat) -> nat
    decreases n,
{
    if n == 0 {
        0
    } else {
        let i = n - 1;
        let before = stacks[i].in_workspace && (stacks[i].order < stacks[j].order || (stacks[i].order
            == stacks[j].order && i < j));
        order_rank(stacks, j, (n - 1) as nat) + if before {
            1nat
        } else {
            0nat
        }
    }
}

/// The order of the applied stack at `j` once a stack takes place `o`.
pub open spec fn order_after(stacks: Seq<Stack>, j: int, o: nat) -> nat {
    let rank = order_rank(stacks, j, stacks.len());
    if rank < o {
        rank
    } else {
        rank + 1
    }
}

/// One more than the largest order of an applied stack, or zero.
pub open spec fn next_order(stacks: Seq<Stack>, n: nat) -> nat
    decreases n,
{
    if n == 0 {
        0
    } else {
        let rest = next_order(stacks, (n - 1) as nat);
        let st = stacks[n - 1];
        if st.in_workspace && st.order + 1 > rest {
            (st.order + 1) as nat
        } else {
            rest
        }
    }
}

/// The new stack's selection flag.
pub open spec fn new_selection(stacks: Seq<Stack>, request: Option<bool>) -> bool {
    match request {
        Some(b) => b,
        None => !has_selected(stacks),
    }
}

/// The applied stack `before` as it stands after a stack was created with
/// the request's selection and place `o`.
pub open spec fn renumbered(stacks: Seq<Stack>, j: int, after: Stack, request: Option<bool>, o: nat) -> bool {
    let before = stacks[j];
    &&& after.id == before.id
    &&& after.name@ == before.name@
    &&& branch_views(after.branches@) == branch_views(before.branches@)
    &&& after.head == before.head
    &&& after.tree@ == before.tree@
    &&& after.allow_rebasing == before.allow_rebasing
    &&& after.in_workspace == before.in_workspace
    &&& after.wip_change_id == before.wip_change_id
    &&& if before.in_workspace {
        &&& after.order == order_after(stacks, j, o)
        &&& after.selected_for_changes == (before.selected_for_changes && request != Some(true))
    } else {
        &&& after.order == before.order
        &&& after.selected_for_changes == before.selected_for_changes
    }
}

fn rank_of(stacks: &Vec<Stack>, j: usize) -> (r: usize)
    requires
        j < stacks@.len(),
    ensures
        r == order_rank(stacks@, j as int, stacks@.len()),
        r < stacks@.len(),
{
    let mut r: usize = 0;
    let mut i: usize = 0;
    while i < stacks.len()
        invariant
            j < stacks@.len(),
            i <= stacks@.len(),
            r == order_rank(stacks@, j as int, i as nat),
            r + (if i > j {
                1int
            } else {
                0int
            }) <= i,
        decreases stacks@.len() - i,
    {
        let st = &stacks[i];
        if st.in_workspace && (st.order < stacks[j].order || (st.order == stacks[j].order && i < j)) {
            r = r + 1;
        }
        i = i + 1;
    }
    r
}

/// Some applied stack has the largest order there is, so none comes after it.
pub open spec fn orders_full(stacks: Seq<Stack>) -> bool {
    exists|k: int| 0 <= k < stacks.len() && (#[trigger] stacks[k]).in_workspace && stacks[k].order == usize::MAX
}

fn next_order_index(stacks: &Vec<Stack>) -> (r: Option<usize>)
    ensures
        r is None <==> orders_full(stacks@),
        r matches Some(o) ==> o == next_order(stacks@, stacks@.len()),
{
    let mut r: usize = 0;
    let mut i: usize = 0;
    while i < stacks.len()
        invariant
            i <= stacks@.len(),
            r == next_order(stacks@, i as nat),
            forall|m: int| 0 <= m < i ==> !((#[trigger] stacks@[m]).in_workspace && stacks@[m].order == usize::MAX),
        decreases stacks@.len() - i,
    {
        let st = &stacks[i];
        if st.in_workspace && st.order >= r {
            if st.order == usize::MAX {
                return None;
            }
            r = st.order + 1;
        }
        i = i + 1;
    }
    Some(r)
}

/// Creates an applied stack on the target with one empty branch. Its tree is
/// the target's tree with the claimed paths taken from the working tree. Its
/// name is the requested one, or "Lane", made unused among the applied
/// stacks. It takes the requested place, or the next free one, and the
/// applied stacks are renumbered around it in their order. Refused when the
/// id is taken.
pub fn create_virtual_branch(ws: &mut Workspace, create: &BranchCreateRequest) -> (r: Result<StackId, CreateError>)
    requires
        old(ws).sound(),
        forall|i: int| 0 <= i < create.ownership@.len() ==> #[trigger] create.ownership@[i] < usize::MAX,
    ensures
        final(ws).sound(),
        final(ws).store == old(ws).store,
        final(ws).target == old(ws).target,
        final(ws).worktree == old(ws).worktree,
        (r is Err) <==> (exists|k: int| 0 <= k < old(ws).stacks@.len() && #[trigger] old(ws).stacks@[k].id == create.id)
            || (create.order is None && orders_full(old(ws).stacks@)),
        r is Err ==> final(ws).stacks == old(ws).stacks,
        r matches Ok(id) ==> {
            let old_stacks = old(ws).stacks@;
            let st = final(ws).stacks@.last();
            let o = match create.order {
                Some(o) => o as nat,
                None => next_order(old_stacks, old_stacks.len()),
            };
            let requested = match create.name {
                Some(n) => n@,
                None => "Lane"@,
            };
            &&& id == create.id
            &&& final(ws).stacks@.len() == old_stacks.len() + 1
            &&& forall|j: int|
                0 <= j < old_stacks.len() ==> renumbered(
                    old_stacks,
                    j,
                    #[trigger] final(ws).stacks@[j],
                    create.selected_for_changes,
                    o,
                )
            &&& st.id == create.id
            &&& !name_in_use(old_stacks, st.name@)
            &&& !name_in_use(old_stacks, requested) ==> st.name@ == requested
            &&& st.order == o
            &&& st.selected_for_changes == new_selection(old_stacks, create.selected_for_changes)
            &&& st.head == old(ws).target.sha
            &&& st.in_workspace
            &&& st.wip_change_id is None
            &&& st.branches@.len() == 1
            &&& st.branches@[0].name@ == st.name@
            &&& st.branches@[0].commits@.len() == 0
            &&& forall|p: int| #[trigger] entry(st.tree@, p) == claimed_tree(
                old(ws).store@[old(ws).target.sha as int].tree,
                old(ws).worktree@,
                create.ownership@,
                p,
            )
        },
{
    if id_taken(&ws.stacks, create.id) {
        return Err(CreateError::DuplicateId);
    }
    let o = match create.order {
        Some(o) => o,
        None => match next_order_index(&ws.stacks) {
            Some(o) => o,
            None => {
                return Err(CreateError::NoOrderLeft);
            },
        },
    };
    let base_name = match &create.name {
        Some(n) => n.clone(),
        None => {
            proof {
                reveal_strlit("Lane");
            }
            String::from_str("Lane")
        },
    };
    let name = dedup_name(&ws.stacks, base_name);
    let selected = match create.selected_for_changes {
        Some(b) => b,
        None => !any_selected(&ws.stacks),
    };
    let ghost old_stacks = ws.stacks@;
    let mut out: Vec<Stack> = Vec::new();
    let mut j: usize = 0;
    while j < ws.stacks.len()
        invariant
            old_stacks == ws.stacks@,
            ws.sound(),
            j <= old_stacks.len(),
            out@.len() == j,
            forall|m: int|
                0 <= m < j ==> renumbered(old_stacks, m, #[trigger] out@[m], create.selected_for_changes, o as nat),
        decreases old_stacks.len() - j,
    {
        let mut c = ws.stacks[j].copy();
        if c.in_workspace {
            let rk = rank_of(&ws.stacks, j);
            c.order = if rk < o {
                rk
            } else {
                rk + 1
            };
            if create.selected_for_changes == Some(true) {
                c.selected_for_changes = false;
            }
        }
        out.push(c);
        j = j + 1;
    }
    let ghost base = ws.store@[ws.target.sha as int].tree;
    let mut tree = ws.store.tree_of(ws.target.sha).copy();
    let mut i: usize = 0;
    while i < create.ownership.len()
        invariant
            i <= create.ownership@.len(),
            forall|j: int| 0 <= j < create.ownership@.len() ==> #[trigger] create.ownership@[j] < usize::MAX,
            forall|p: int| #[trigger] entry(tree@, p) == claimed_tree(base, ws.worktree@, create.ownership@.take(i as int), p),
        decreases create.ownership@.len() - i,
    {
        let path = create.ownership[i];
        let ghost before = tree@;
        tree.set(path, ws.worktree.get(path));
        proof {
            let c0 = create.ownership@.take(i as int);
            let c1 = create.ownership@.take(i + 1);
            assert(c1 =~= c0.push(path));
            assert forall|p: int| #[trigger] entry(tree@, p) == claimed_tree(base, ws.worktree@, c1, p) by {
                assert(c1[c0.len() as int] == path);
                if p == path {
                    assert(c1.contains(path));
                } else {
                    assert(entry(tree@, p) == entry(before, p));
                    if 0 <= p < usize::MAX && c1.contains(p as usize) {
                        let j = choose|j: int| 0 <= j < c1.len() && c1[j] == p as usize;
                        assert(j != c0.len());
                        assert(c0[j] == p as usize);
                        assert(c0.contains(p as usize));
                    }
                    if 0 <= p < usize::MAX && c0.contains(p as usize) {
                        let j = choose|j: int| 0 <= j < c0.len() && c0[j] == p as usize;
                        assert(c1[j] == p as usize);
                    }
                }
            }
        }
        i = i + 1;
    }
    assert(create.ownership@.take(create.ownership@.len() as int) =~= create.ownership@);
    let mut branches: Vec<Branch> = Vec::new();
    branches.push(
        Branch {
            name: name.clone(),
            archived: false,
            commits: Vec::new(),
            upstream: None,
            upstream_head: None,
            pr_number: None,
        },
    );
    let stack = Stack {
        id: create.id,
        name,
        branches,
        head: ws.target.sha,
        tree,
        allow_rebasing: true,
        in_workspace: true,
        order: o,
        selected_for_changes: selected,
        wip_change_id: None,
    };
    assert(stack.in_store(ws.store@.len()));
    out.push(stack);
    proof {
        assert forall|m: int| 0 <= m < out@.len() implies (#[trigger] out@[m]).in_store(ws.store@.len()) by {
            if m < old_stacks.len() {
                assert(renumbered(old_stacks, m, out@[m], create.selected_for_changes, o as nat));
                old_stacks[m].lemma_in_store_same_commits(out@[m], ws.store@.len());
            }
        }
        assert forall|a: int, b: int| 0 <= a < b < out@.len() implies #[trigger] out@[a].id != #[trigger] out@[b].id by {
            assert(renumbered(old_stacks, a, out@[a], create.selected_for_changes, o as nat));
            if b < old_stacks.len() {
                assert(renumbered(old_stacks, b, out@[b], create.selected_for_changes, o as nat));
            } else {
                assert(old_stacks[a].id != create.id);
            }
        }
    }
    ws.stacks = out;
    Ok(create.id)
}

/// Creates a stack from an existing branch whose head is `head`: its
/// commits are the first-parent commits from `head` down to where it meets
/// the target. The stack is then applied as `apply_branch` does.
pub fn create_virtual_branch_from_branch(
    ws: &mut Workspace,
    id: StackId,
    name: String,
    head: usize,
) -> (r: Result<StackId, CreateError>)
    requires
        old(ws).wf(),
        old(ws).store@.len() < usize::MAX / 2,
    ensures
        store_wf(final(ws).store@),
        extends(final(ws).store@, old(ws).store@),
        final(ws).target == old(ws).target,
        head >= old(ws).store@.len() ==> r == Err::<StackId, CreateError>(CreateError::MissingCommit),
        head < old(ws).store@.len() ==> (r == Err::<StackId, CreateError>(CreateError::DuplicateId)
            <==> exists|k: int| 0 <= k < old(ws).stacks@.len() && #[trigger] old(ws).stacks@[k].id == id),
        head < old(ws).store@.len() && !(exists|k: int|
            0 <= k < old(ws).stacks@.len() && #[trigger] old(ws).stacks@[k].id == id) ==> r == Ok::<
            StackId,
            CreateError,
        >(id),
        r is Ok ==> {
            let s = old(ws).store@;
            let n = old(ws).stacks@.len();
            let st = final(ws).stacks@[n as int];
            let stop = match merge_base_of(s, head, old(ws).target.sha) {
                Some(m) => m,
                None => s.len() as usize,
            };
            &&& final(ws).stacks@.len() == n + 1
            &&& st.id == id
            &&& st.name@ == name@
            &&& st.in_workspace
            &&& !stack_is_stale(s, old(ws).target.sha, head) ==> st.head == head && st.tree@ == s[head as int].tree
                && branch_views(st.branches@) == seq![(name@, false, first_parent_log(s, head, stop).reverse())]
        },
        r is Err ==> final(ws).stacks == old(ws).stacks && final(ws).worktree == old(ws).worktree,
{
    proof {
        assert(ws.store@.subrange(0, ws.store@.len() as int) =~= ws.store@);
    }
    if head >= ws.store.len() {
        return Err(CreateError::MissingCommit);
    }
    if id_taken(&ws.stacks, id) {
        return Err(CreateError::DuplicateId);
    }
    let stop = match ws.store.find_merge_base(head, ws.target.sha) {
        Some(m) => m,
        None => ws.store.len(),
    };
    let log = ws.store.first_parent_log(head, stop);
    proof {
        lemma_log_bounds(ws.store@, head, stop);
    }
    let mut commits: Vec<usize> = Vec::new();
    let mut k: usize = log.len();
    while k > 0
        invariant
            k <= log@.len(),
            forall|m: int| 0 <= m < log@.len() ==> #[trigger] log@[m] < ws.store@.len(),
            forall|m: int| 0 <= m < commits@.len() ==> #[trigger] commits@[m] < ws.store@.len(),
            commits@.len() == log@.len() - k,
            forall|m: int| 0 <= m < commits@.len() ==> #[trigger] commits@[m] == log@[log@.len() - 1 - m],
        decreases k,
    {
        k = k - 1;
        commits.push(log[k]);
    }
    assert(commits@ =~= log@.reverse());
    let mut branches: Vec<Branch> = Vec::new();
    let ghost name_view = name@;
    branches.push(Branch { name: name.clone(), archived: false, commits, upstream: None, upstream_head: None, pr_number: None });
    let tree = ws.store.tree_of(head).copy();
    let stack = Stack {
        id,
        name,
        branches,
        head,
        tree,
        allow_rebasing: true,
        in_workspace: false,
        order: ws.stacks.len(),
        selected_for_changes: false,
        wip_change_id: None,
    };
    proof {
        assert forall|b: int| 0 <= b < stack.branches@.len() implies branch_in(#[trigger] stack.branches@[b], ws.store@.len()) by {
            assert(b == 0);
        }
        assert(stack.branches@[0].commits@.len() <= ws.store@.len()) by {
            lemma_log_bounds(ws.store@, head, stop);
        }
    }
    let ghost before = ws.stacks@;
    ws.stacks.push(stack);
    proof {
        assert(commit_count(ws.stacks@.last().branches@) <= ws.store@.len()) by {
            let bs = ws.stacks@.last().branches@;
            assert(bs.drop_last() =~= Seq::<Branch>::empty());
            assert(commit_count(Seq::<Branch>::empty()) == 0);
            assert(bs.last() == bs[0]);
        }
        assert forall|i: int| 0 <= i < ws.stacks@.len() implies (#[trigger] ws.stacks@[i]).in_store(ws.store@.len())
            && ws.store@.len() + commit_count(ws.stacks@[i].branches@) < usize::MAX by {
            if i < before.len() {
                assert(ws.stacks@[i] == before[i]);
            }
        }
    }
    assert(first_stack(ws.stacks@, id, before.len() as int)) by {
        assert forall|m: int| 0 <= m < before.len() implies #[trigger] ws.stacks@[m].id != id by {
            assert(ws.stacks@[m] == before[m]);
        }
    }
    let ghost pushed = ws.stacks@;
    assert(pushed[before.len() as int].name@ == name_view);
    assert(branch_views(pushed[before.len() as int].branches@) =~= seq![(name_view, false, log@.reverse())]);
    let ghost s_before = ws.store@;
    match apply_branch(ws, id) {
        Ok(_) => {
            proof {
                assert forall|k: int| #[trigger] first_stack(pushed, id, k) implies k == before.len() by {
                    if k < before.len() {
                        assert(pushed[k] == before[k]);
                    }
                }
            }
            Ok(id)
        },
        Err(_) => {
            assert(false);
            Err(CreateError::DuplicateId)
        },
    }
}

/// The placeholder commit that saves a stack's uncommitted tree on its head.
pub open spec fn wip_commit(st: Stack, change_id: u64) -> CommitModel {
    CommitModel {
        parents: seq![st.head],
        tree: st.tree@,
        markers: None,
        change_id: Some(change_id),
        message: wip_message(),
    }
}

pub open spec fn wip_message() -> Seq<char> {
    "GitButler WIP Commit"@
}

/// The stack holds uncommitted changes and has a branch to keep them on.
pub open spec fn needs_wip(s: Seq<CommitModel>, st: Stack) -> bool {
    !same_tree(st.tree@, s[st.head as int].tree) && st.branches@.len() > 0
}

/// Branch views with `c` added on top of the top branch.
pub open spec fn push_top_commit(v: Seq<(Seq<char>, bool, Seq<usize>)>, c: usize) -> Seq<(Seq<char>, bool, Seq<usize>)> {
    v.update(v.len() - 1, (v.last().0, v.last().1, v.last().2.push(c)))
}

/// The stack taken out of the workspace. When it holds uncommitted changes
/// they are first saved as a placeholder commit on its head, with change id
/// `change_id`, on top of its top branch.
fn save_wip(store: &mut ObjectStore, st: &Stack, change_id: u64) -> (r: Stack)
    requires
        old(store).wf(),
        st.in_store(old(store)@.len()),
        old(store)@.len() < usize::MAX,
    ensures
        final(store).wf(),
        r.id == st.id,
        r.name@ == st.name@,
        r.tree@ == st.tree@,
        !r.in_workspace,
        !r.selected_for_changes,
        r.allow_rebasing == st.allow_rebasing,
        r.order == st.order,
        r.in_store(final(store)@.len()),
        needs_wip(old(store)@, *st) ==> {
            &&& final(store)@ == old(store)@.push(wip_commit(*st, change_id))
            &&& r.head == old(store)@.len()
            &&& r.wip_change_id == Some(change_id)
            &&& branch_views(r.branches@) == push_top_commit(branch_views(st.branches@), old(store)@.len() as usize)
        },
        !needs_wip(old(store)@, *st) ==> {
            &&& final(store)@ == old(store)@
            &&& r.head == st.head
            &&& r.wip_change_id == st.wip_change_id
            &&& branch_views(r.branches@) == branch_views(st.branches@)
        },
{
    let mut u = st.unapplied();
    let dirty = !st.tree.same_as(store.tree_of(st.head));
    let n = st.branches.len();
    if dirty && n > 0 {
        let message = String::from_str("GitButler WIP Commit");
        proof {
            reveal_strlit("GitButler WIP Commit");
        }
        let c = Commit {
            parents: vec![st.head],
            tree: st.tree.copy(),
            conflict: None,
            change_id: Some(change_id),
            message,
        };
        assert(c@.parents =~= seq![st.head]);
        assert(c@ == wip_commit(*st, change_id));
        let cid = store.len();
        store.push_commit(c);
        let ghost v = branch_views(u.branches@);
        let mut b = u.branches[n - 1].copy();
        b.commits.push(cid);
        u.branches.set(n - 1, b);
        assert(branch_views(u.branches@) =~= push_top_commit(v, cid));
        u.head = cid;
        u.wip_change_id = Some(change_id);
        proof {
            assert forall|i: int| 0 <= i < u.branches@.len() implies branch_in(#[trigger] u.branches@[i], store@.len()) by {
                assert(branch_in(st.branches@[i], old(store)@.len()));
                assert(branch_views(u.branches@)[i] == push_top_commit(v, cid)[i]);
                assert(branch_views(st.branches@)[i] == v[i]);
                assert forall|k: int| 0 <= k < u.branches@[i].commits@.len() implies #[trigger] u.branches@[i].commits@[k] < store@.len() by {
                    if i != n - 1 || k < st.branches@[i].commits@.len() {
                        assert(u.branches@[i].commits@[k] == st.branches@[i].commits@[k]);
                    }
                }
            }
        }
    } else {
        proof {
            st.lemma_in_store_same_commits(u, store@.len());
        }
    }
    u
}

/// Takes the stack with id `stack_id` out of the workspace. The stack keeps
/// its commits and its tree, uncommitted changes included; the working tree
/// is carried from the composition of the applied stacks' trees with it to
/// the one without it, so its changes leave the working tree.
pub fn unapply_stack(ws: &mut Workspace, stack_id: StackId, wip_change_id: u64) -> (r: Result<(), ApplyError>)
    requires
        old(ws).sound(),
        old(ws).store@.len() < usize::MAX,
    ensures
        final(ws).sound(),
        store_wf(final(ws).store@),
        final(ws).target == old(ws).target,
        r is Err ==> final(ws).store == old(ws).store,
        r is Err <==> forall|k: int| !#[trigger] first_stack(old(ws).stacks@, stack_id, k),
        r is Err ==> final(ws).stacks == old(ws).stacks && final(ws).worktree == old(ws).worktree,
        r is Ok ==> exists|k: int| {
            &&& #[trigger] first_stack(old(ws).stacks@, stack_id, k)
            &&& final(ws).stacks@.len() == old(ws).stacks@.len()
            &&& !final(ws).stacks@[k].in_workspace
            &&& final(ws).stacks@[k].tree@ == old(ws).stacks@[k].tree@
            &&& needs_wip(old(ws).store@, old(ws).stacks@[k]) ==> {
                &&& final(ws).store@ == old(ws).store@.push(wip_commit(old(ws).stacks@[k], wip_change_id))
                &&& final(ws).stacks@[k].head == old(ws).store@.len()
                &&& final(ws).stacks@[k].wip_change_id == Some(wip_change_id)
                &&& branch_views(final(ws).stacks@[k].branches@) == push_top_commit(
                    branch_views(old(ws).stacks@[k].branches@),
                    old(ws).store@.len() as usize,
                )
            }
            &&& !needs_wip(old(ws).store@, old(ws).stacks@[k]) ==> {
                &&& final(ws).store@ == old(ws).store@
                &&& final(ws).stacks@[k].head == old(ws).stacks@[k].head
                &&& final(ws).stacks@[k].wip_change_id == old(ws).stacks@[k].wip_change_id
                &&& branch_views(final(ws).stacks@[k].branches@) == branch_views(old(ws).stacks@[k].branches@)
            }
            &&& forall|j: int| 0 <= j < final(ws).stacks@.len() ==> (#[trigger] final(ws).stacks@[j]).id
                == old(ws).stacks@[j].id
            &&& forall|j: int|
                0 <= j < final(ws).stacks@.len() && j != k ==> (#[trigger] final(ws).stacks@[j]).in_workspace
                    == old(ws).stacks@[j].in_workspace
        },
        r is Ok ==> final(ws).worktree@ == merged(
            compose(old(ws).store@[old(ws).target.sha as int].tree, applied_trees(old(ws).stacks@)),
            old(ws).worktree@,
            compose(old(ws).store@[old(ws).target.sha as int].tree, applied_trees(final(ws).stacks@)),
        ),
{
    let ghost stacks0 = ws.stacks@;
    let mut pos: usize = 0;
    let mut found = false;
    while pos < ws.stacks.len() && !found
        invariant
            ws.stacks@ == stacks0,
            pos <= ws.stacks@.len(),
            found ==> pos < stacks0.len() && stacks0[pos as int].id == stack_id,
            forall|m: int| 0 <= m < pos ==> #[trigger] stacks0[m].id != stack_id,
        decreases ws.stacks@.len() - pos, if found { 0int } else { 1int },
    {
        if ws.stacks[pos].id == stack_id {
            found = true;
        } else {
            pos = pos + 1;
        }
    }
    if pos == ws.stacks.len() {
        assert forall|k: int| !#[trigger] first_stack(stacks0, stack_id, k) by {
            if first_stack(stacks0, stack_id, k) {
                assert(stacks0[k].id != stack_id);
            }
        }
        return Err(ApplyError::NotFound);
    }
    assert(first_stack(stacks0, stack_id, pos as int));
    let target_tree = ws.store.tree_of(ws.target.sha).copy();
    let old_state = WorkspaceState::create(target_tree.copy(), applied_stack_trees(&ws.stacks));
    let ghost s0 = ws.store@;
    assert(stacks0[pos as int].in_store(s0.len()));
    let st = save_wip(&mut ws.store, &ws.stacks[pos], wip_change_id);
    ws.stacks.set(pos, st);
    let ghost placed = ws.stacks@;
    ensure_selected_for_changes(&mut ws.stacks);
    proof {
        assert forall|i: int| 0 <= i < ws.stacks@.len() implies (#[trigger] ws.stacks@[i]).in_store(ws.store@.len()) by {
            if i != pos {
                assert(placed[i] == stacks0[i]);
                stacks0[i].lemma_in_store_grows(s0.len(), ws.store@.len());
            }
            placed[i].lemma_in_store_same_commits(ws.stacks@[i], ws.store@.len());
        }
        assert forall|i: int, j: int| 0 <= i < j < ws.stacks@.len() implies #[trigger] ws.stacks@[i].id
            != #[trigger] ws.stacks@[j].id by {
            assert(stacks0[i].id != stacks0[j].id);
        }
    }
    let new_state = WorkspaceState::create(target_tree, applied_stack_trees(&ws.stacks));
    ws.worktree = move_tree_between_workspaces(&ws.worktree.copy(), &old_state, &new_state);
    Ok(())
}

} // verus!
