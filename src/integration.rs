use vstd::prelude::*;

use crate::branch_manager::{applied_stack_trees, applied_trees};
use crate::commits::{compute_updated_branch_head, merge_base_of, merge_commit_model, uncommitted_commit};
use crate::compose::{any_step_conflicts, combine, compose};
use crate::graph::{first_parent_log, lemma_log_bounds};
use crate::rebase::{pick_steps, picked_commit, picks, rebase, rebase_fold, rebase_ok, RebaseStep};
use crate::stack::{
    branch_in, branch_views, commit_count, copy_branches, ids_unique, same_stack, workspace_indices,
    workspace_stacks, Branch, Stack, StackId, Workspace,
};
use crate::stack_rebase::{lemma_rebase_branches_wf, rebase_branches, rebase_stack_branches};
use crate::status::{
    resolution_allowed, statuses_of, BaseBranchResolutionApproach, BranchStatus, ResolutionApproach,
    StackStatus,
};
use crate::store::{extends, lemma_extends_push, lemma_extends_trans, store_wf, CommitModel};
use crate::tree::{same_tree, Tree};
use crate::upstream::{
    are_statuses_of, is_stack_status, some_status_fails, status_fold, tree_status_of,
    upstream_integration_statuses, StackStatuses,
};

verus! {

/// A caller's choice for one applied stack, made against the stack's tree
/// as the caller last saw it.
#[derive(Debug)]
pub struct Resolution {
    pub branch_id: StackId,
    /// The stack's tree when the choice was made; a stack whose tree has
    /// changed since refuses the choice.
    pub branch_tree: Tree,
    pub approach: ResolutionApproach,
}

/// A caller's choice for a target that diverged from its upstream.
#[derive(Debug)]
pub struct BaseBranchResolution {
    pub target_commit_oid: usize,
    pub approach: BaseBranchResolutionApproach,
}

/// What an integration did beyond moving the stacks.
#[derive(Debug)]
pub struct IntegrationOutcome {
    /// The branches that were archived because all their commits are now
    /// part of the target.
    pub archived_branches: Vec<String>,
}

/// `k` is the first applied stack with id `id`.
pub open spec fn first_with_id(ws: Seq<Stack>, id: StackId, k: int) -> bool {
    &&& 0 <= k < ws.len()
    &&& ws[k].id == id
    &&& forall|m: int| 0 <= m < k ==> #[trigger] ws[m].id != id
}

/// One resolution names an applied stack, carries its current tree, and
/// picks an approach that the stack's status allows.
pub open spec fn resolution_ok(ws: Seq<Stack>, v: Seq<(StackId, StackStatus)>, r: Resolution) -> bool {
    exists|k: int|
        #[trigger] first_with_id(ws, r.branch_id, k) && same_tree(r.branch_tree@, ws[k].tree@)
            && v[k].1.allows(r.approach)
}

/// The resolutions cover the applied stacks exactly, each current and
/// allowed by the freshly computed statuses `v`.
pub open spec fn resolutions_valid(
    stacks: Seq<Stack>,
    v: Seq<(StackId, StackStatus)>,
    res: Seq<Resolution>,
) -> bool {
    let ws = workspace_stacks(stacks);
    &&& res.len() == ws.len()
    &&& forall|i: int, j: int| 0 <= i < j < res.len() ==> #[trigger] res[i].branch_id != #[trigger] res[j].branch_id
    &&& forall|i: int| 0 <= i < res.len() ==> resolution_ok(ws, v, #[trigger] res[i])
}

/// The first applied stack with id `id`, by its place among the applied ones.
pub fn find_applied(
    stacks: &Vec<Stack>,
    idx: &Vec<usize>,
    id: StackId,
) -> (r: Option<usize>)
    requires
        idx@.len() == workspace_stacks(stacks@).len(),
        forall|k: int| 0 <= k < idx@.len() ==> #[trigger] idx@[k] < stacks@.len() && stacks@[idx@[k] as int]
            == workspace_stacks(stacks@)[k],
    ensures
        r matches Some(k) ==> first_with_id(workspace_stacks(stacks@), id, k as int),
        r is None ==> forall|k: int| !#[trigger] first_with_id(workspace_stacks(stacks@), id, k),
{
    let ghost ws = workspace_stacks(stacks@);
    let mut k: usize = 0;
    while k < idx.len()
        invariant
            idx@.len() == ws.len(),
            ws == workspace_stacks(stacks@),
            forall|j: int| 0 <= j < idx@.len() ==> #[trigger] idx@[j] < stacks@.len() && stacks@[idx@[j] as int]
                == ws[j],
            k <= ws.len(),
            forall|m: int| 0 <= m < k ==> #[trigger] ws[m].id != id,
        decreases ws.len() - k,
    {
        assert(idx@[k as int] < stacks@.len());
        if stacks[idx[k]].id == id {
            return Some(k);
        }
        k = k + 1;
    }
    proof {
        assert forall|k: int| !#[trigger] first_with_id(ws, id, k) by {
            if first_with_id(ws, id, k) {
                assert(ws[k].id != id);
            }
        }
    }
    None
}

/// Whether the resolutions cover the applied stacks exactly, each current
/// and allowed by `statuses`, the statuses of the applied stacks in order.
pub fn resolutions_match(
    stacks: &Vec<Stack>,
    statuses: &Vec<(StackId, StackStatus)>,
    resolutions: &Vec<Resolution>,
) -> (r: bool)
    requires
        statuses@.len() == workspace_stacks(stacks@).len(),
    ensures
        r == resolutions_valid(stacks@, statuses@, resolutions@),
{
    let ghost ws = workspace_stacks(stacks@);
    let idx = workspace_indices(stacks);
    if resolutions.len() != idx.len() {
        return false;
    }
    let mut i: usize = 0;
    while i < resolutions.len()
        invariant
            ws == workspace_stacks(stacks@),
            statuses@.len() == ws.len(),
            idx@.len() == ws.len(),
            resolutions@.len() == ws.len(),
            forall|k: int| 0 <= k < idx@.len() ==> #[trigger] idx@[k] < stacks@.len() && stacks@[idx@[k] as int]
                == ws[k],
            i <= resolutions@.len(),
            forall|a: int, b: int| 0 <= a < b < i ==> #[trigger] resolutions@[a].branch_id != #[trigger] resolutions@[b].branch_id,
            forall|a: int| 0 <= a < i ==> resolution_ok(ws, statuses@, #[trigger] resolutions@[a]),
        decreases resolutions@.len() - i,
    {
        let res = &resolutions[i];
        let mut j: usize = 0;
        while j < i
            invariant
                j <= i,
                i < resolutions@.len(),
                res == resolutions@[i as int],
                forall|a: int| 0 <= a < j ==> #[trigger] resolutions@[a].branch_id != res.branch_id,
            decreases i - j,
        {
            if resolutions[j].branch_id == res.branch_id {
                proof {
                    assert(!resolutions_valid(stacks@, statuses@, resolutions@)) by {
                        assert(resolutions@[j as int].branch_id == resolutions@[i as int].branch_id);
                    }
                }
                return false;
            }
            j = j + 1;
        }
        let found = find_applied(stacks, &idx, res.branch_id);
        let k = match found {
            Some(k) => k,
            None => {
                proof {
                    assert(!resolution_ok(ws, statuses@, resolutions@[i as int]));
                }
                return false;
            },
        };
        let stack = &stacks[idx[k]];
        if !res.branch_tree.same_as(&stack.tree) || !statuses[k].1.resolution_acceptable(&res.approach) {
            proof {
                assert forall|k2: int| #[trigger] first_with_id(ws, res.branch_id, k2) implies k2 == k by {
                    if k2 < k {
                        assert(ws[k2].id != res.branch_id);
                    } else if k < k2 {
                        assert(ws[k as int].id != res.branch_id);
                    }
                }
                assert(!resolution_ok(ws, statuses@, resolutions@[i as int]));
            }
            return false;
        }
        assert(first_with_id(ws, res.branch_id, k as int));
        assert(resolution_ok(ws, statuses@, resolutions@[i as int]));
        i = i + 1;
    }
    true
}

/// Why an integration was refused. Nothing but the store changes then.
#[derive(Clone, Copy, Debug, PartialEq, Eq, Structural)]
pub enum IntegrationError {
    /// The new target is not in the store.
    MissingCommit,
    /// The target has not moved.
    UpToDate,
    /// An applied stack has no branch left to report.
    NoBranches,
    /// The resolutions do not match the applied stacks as they are now.
    StaleResolutions,
    /// The updated stacks conflict with each other.
    Conflict,
    /// The store cannot take the commits the integration needs.
    StoreFull,
}

/// The statuses of `stack` against `new_target` allow `approach`.
pub open spec fn status_allows(
    s: Seq<CommitModel>,
    stack: Stack,
    new_target: usize,
    integrated: Seq<bool>,
    approach: ResolutionApproach,
) -> bool {
    let f = status_fold(s, new_target, stack.branches@, integrated);
    resolution_allowed(
        tree_status_of(f.store, stack, new_target, f.last_head),
        f.statuses.map_values(|p: (Seq<char>, BranchStatus)| p.1),
        approach,
    )
}

/// The resolutions cover the applied stacks exactly, each with the stack's
/// current tree and an approach that its status against `new_target` allows.
pub open spec fn resolutions_current(
    s: Seq<CommitModel>,
    stacks: Seq<Stack>,
    new_target: usize,
    integrated: Seq<bool>,
    res: Seq<Resolution>,
) -> bool {
    let ws = workspace_stacks(stacks);
    &&& res.len() == ws.len()
    &&& forall|i: int, j: int| 0 <= i < j < res.len() ==> #[trigger] res[i].branch_id != #[trigger] res[j].branch_id
    &&& forall|i: int|
        0 <= i < res.len() ==> resolution_current(s, ws, new_target, integrated, #[trigger] res[i])
}

/// One resolution names an applied stack, carries its current tree, and
/// picks an approach that the stack's status against `new_target` allows.
pub open spec fn resolution_current(
    s: Seq<CommitModel>,
    ws: Seq<Stack>,
    new_target: usize,
    integrated: Seq<bool>,
    r: Resolution,
) -> bool {
    exists|k: int|
        #[trigger] first_with_id(ws, r.branch_id, k) && same_tree(r.branch_tree@, ws[k].tree@)
            && status_allows(s, ws[k], new_target, integrated, r.approach)
}

proof fn lemma_valid_is_current(
    v: Seq<(StackId, StackStatus)>,
    s: Seq<CommitModel>,
    stacks: Seq<Stack>,
    new_target: usize,
    integrated: Seq<bool>,
    res: Seq<Resolution>,
)
    requires
        are_statuses_of(v, s, stacks, new_target, integrated),
    ensures
        resolutions_valid(stacks, v, res) == resolutions_current(s, stacks, new_target, integrated, res),
{
    let ws = workspace_stacks(stacks);
    assert forall|k: int, a: ResolutionApproach| 0 <= k < ws.len() implies #[trigger] v[k].1.allows(a)
        == status_allows(s, ws[k], new_target, integrated, a) by {
        assert(is_stack_status(v[k].1, s, ws[k], new_target, integrated));
        let f = status_fold(s, new_target, ws[k].branches@, integrated);
        assert(statuses_of(v[k].1.branch_statuses@) =~= f.statuses.map_values(
            |p: (Seq<char>, BranchStatus)| p.1,
        ));
    }
    if resolutions_valid(stacks, v, res) {
        assert forall|i: int| 0 <= i < res.len() implies resolution_current(s, ws, new_target, integrated, #[trigger] res[i]) by {
            assert(resolution_ok(ws, v, res[i]));
            let k = choose|k: int|
                #[trigger] first_with_id(ws, res[i].branch_id, k) && same_tree(res[i].branch_tree@, ws[k].tree@)
                    && v[k].1.allows(res[i].approach);
            assert(v[k].1.allows(res[i].approach));
        }
    }
    if resolutions_current(s, stacks, new_target, integrated, res) {
        assert forall|i: int| 0 <= i < res.len() implies resolution_ok(ws, v, #[trigger] res[i]) by {
            let k = choose|k: int|
                #[trigger] first_with_id(ws, res[i].branch_id, k) && same_tree(res[i].branch_tree@, ws[k].tree@)
                    && status_allows(s, ws[k], new_target, integrated, res[i].approach);
            assert(v[k].1.allows(res[i].approach));
        }
    }
}

/// The target that an integration moves to: the one a target resolution
/// produced, if any, else the upstream head.
pub open spec fn integration_target(upstream_head: usize, base: Option<BaseBranchResolution>) -> usize {
    match base {
        Some(b) => b.target_commit_oid,
        None => upstream_head,
    }
}

proof fn lemma_workspace_stacks_applied(stacks: Seq<Stack>, k: int)
    requires
        0 <= k < workspace_stacks(stacks).len(),
    ensures
        workspace_stacks(stacks)[k].in_workspace,
    decreases stacks.len(),
{
    let prev = stacks.drop_last();
    if !(stacks.last().in_workspace && k == workspace_stacks(prev).len()) {
        lemma_workspace_stacks_applied(prev, k);
    }
}

/// The approach that the resolutions choose for the stack `id`, if any.
pub open spec fn chosen_for(res: Seq<Resolution>, id: StackId) -> Option<ResolutionApproach>
    decreases res.len(),
{
    if res.len() == 0 {
        None
    } else if res.last().branch_id == id {
        Some(res.last().approach)
    } else {
        chosen_for(res.drop_last(), id)
    }
}

proof fn lemma_chosen_at(res: Seq<Resolution>, id: StackId, f: int)
    requires
        0 <= f < res.len(),
        res[f].branch_id == id,
        forall|i: int, j: int| 0 <= i < j < res.len() ==> #[trigger] res[i].branch_id != #[trigger] res[j].branch_id,
    ensures
        chosen_for(res, id) == Some(res[f].approach),
        chosen_index(res, id) == f,
    decreases res.len(),
{
    if f < res.len() - 1 {
        let prev = res.drop_last();
        assert(res.last().branch_id != id) by {
            assert(res[f].branch_id != res[res.len() - 1].branch_id);
        }
        assert forall|i: int, j: int| 0 <= i < j < prev.len() implies #[trigger] prev[i].branch_id != #[trigger] prev[j].branch_id by {
            assert(prev[i] == res[i] && prev[j] == res[j]);
        }
        assert(prev[f] == res[f]);
        lemma_chosen_at(prev, id, f);
    }
}

proof fn lemma_chosen_none(res: Seq<Resolution>, id: StackId)
    requires
        forall|i: int| 0 <= i < res.len() ==> #[trigger] res[i].branch_id != id,
    ensures
        chosen_for(res, id) is None,
    decreases res.len(),
{
    if res.len() > 0 {
        let prev = res.drop_last();
        assert(res[res.len() - 1].branch_id != id);
        assert forall|i: int| 0 <= i < prev.len() implies #[trigger] prev[i].branch_id != id by {
            assert(prev[i] == res[i]);
        }
        lemma_chosen_none(prev, id);
    }
}

/// The applied stack is deleted by the resolutions.
#[verifier::opaque]
pub open spec fn is_deleted(st: Stack, res: Seq<Resolution>) -> bool {
    st.in_workspace && chosen_for(res, st.id) == Some(ResolutionApproach::Delete)
}

/// `after` is what an integration with `res` makes of `before`: a stack
/// outside the workspace stays as it is; one chosen for unapplying keeps its
/// commits and tree and leaves the workspace; a merged or rebased one stays
/// applied with the head, tree and branches of its update in `ups`.
#[verifier::opaque]
pub open spec fn kept_as(before: Stack, after: Stack, res: Seq<Resolution>, ups: Seq<UpdateModel>) -> bool {
    &&& after.id == before.id
    &&& after.name@ == before.name@
    &&& after.allow_rebasing == before.allow_rebasing
    &&& if !before.in_workspace {
        same_stack(after, before)
    } else {
        match chosen_for(res, before.id) {
            Some(ResolutionApproach::Unapply) => {
                &&& !after.in_workspace
                &&& after.head == before.head
                &&& after.tree@ == before.tree@
                &&& branch_views(after.branches@) == branch_views(before.branches@)
            },
            None => same_stack(after, before),
            Some(ResolutionApproach::Delete) => same_stack(after, before),
            _ => {
                &&& after.in_workspace
                &&& match ups[chosen_index(res, before.id)] {
                    UpdateModel::Moved { head, tree, branches } => {
                        &&& after.head == head
                        &&& after.tree@ == tree
                        &&& branch_views(after.branches@) == match branches {
                            Some(b) => b,
                            None => branch_views(before.branches@),
                        }
                    },
                    _ => false,
                }
            },
        }
    }
}

/// `after` lists, in order, the stacks of `before` that were not deleted:
/// `from` says which one each is, and each is kept as `kept_as` says.
pub open spec fn kept_in_order(
    before: Seq<Stack>,
    after: Seq<Stack>,
    res: Seq<Resolution>,
    ups: Seq<UpdateModel>,
    from: Seq<int>,
) -> bool {
    &&& after.len() == from.len()
    &&& forall|t: int| 0 <= t < from.len() ==> 0 <= #[trigger] from[t] < before.len()
    &&& forall|t: int, u: int| 0 <= t < u < from.len() ==> #[trigger] from[t] < #[trigger] from[u]
    &&& forall|t: int| 0 <= t < from.len() ==> !is_deleted(before[#[trigger] from[t]], res)
    &&& forall|t: int| 0 <= t < from.len() ==> kept_as(before[from[t]], #[trigger] after[t], res, ups)
    &&& forall|m: int|
        0 <= m < before.len() && !is_deleted(before[m], res) ==> exists|t: int|
            0 <= t < from.len() && #[trigger] from[t] == m
}

/// What an integration with `res` makes of the stacks `before`: the ones
/// not deleted, in their order, each kept as `kept_as` says.
pub open spec fn stacks_after(
    before: Seq<Stack>,
    after: Seq<Stack>,
    res: Seq<Resolution>,
    ups: Seq<UpdateModel>,
) -> bool {
    exists|from: Seq<int>| #[trigger] kept_in_order(before, after, res, ups, from)
}

/// Which resolution, if any, names the stack at `j`, and what it chose.
proof fn lemma_chosen_for(
    stacks: Seq<Stack>,
    v: Seq<(StackId, StackStatus)>,
    res: Seq<Resolution>,
    positions: Seq<usize>,
    j: int,
    found: Option<usize>,
)
    requires
        ids_unique(stacks),
        resolutions_valid(stacks, v, res),
        0 <= j < stacks.len(),
        positions.len() == res.len(),
        forall|i: int|
            0 <= i < positions.len() ==> #[trigger] positions[i] < stacks.len() && stacks[positions[i] as int].id
                == res[i].branch_id && stacks[positions[i] as int].in_workspace,
        found matches Some(f) ==> f < positions.len() && positions[f as int] == j,
        found is None ==> forall|q: int| 0 <= q < positions.len() ==> #[trigger] positions[q] != j,
    ensures
        found matches Some(f) ==> stacks[j].in_workspace && chosen_for(res, stacks[j].id) == Some(
            res[f as int].approach,
        ) && chosen_index(res, stacks[j].id) == f,
        found is None && stacks[j].in_workspace ==> chosen_for(res, stacks[j].id) is None,
{
    let id = stacks[j].id;
    if let Some(f) = found {
        assert(res[f as int].branch_id == id);
        lemma_chosen_at(res, id, f as int);
    } else if stacks[j].in_workspace {
        assert forall|c: int| 0 <= c < res.len() implies #[trigger] res[c].branch_id != id by {
            let p = positions[c];
            assert(stacks[p as int].id == res[c].branch_id);
            assert(p != j);
            if p < j {
                assert(stacks[p as int].id != stacks[j].id);
            } else {
                assert(stacks[j].id != stacks[p as int].id);
            }
        }
        lemma_chosen_none(res, id);
    }
}

/// How one applied stack changes, as plain values.
pub ghost enum UpdateModel {
    Unapply,
    Delete,
    /// The stack moves to `head` with `tree`; its branches become `branches`
    /// when given.
    Moved {
        head: usize,
        tree: Seq<Option<u64>>,
        branches: Option<Seq<(Seq<char>, bool, Seq<usize>)>>,
    },
}

/// The walk over the resolutions that works out each stack's update.
pub ghost struct UpdatesFold {
    pub store: Seq<CommitModel>,
    pub ups: Seq<UpdateModel>,
    /// The names of the branches archived so far.
    pub archived: Seq<Seq<char>>,
    /// The store ran out of room; nothing after that is done.
    pub full: bool,
}

pub open spec fn merge_update_message() -> Seq<char> {
    "Merge upstream changes"@
}

/// The applied stack with id `id`.
pub open spec fn applied_with_id(stacks: Seq<Stack>, id: StackId) -> Stack {
    stacks[choose|j: int| 0 <= j < stacks.len() && stacks[j].in_workspace && #[trigger] stacks[j].id == id]
}

/// Carrying `tree` from `old_head` onto `new_head` as
/// `compute_updated_branch_head_for_commits` does: the store after, the new
/// head and the new tree.
pub open spec fn carried(
    s: Seq<CommitModel>,
    old_head: usize,
    tree: Seq<Option<u64>>,
    new_head: usize,
) -> (Seq<CommitModel>, usize, Seq<Option<u64>>) {
    let s1 = s.push(uncommitted_commit(old_head, tree));
    let picked = picked_commit(s1, new_head, s.len() as usize, None);
    (
        s1.push(picked),
        if picked.markers is Some {
            (s.len() + 1) as usize
        } else {
            new_head
        },
        picked.tree,
    )
}

/// The commit that a rebase resolution rebases onto: the new target, or,
/// when the target itself diverged and was resolved, its fork point with
/// the old target.
pub open spec fn lower_bound_of(
    s: Seq<CommitModel>,
    old_target: usize,
    new_target: usize,
    base: Option<BaseBranchResolution>,
) -> usize {
    if base is Some {
        match merge_base_of(s, old_target, new_target) {
            Some(m) => m,
            None => new_target,
        }
    } else {
        new_target
    }
}

/// One resolution's update of stack `st`. A merge writes the merge commit
/// of the stack's head and the new target; a rebase rebases the branches'
/// commits that are not yet integrated onto `lower`, archiving the branches
/// left empty; either way the stack's tree is then carried onto the new
/// head. When the store has no room left the walk stops.
pub open spec fn update_step(
    f: UpdatesFold,
    st: Stack,
    r: Resolution,
    new_target: usize,
    lower: usize,
    integrated: Seq<bool>,
) -> UpdatesFold {
    if f.full {
        f
    } else {
        match r.approach {
            ResolutionApproach::Unapply => UpdatesFold { ups: f.ups.push(UpdateModel::Unapply), ..f },
            ResolutionApproach::Delete => UpdatesFold { ups: f.ups.push(UpdateModel::Delete), ..f },
            ResolutionApproach::Merge => {
                if f.store.len() >= usize::MAX - 3 {
                    UpdatesFold { full: true, ..f }
                } else {
                    let s1 = f.store.push(merge_commit_model(f.store, st.head, new_target, merge_update_message()));
                    let c = carried(s1, st.head, st.tree@, f.store.len() as usize);
                    UpdatesFold {
                        store: c.0,
                        ups: f.ups.push(UpdateModel::Moved { head: c.1, tree: c.2, branches: None }),
                        archived: f.archived,
                        full: false,
                    }
                }
            },
            ResolutionApproach::Rebase => {
                let n = commit_count(st.branches@);
                if n >= usize::MAX - 3 || f.store.len() >= usize::MAX - 3 - n {
                    UpdatesFold { full: true, ..f }
                } else {
                    let b = rebase_branches(f.store, lower, st.branches@, integrated, true);
                    let c = carried(b.store, st.head, st.tree@, b.head);
                    UpdatesFold {
                        store: c.0,
                        ups: f.ups.push(UpdateModel::Moved { head: c.1, tree: c.2, branches: Some(b.branches) }),
                        archived: f.archived + b.archived,
                        full: false,
                    }
                }
            },
        }
    }
}

/// The updates of the resolutions in turn, each of the applied stack it names.
pub open spec fn updates_fold(
    s: Seq<CommitModel>,
    stacks: Seq<Stack>,
    res: Seq<Resolution>,
    new_target: usize,
    lower: usize,
    integrated: Seq<bool>,
) -> UpdatesFold
    decreases res.len(),
{
    if res.len() == 0 {
        UpdatesFold { store: s, ups: seq![], archived: seq![], full: false }
    } else {
        update_step(
            updates_fold(s, stacks, res.drop_last(), new_target, lower, integrated),
            applied_with_id(stacks, res.last().branch_id),
            res.last(),
            new_target,
            lower,
            integrated,
        )
    }
}

proof fn lemma_full_stays(
    s: Seq<CommitModel>,
    stacks: Seq<Stack>,
    res: Seq<Resolution>,
    new_target: usize,
    lower: usize,
    integrated: Seq<bool>,
    i: int,
)
    requires
        0 <= i <= res.len(),
        updates_fold(s, stacks, res.take(i), new_target, lower, integrated).full,
    ensures
        updates_fold(s, stacks, res, new_target, lower, integrated).full,
    decreases res.len() - i,
{
    if i == res.len() {
        assert(res.take(i) =~= res);
    } else {
        assert(res.take(i + 1).drop_last() =~= res.take(i));
        lemma_full_stays(s, stacks, res, new_target, lower, integrated, i + 1);
    }
}

proof fn lemma_applied_with_id(stacks: Seq<Stack>, pos: int)
    requires
        ids_unique(stacks),
        0 <= pos < stacks.len(),
        stacks[pos].in_workspace,
    ensures
        applied_with_id(stacks, stacks[pos].id) == stacks[pos],
{
    let id = stacks[pos].id;
    let j = choose|j: int| 0 <= j < stacks.len() && stacks[j].in_workspace && #[trigger] stacks[j].id == id;
    if j < pos {
        assert(stacks[j].id != stacks[pos].id);
    } else if pos < j {
        assert(stacks[pos].id != stacks[j].id);
    }
}

/// An update as plain values.
spec fn update_view(u: StackUpdate) -> UpdateModel {
    match u {
        StackUpdate::Unapply => UpdateModel::Unapply,
        StackUpdate::Delete => UpdateModel::Delete,
        StackUpdate::Updated { head, tree, branches } => UpdateModel::Moved {
            head,
            tree: tree@,
            branches: match branches {
                Some(b) => Some(branch_views(b@)),
                None => None,
            },
        },
    }
}

spec fn update_views(v: Seq<StackUpdate>) -> Seq<UpdateModel> {
    v.map_values(|u: StackUpdate| update_view(u))
}

/// The index of the last resolution that names `id`, or -1.
pub open spec fn chosen_index(res: Seq<Resolution>, id: StackId) -> int
    decreases res.len(),
{
    if res.len() == 0 {
        -1
    } else if res.last().branch_id == id {
        res.len() - 1
    } else {
        chosen_index(res.drop_last(), id)
    }
}

/// The tree of `st` when it stays applied after the updates.
#[verifier::opaque]
pub open spec fn rebuilt_tree_of(st: Stack, res: Seq<Resolution>, ups: Seq<UpdateModel>) -> Option<
    Seq<Option<u64>>,
> {
    if !st.in_workspace {
        None
    } else {
        match chosen_for(res, st.id) {
            Some(ResolutionApproach::Delete) => None,
            Some(ResolutionApproach::Unapply) => None,
            None => Some(st.tree@),
            _ => match ups[chosen_index(res, st.id)] {
                UpdateModel::Moved { tree, .. } => Some(tree),
                _ => Some(st.tree@),
            },
        }
    }
}

/// The trees of the stacks that stay applied after the updates, in order.
pub open spec fn rebuilt_applied_trees(
    stacks: Seq<Stack>,
    res: Seq<Resolution>,
    ups: Seq<UpdateModel>,
) -> Seq<Seq<Option<u64>>>
    decreases stacks.len(),
{
    if stacks.len() == 0 {
        seq![]
    } else {
        let prev = rebuilt_applied_trees(stacks.drop_last(), res, ups);
        match rebuilt_tree_of(stacks.last(), res, ups) {
            Some(t) => prev.push(t),
            None => prev,
        }
    }
}

/// The number of commits over `bs`, or `usize::MAX` when that does not fit.
fn count_commits(bs: &Vec<Branch>) -> (r: usize)
    ensures
        r < usize::MAX ==> r == commit_count(bs@),
        r == usize::MAX ==> commit_count(bs@) >= usize::MAX,
{
    let mut total: usize = 0;
    let mut i: usize = 0;
    assert(bs@.take(0) =~= Seq::<Branch>::empty());
    while i < bs.len()
        invariant
            i <= bs@.len(),
            total == commit_count(bs@.take(i as int)),
        decreases bs@.len() - i,
    {
        assert(bs@.take(i + 1).drop_last() =~= bs@.take(i as int));
        assert(bs@.take(i + 1).last() == bs@[i as int]);
        let n = bs[i].commits.len();
        if n >= usize::MAX - total {
            proof {
                crate::upstream::lemma_commit_count_prefix(bs@, i + 1);
            }
            return usize::MAX;
        }
        total = total + n;
        i = i + 1;
    }
    assert(bs@.take(bs@.len() as int) =~= bs@);
    total
}

/// How one applied stack is to change.
enum StackUpdate {
    Unapply,
    Delete,
    Updated { head: usize, tree: Tree, branches: Option<Vec<Branch>> },
}

/// What becomes of one stack, given the resolution that names it, if any:
/// `None` when it is deleted.
fn rebuild_one(
    st: &Stack,
    found: Option<usize>,
    updates: &Vec<StackUpdate>,
    resolutions: &Vec<Resolution>,
) -> (r: Option<Stack>)
    requires
        updates@.len() == resolutions@.len(),
        found matches Some(f) ==> f < updates@.len() && st.in_workspace && chosen_for(resolutions@, st.id)
            == Some(resolutions@[f as int].approach) && chosen_index(resolutions@, st.id) == f,
        found is None && st.in_workspace ==> chosen_for(resolutions@, st.id) is None,
        forall|i: int|
            0 <= i < updates@.len() ==> (#[trigger] updates@[i] is Unapply) == (resolutions@[i].approach
                == ResolutionApproach::Unapply) && (updates@[i] is Delete) == (resolutions@[i].approach
                == ResolutionApproach::Delete),
    ensures
        r is None <==> is_deleted(*st, resolutions@),
        r matches Some(u) ==> kept_as(*st, u, resolutions@, update_views(updates@)),
        rebuilt_tree_of(*st, resolutions@, update_views(updates@)) == match r {
            Some(u) => if u.in_workspace {
                Some(u.tree@)
            } else {
                None
            },
            None => None,
        },
{
    proof {
        reveal(is_deleted);
        reveal(kept_as);
        reveal(rebuilt_tree_of);
    }
    let ghost ups = update_views(updates@);
    match found {
        Some(i) => {
            assert(ups[i as int] == update_view(updates@[i as int]));
            match &updates[i] {
                StackUpdate::Unapply => Some(st.unapplied()),
                StackUpdate::Delete => None,
                StackUpdate::Updated { head, tree, branches } => {
                    let bs = match branches {
                        Some(b) => {
                            let c = copy_branches(b);
                            assert(branch_views(c@) =~= branch_views(b@));
                            Some(c)
                        },
                        None => None,
                    };
                    Some(st.moved_to(*head, tree.copy(), bs))
                },
            }
        },
        None => Some(st.copy()),
    }
}

/// The stacks after the updates: deleted ones dropped, unapplied ones taken
/// out of the workspace, updated ones moved, the rest as they were.
#[verifier::spinoff_prover]
fn rebuild_stacks(
    stacks: &Vec<Stack>,
    updates: &Vec<StackUpdate>,
    positions: &Vec<usize>,
    statuses: &Vec<(StackId, StackStatus)>,
    resolutions: &Vec<Resolution>,
) -> (r: Vec<Stack>)
    requires
        ids_unique(stacks@),
        resolutions_valid(stacks@, statuses@, resolutions@),
        updates@.len() == resolutions@.len(),
        positions@.len() == resolutions@.len(),
        forall|i: int|
            0 <= i < positions@.len() ==> #[trigger] positions@[i] < stacks@.len()
                && stacks@[positions@[i] as int].id == resolutions@[i].branch_id
                && stacks@[positions@[i] as int].in_workspace,
        forall|i: int|
            0 <= i < updates@.len() ==> (#[trigger] updates@[i] is Unapply) == (resolutions@[i].approach
                == ResolutionApproach::Unapply) && (updates@[i] is Delete) == (resolutions@[i].approach
                == ResolutionApproach::Delete),
    ensures
        stacks_after(stacks@, r@, resolutions@, update_views(updates@)),
        applied_trees(r@) == rebuilt_applied_trees(stacks@, resolutions@, update_views(updates@)),
{
    let ghost stacks0 = stacks@;
    let ghost ups = update_views(updates@);
    let mut kept: Vec<Stack> = Vec::new();
    let ghost mut from: Seq<int> = Seq::empty();
    let mut j: usize = 0;
    assert(stacks0.take(0) =~= Seq::<Stack>::empty());
    while j < stacks.len()
        invariant
            stacks0 == stacks@,
            ups == update_views(updates@),
            ids_unique(stacks0),
            resolutions_valid(stacks0, statuses@, resolutions@),
            updates@.len() == resolutions@.len(),
            positions@.len() == resolutions@.len(),
            forall|i: int|
                0 <= i < positions@.len() ==> #[trigger] positions@[i] < stacks0.len()
                    && stacks0[positions@[i] as int].id == resolutions@[i].branch_id
                    && stacks0[positions@[i] as int].in_workspace,
            forall|i: int|
                0 <= i < updates@.len() ==> (#[trigger] updates@[i] is Unapply) == (resolutions@[i].approach
                    == ResolutionApproach::Unapply) && (updates@[i] is Delete) == (resolutions@[i].approach
                    == ResolutionApproach::Delete),
            j <= stacks0.len(),
            kept@.len() == from.len(),
            forall|t: int| 0 <= t < from.len() ==> 0 <= #[trigger] from[t] < j,
            forall|t: int, u: int| 0 <= t < u < from.len() ==> #[trigger] from[t] < #[trigger] from[u],
            forall|t: int| 0 <= t < from.len() ==> !is_deleted(stacks0[#[trigger] from[t]], resolutions@),
            forall|t: int|
                0 <= t < from.len() ==> kept_as(stacks0[from[t]], #[trigger] kept@[t], resolutions@, ups),
            forall|m: int|
                0 <= m < j && !is_deleted(stacks0[m], resolutions@) ==> exists|t: int|
                    0 <= t < from.len() && #[trigger] from[t] == m,
            applied_trees(kept@) == rebuilt_applied_trees(stacks0.take(j as int), resolutions@, ups),
        decreases stacks0.len() - j,
    {
        proof {
            assert(stacks0.take(j + 1).drop_last() =~= stacks0.take(j as int));
            assert(stacks0.take(j + 1).last() == stacks0[j as int]);
        }
        let mut found: Option<usize> = None;
        let mut i: usize = 0;
        while i < positions.len()
            invariant
                i <= positions@.len(),
                found matches Some(f) ==> f < positions@.len() && positions@[f as int] == j,
                found is None ==> forall|q: int| 0 <= q < i ==> #[trigger] positions@[q] != j,
            decreases positions@.len() - i,
        {
            if found.is_none() && positions[i] == j {
                found = Some(i);
            }
            i = i + 1;
        }
        let ghost before = kept@;
        let ghost old_from = from;
        proof {
            lemma_chosen_for(stacks0, statuses@, resolutions@, positions@, j as int, found);
        }
        match rebuild_one(&stacks[j], found, updates, resolutions) {
            Some(u) => {
                kept.push(u);
                proof {
                    from = from.push(j as int);
                    lemma_applied_trees_push(before, u);
                }
            },
            None => {},
        }
        proof {
            assert forall|t: int| 0 <= t < before.len() implies #[trigger] kept@[t] == before[t] && from[t]
                == old_from[t] by {}
            assert forall|t: int| 0 <= t < from.len() implies !is_deleted(stacks0[#[trigger] from[t]], resolutions@) by {
                if t < old_from.len() {
                    assert(from[t] == old_from[t]);
                }
            }
            assert forall|t: int, u: int| 0 <= t < u < from.len() implies #[trigger] from[t] < #[trigger] from[u] by {
                assert(from[t] == old_from[t] || t >= old_from.len());
                if u >= old_from.len() {
                    assert(from[u] == j);
                    assert(old_from[t] < j);
                } else {
                    assert(from[u] == old_from[u]);
                }
            }
            assert forall|t: int|
                0 <= t < from.len() implies kept_as(stacks0[from[t]], #[trigger] kept@[t], resolutions@, ups) by {
                if t < old_from.len() {
                    assert(kept@[t] == before[t] && from[t] == old_from[t]);
                }
            }
            assert forall|m: int|
                0 <= m < j + 1 && !is_deleted(stacks0[m], resolutions@) implies exists|t: int|
                    0 <= t < from.len() && #[trigger] from[t] == m by {
                if m == j {
                    assert(from[from.len() - 1] == m);
                } else {
                    let t = choose|t: int| 0 <= t < old_from.len() && #[trigger] old_from[t] == m;
                    assert(from[t] == old_from[t]);
                }
            }
        }
        j = j + 1;
    }
    proof {
        assert(stacks0.take(stacks0.len() as int) =~= stacks0);
        assert(kept_in_order(stacks0, kept@, resolutions@, ups, from));
        lemma_stacks_after(stacks0, kept@, from, resolutions@, ups);
    }
    kept
}

proof fn lemma_stacks_after(
    stacks: Seq<Stack>,
    kept: Seq<Stack>,
    from: Seq<int>,
    res: Seq<Resolution>,
    ups: Seq<UpdateModel>,
)
    requires
        kept_in_order(stacks, kept, res, ups, from),
    ensures
        stacks_after(stacks, kept, res, ups),
{
}

proof fn lemma_applied_trees_push(v: Seq<Stack>, x: Stack)
    ensures
        applied_trees(v.push(x)) == if x.in_workspace {
            applied_trees(v).push(x.tree@)
        } else {
            applied_trees(v)
        },
{
    assert(v.push(x).drop_last() =~= v);
    assert(v.push(x).last() == x);
    if x.in_workspace {
        assert(applied_trees(v.push(x)) =~= applied_trees(v).push(x.tree@));
    }
}

/// For each resolution in turn, the position of its stack and how the stack
/// is to change, with the names of the branches archived on the way, as
/// `updates_fold` says. New commits go to the store; nothing else changes.
/// Fails exactly when the store runs out of room.
fn compute_updates(
    ws: &mut Workspace,
    idx: &Vec<usize>,
    new_target: usize,
    lower_bound: usize,
    resolutions: &Vec<Resolution>,
    statuses: &Vec<(StackId, StackStatus)>,
    integrated: &Vec<bool>,
) -> (r: Result<(Vec<StackUpdate>, Vec<usize>, Vec<String>), IntegrationError>)
    requires
        old(ws).wf(),
        resolutions_valid(old(ws).stacks@, statuses@, resolutions@),
        idx@.len() == workspace_stacks(old(ws).stacks@).len(),
        forall|k: int|
            0 <= k < idx@.len() ==> #[trigger] idx@[k] < old(ws).stacks@.len() && old(ws).stacks@[idx@[k] as int]
                == workspace_stacks(old(ws).stacks@)[k],
        new_target < old(ws).store@.len(),
        lower_bound < old(ws).store@.len(),
    ensures
        final(ws).stacks == old(ws).stacks,
        final(ws).target == old(ws).target,
        final(ws).worktree == old(ws).worktree,
        store_wf(final(ws).store@),
        extends(final(ws).store@, old(ws).store@),
        ({
            let f = updates_fold(old(ws).store@, old(ws).stacks@, resolutions@, new_target, lower_bound, integrated@);
            &&& r is Err <==> f.full
            &&& r is Err ==> r == Err::<(Vec<StackUpdate>, Vec<usize>, Vec<String>), IntegrationError>(
                IntegrationError::StoreFull,
            )
            &&& r is Ok ==> final(ws).store@ == f.store
            &&& r matches Ok((updates, positions, archived)) ==> {
                &&& updates@.len() == resolutions@.len()
                &&& positions@.len() == resolutions@.len()
                &&& update_views(updates@) == f.ups
                &&& archived@.map_values(|n: String| n@) == f.archived
                &&& forall|j: int|
                    0 <= j < positions@.len() ==> #[trigger] positions@[j] < old(ws).stacks@.len()
                        && old(ws).stacks@[positions@[j] as int].id == resolutions@[j].branch_id
                        && old(ws).stacks@[positions@[j] as int].in_workspace
                &&& forall|j: int|
                    0 <= j < updates@.len() ==> (#[trigger] updates@[j] is Unapply) == (resolutions@[j].approach
                        == ResolutionApproach::Unapply) && (updates@[j] is Delete) == (resolutions@[j].approach
                        == ResolutionApproach::Delete)
            }
        }),
{
    let ghost s0 = ws.store@;
    let ghost stacks0 = ws.stacks@;
    let ghost wss = workspace_stacks(stacks0);
    let ghost res = resolutions@;
    assert(s0.subrange(0, s0.len() as int) =~= s0);
    let mut updates: Vec<StackUpdate> = Vec::new();
    let mut positions: Vec<usize> = Vec::new();
    let mut archived_branches: Vec<String> = Vec::new();
    let mut i: usize = 0;
    assert(res.take(0) =~= Seq::<Resolution>::empty());
    assert(update_views(updates@) =~= Seq::<UpdateModel>::empty());
    assert(archived_branches@.map_values(|n: String| n@) =~= Seq::<Seq<char>>::empty());
    while i < resolutions.len()
        invariant
            stacks0 == ws.stacks@,
            res == resolutions@,
            s0 == old(ws).store@,
            ws.stacks == old(ws).stacks,
            ws.target == old(ws).target,
            ws.worktree == old(ws).worktree,
            wss == workspace_stacks(stacks0),
            resolutions_valid(stacks0, statuses@, resolutions@),
            idx@.len() == wss.len(),
            forall|k: int| 0 <= k < idx@.len() ==> #[trigger] idx@[k] < stacks0.len() && stacks0[idx@[k] as int]
                == wss[k],
            forall|j: int| 0 <= j < stacks0.len() ==> (#[trigger] stacks0[j]).in_store(s0.len()),
            store_wf(ws.store@),
            extends(ws.store@, s0),
            new_target < s0.len(),
            lower_bound < s0.len(),
            i <= resolutions@.len(),
            updates@.len() == i,
            positions@.len() == i,
            !updates_fold(s0, stacks0, res.take(i as int), new_target, lower_bound, integrated@).full,
            ws.store@ == updates_fold(s0, stacks0, res.take(i as int), new_target, lower_bound, integrated@).store,
            update_views(updates@) == updates_fold(
                s0,
                stacks0,
                res.take(i as int),
                new_target,
                lower_bound,
                integrated@,
            ).ups,
            archived_branches@.map_values(|n: String| n@) == updates_fold(
                s0,
                stacks0,
                res.take(i as int),
                new_target,
                lower_bound,
                integrated@,
            ).archived,
            forall|j: int|
                0 <= j < i ==> #[trigger] positions@[j] < stacks0.len() && stacks0[positions@[j] as int].id
                    == resolutions@[j].branch_id && stacks0[positions@[j] as int].in_workspace,
            forall|j: int|
                0 <= j < i ==> (#[trigger] updates@[j] is Unapply) == (resolutions@[j].approach
                    == ResolutionApproach::Unapply) && (updates@[j] is Delete) == (resolutions@[j].approach
                    == ResolutionApproach::Delete),
            ids_unique(stacks0),
        decreases resolutions@.len() - i,
    {
        let res_i = &resolutions[i];
        let ghost at_start = ws.store@;
        let ghost f = updates_fold(s0, stacks0, res.take(i as int), new_target, lower_bound, integrated@);
        let ghost f2 = updates_fold(s0, stacks0, res.take(i + 1), new_target, lower_bound, integrated@);
        let ghost before_updates = updates@;
        let ghost before_archived = archived_branches@;
        assert(at_start.subrange(0, at_start.len() as int) =~= at_start);
        assert(resolution_ok(wss, statuses@, resolutions@[i as int]));
        let k = match find_applied(&ws.stacks, &idx, res_i.branch_id) {
            Some(k) => k,
            None => {
                assert(false);
                return Err(IntegrationError::StoreFull);
            },
        };
        let pos = idx[k];
        assert(stacks0[pos as int].in_store(s0.len()));
        proof {
            lemma_workspace_stacks_applied(stacks0, k as int);
            lemma_applied_with_id(stacks0, pos as int);
            assert(res.take(i + 1).drop_last() =~= res.take(i as int));
            assert(res.take(i + 1).last() == res[i as int]);
            assert(f2 == update_step(f, stacks0[pos as int], res[i as int], new_target, lower_bound, integrated@));
        }
        let update = match res_i.approach {
            ResolutionApproach::Unapply => StackUpdate::Unapply,
            ResolutionApproach::Delete => StackUpdate::Delete,
            ResolutionApproach::Merge => {
                if ws.store.len() >= usize::MAX - 3 {
                    proof {
                        lemma_full_stays(s0, stacks0, res, new_target, lower_bound, integrated@, i + 1);
                    }
                    return Err(IntegrationError::StoreFull);
                }
                let message = String::from_str("Merge upstream changes");
                proof {
                    reveal_strlit("Merge upstream changes");
                }
                let merged_head = ws.store.merge_commits(ws.stacks[pos].head, new_target, message);
                let ghost mid = ws.store@;
                let u = compute_updated_branch_head(&mut ws.store, &ws.stacks[pos], merged_head);
                proof {
                    lemma_extends_push(at_start, mid.last());
                    assert(mid =~= at_start.push(mid.last()));
                    let s1 = mid.push(ws.store@[mid.len() as int]);
                    lemma_extends_push(mid, ws.store@[mid.len() as int]);
                    lemma_extends_push(s1, ws.store@.last());
                    assert(ws.store@ =~= s1.push(ws.store@.last()));
                    lemma_extends_trans(at_start, mid, s1);
                    lemma_extends_trans(at_start, s1, ws.store@);
                }
                StackUpdate::Updated { head: u.head, tree: u.tree, branches: None }
            },
            ResolutionApproach::Rebase => {
                let n = count_commits(&ws.stacks[pos].branches);
                if n >= usize::MAX - 3 || ws.store.len() >= usize::MAX - 3 - n {
                    proof {
                        lemma_full_stays(s0, stacks0, res, new_target, lower_bound, integrated@, i + 1);
                    }
                    return Err(IntegrationError::StoreFull);
                }
                proof {
                    assert forall|j: int| 0 <= j < stacks0[pos as int].branches@.len() implies branch_in(
                        #[trigger] stacks0[pos as int].branches@[j],
                        ws.store@.len(),
                    ) by {
                        let b = stacks0[pos as int].branches@[j];
                        assert(branch_in(b, s0.len()));
                        assert forall|m: int| 0 <= m < b.commits@.len() implies #[trigger] b.commits@[m] < ws.store@.len() by {
                            assert(b.commits@[m] < s0.len());
                        }
                    }
                }
                let ghost before = ws.store@;
                let (top, branches, mut names) = rebase_stack_branches(
                    &mut ws.store,
                    lower_bound,
                    &ws.stacks[pos].branches,
                    integrated,
                    true,
                );
                proof {
                    lemma_rebase_branches_wf(before, lower_bound, stacks0[pos as int].branches@, integrated@, true);
                    assert(ws.store@.subrange(0, s0.len() as int) =~= ws.store@.subrange(0, before.len() as int).subrange(0, s0.len() as int));
                }
                assert(ws.store@.len() <= usize::MAX - 3);
                let ghost mid = ws.store@;
                let u = compute_updated_branch_head(&mut ws.store, &ws.stacks[pos], top);
                proof {
                    let s1 = mid.push(ws.store@[mid.len() as int]);
                    lemma_extends_push(mid, ws.store@[mid.len() as int]);
                    lemma_extends_push(s1, ws.store@.last());
                    assert(ws.store@ =~= s1.push(ws.store@.last()));
                    lemma_extends_trans(mid, s1, ws.store@);
                    lemma_extends_trans(at_start, mid, ws.store@);
                }
                let ghost names_v = names@;
                archived_branches.append(&mut names);
                assert(archived_branches@.map_values(|n: String| n@) =~= before_archived.map_values(
                    |n: String| n@,
                ) + names_v.map_values(|n: String| n@));
                StackUpdate::Updated { head: u.head, tree: u.tree, branches: Some(branches) }
            },
        };
        proof {
            lemma_extends_trans(s0, at_start, ws.store@);
        }
        updates.push(update);
        positions.push(pos);
        assert(update_views(updates@) =~= update_views(before_updates).push(update_view(updates@.last())));
        i = i + 1;
    }
    assert(res.take(res.len() as int) =~= res);
    Ok((updates, positions, archived_branches))
}

/// The integration can go ahead: the new target is in the store and has
/// moved, every applied stack has a status, and the resolutions match them.
pub open spec fn ready_to_integrate(
    s: Seq<CommitModel>,
    stacks: Seq<Stack>,
    old_target: usize,
    new_target: usize,
    integrated: Seq<bool>,
    res: Seq<Resolution>,
) -> bool {
    &&& new_target < s.len()
    &&& new_target != old_target
    &&& !some_status_fails(s, stacks, new_target, integrated)
    &&& resolutions_current(s, stacks, new_target, integrated, res)
}

/// Moves the workspace onto a new target: the one a target resolution
/// produced, else `upstream_head`. The stacks' statuses are computed afresh
/// and the resolutions checked against them; then each stack is deleted,
/// unapplied, merged with or rebased onto the new target as chosen, as
/// `updates_fold` says, and the working tree is composed anew from the
/// stacks that stay applied. A rebase drops the commits that `integrated`
/// marks as already in the target and archives the branches left empty.
/// Fails when the updated stacks conflict with each other or the store runs
/// out of room; on any failure only the store has grown.
#[verifier::spinoff_prover]
pub fn integrate_upstream(
    ws: &mut Workspace,
    upstream_head: usize,
    resolutions: &Vec<Resolution>,
    base_branch_resolution: &Option<BaseBranchResolution>,
    integrated: &Vec<bool>,
) -> (r: Result<IntegrationOutcome, IntegrationError>)
    requires
        old(ws).wf(),
    ensures
        store_wf(final(ws).store@),
        extends(final(ws).store@, old(ws).store@),
        ({
            let s = old(ws).store@;
            let nt = integration_target(upstream_head, *base_branch_resolution);
            &&& nt >= s.len() ==> r == Err::<IntegrationOutcome, IntegrationError>(
                IntegrationError::MissingCommit,
            )
            &&& nt < s.len() && nt == old(ws).target.sha ==> r == Err::<IntegrationOutcome, IntegrationError>(
                IntegrationError::UpToDate,
            )
            &&& nt < s.len() && nt != old(ws).target.sha ==> {
                &&& (r == Err::<IntegrationOutcome, IntegrationError>(IntegrationError::NoBranches)
                    <==> some_status_fails(s, old(ws).stacks@, nt, integrated@))
                &&& (r == Err::<IntegrationOutcome, IntegrationError>(IntegrationError::StaleResolutions)
                    <==> !some_status_fails(s, old(ws).stacks@, nt, integrated@) && !resolutions_current(
                    s,
                    old(ws).stacks@,
                    nt,
                    integrated@,
                    resolutions@,
                ))
            }
            &&& ready_to_integrate(s, old(ws).stacks@, old(ws).target.sha, nt, integrated@, resolutions@) ==> {
                let f = updates_fold(
                    s,
                    old(ws).stacks@,
                    resolutions@,
                    nt,
                    lower_bound_of(s, old(ws).target.sha, nt, *base_branch_resolution),
                    integrated@,
                );
                let trees = rebuilt_applied_trees(old(ws).stacks@, resolutions@, f.ups);
                let clash = trees.len() > 1 && any_step_conflicts(f.store[nt as int].tree, trees);
                &&& (r == Err::<IntegrationOutcome, IntegrationError>(IntegrationError::StoreFull) <==> f.full)
                &&& (r == Err::<IntegrationOutcome, IntegrationError>(IntegrationError::Conflict) <==> !f.full
                    && clash)
                &&& !f.full && !clash ==> r is Ok
                &&& r matches Ok(o) ==> {
                    &&& final(ws).store@ == f.store
                    &&& stacks_after(old(ws).stacks@, final(ws).stacks@, resolutions@, f.ups)
                    &&& applied_trees(final(ws).stacks@) == trees
                    &&& o.archived_branches@.map_values(|n: String| n@) == f.archived
                    &&& trees.len() == 0 ==> final(ws).worktree@ == f.store[nt as int].tree
                    &&& trees.len() == 1 ==> final(ws).worktree@ == trees[0]
                    &&& trees.len() > 1 ==> final(ws).worktree@ == compose(f.store[nt as int].tree, trees)
                }
            }
            &&& r is Ok ==> {
                &&& ready_to_integrate(s, old(ws).stacks@, old(ws).target.sha, nt, integrated@, resolutions@)
                &&& final(ws).target.sha == nt
                &&& final(ws).target.branch == old(ws).target.branch
                &&& final(ws).target.remote_url == old(ws).target.remote_url
                &&& final(ws).target.push_remote_name == old(ws).target.push_remote_name
            }
            &&& r is Err ==> {
                &&& final(ws).stacks == old(ws).stacks
                &&& final(ws).target == old(ws).target
                &&& final(ws).worktree == old(ws).worktree
            }
        }),
{
    let ghost s0 = ws.store@;
    assert(s0.subrange(0, s0.len() as int) =~= s0);
    let new_target = match base_branch_resolution {
        Some(b) => b.target_commit_oid,
        None => upstream_head,
    };
    if new_target >= ws.store.len() {
        return Err(IntegrationError::MissingCommit);
    }
    let statuses = match upstream_integration_statuses(ws, new_target, integrated) {
        Ok(StackStatuses::UpToDate) => {
            return Err(IntegrationError::UpToDate);
        },
        Ok(StackStatuses::UpdatesRequired(v)) => v,
        Err(_) => {
            return Err(IntegrationError::NoBranches);
        },
    };
    proof {
        lemma_valid_is_current(statuses@, s0, ws.stacks@, new_target, integrated@, resolutions@);
    }
    if !resolutions_match(&ws.stacks, &statuses, resolutions) {
        return Err(IntegrationError::StaleResolutions);
    }
    let ghost stacks0 = ws.stacks@;
    let ghost wss = workspace_stacks(stacks0);
    let idx = workspace_indices(&ws.stacks);
    let old_target = ws.target.sha;
    let lower_bound = if base_branch_resolution.is_some() {
        match ws.store.find_merge_base(old_target, new_target) {
            Some(m) => m,
            None => new_target,
        }
    } else {
        new_target
    };
    let (updates, positions, archived_branches) = match compute_updates(
        ws,
        &idx,
        new_target,
        lower_bound,
        resolutions,
        &statuses,
        integrated,
    ) {
        Ok(u) => u,
        Err(e) => {
            return Err(e);
        },
    };
    let kept = rebuild_stacks(&ws.stacks, &updates, &positions, &statuses, resolutions);
    let heads = applied_stack_trees(&kept);
    let target_tree = ws.store.tree_of(new_target).copy();
    let worktree = if heads.len() == 0 {
        target_tree
    } else {
        match combine(&target_tree, &heads, &ws.worktree) {
            Ok(t) => t,
            Err(_) => {
                return Err(IntegrationError::Conflict);
            },
        }
    };
    // Nothing has failed: write the new state.
    ws.target.sha = new_target;
    assert(stacks0 == old(ws).stacks@);
    ws.stacks = kept;
    ws.worktree = worktree;
    Ok(IntegrationOutcome { archived_branches })
}

/// The commits of the old target that the new one lacks, oldest first:
/// first parents from the old target down to the fork point.
pub open spec fn target_only_commits(s: Seq<CommitModel>, old_target: usize, new_target: usize) -> Seq<
    usize,
> {
    let stop = match merge_base_of(s, old_target, new_target) {
        Some(m) => m,
        None => s.len() as usize,
    };
    first_parent_log(s, old_target, stop).reverse()
}

pub open spec fn target_merge_message() -> Seq<char> {
    "Merge upstream into target"@
}

/// The target commit that a target resolution produces, with the store it
/// leaves: the new target itself for a hard reset; a merge commit of the
/// old and new targets; or the old target's own commits replayed onto the
/// new one.
pub open spec fn resolved_target(
    s: Seq<CommitModel>,
    old_target: usize,
    new_target: usize,
    approach: BaseBranchResolutionApproach,
) -> (Seq<CommitModel>, usize) {
    match approach {
        BaseBranchResolutionApproach::HardReset => (s, new_target),
        BaseBranchResolutionApproach::Merge => (
            s.push(merge_commit_model(s, old_target, new_target, target_merge_message())),
            s.len() as usize,
        ),
        BaseBranchResolutionApproach::Rebase => {
            let st = rebase_fold(s, new_target, picks(target_only_commits(s, old_target, new_target)), false);
            (st.store, st.head)
        },
    }
}

/// Brings a target that diverged from its upstream together with it, as
/// `approach` says, and returns the commit the target is to move to. Fails
/// when the store cannot take the commits that this needs.
pub fn resolve_upstream_integration(
    ws: &mut Workspace,
    upstream_head: usize,
    resolution_approach: BaseBranchResolutionApproach,
) -> (r: Result<usize, IntegrationError>)
    requires
        old(ws).wf(),
    ensures
        store_wf(final(ws).store@),
        final(ws).target == old(ws).target,
        final(ws).stacks == old(ws).stacks,
        final(ws).worktree == old(ws).worktree,
        ({
            let s = old(ws).store@;
            let (s2, head) = resolved_target(s, old(ws).target.sha, upstream_head, resolution_approach);
            &&& upstream_head >= s.len() ==> r == Err::<usize, IntegrationError>(IntegrationError::MissingCommit)
            &&& upstream_head < s.len() && s.len() >= usize::MAX / 2 && resolution_approach
                != BaseBranchResolutionApproach::HardReset ==> r == Err::<usize, IntegrationError>(
                IntegrationError::StoreFull,
            )
            &&& r is Err ==> final(ws).store@ == s
            &&& upstream_head < s.len() && (s.len() < usize::MAX / 2 || resolution_approach
                == BaseBranchResolutionApproach::HardReset) ==> r == Ok::<usize, IntegrationError>(head)
                && final(ws).store@ == s2
        }),
{
    if upstream_head >= ws.store.len() {
        return Err(IntegrationError::MissingCommit);
    }
    let old_target = ws.target.sha;
    match resolution_approach {
        BaseBranchResolutionApproach::HardReset => Ok(upstream_head),
        BaseBranchResolutionApproach::Merge => {
            if ws.store.len() >= usize::MAX / 2 {
                return Err(IntegrationError::StoreFull);
            }
            let message = String::from_str("Merge upstream into target");
            proof {
                reveal_strlit("Merge upstream into target");
            }
            Ok(ws.store.merge_commits(old_target, upstream_head, message))
        },
        BaseBranchResolutionApproach::Rebase => {
            if ws.store.len() >= usize::MAX / 2 {
                return Err(IntegrationError::StoreFull);
            }
            let ghost s = ws.store@;
            let stop = match ws.store.find_merge_base(old_target, upstream_head) {
                Some(m) => m,
                None => ws.store.len(),
            };
            let log = ws.store.first_parent_log(old_target, stop);
            proof {
                lemma_log_bounds(s, old_target, stop);
            }
            let mut ids: Vec<usize> = Vec::new();
            let mut k: usize = log.len();
            while k > 0
                invariant
                    k <= log@.len(),
                    ids@.len() == log@.len() - k,
                    forall|m: int| 0 <= m < ids@.len() ==> #[trigger] ids@[m] == log@[log@.len() - 1 - m],
                decreases k,
            {
                k = k - 1;
                ids.push(log[k]);
            }
            assert(ids@ =~= log@.reverse());
            assert(ids@ == target_only_commits(s, old_target, upstream_head));
            let steps = pick_steps(&ids);
            assert(rebase_ok(s, upstream_head, steps@)) by {
                assert forall|i: int| 0 <= i < steps@.len() implies (#[trigger] steps@[i] matches RebaseStep::Pick { commit_id, .. }
                    ==> commit_id < s.len()) by {
                    assert(ids@[i] == log@[log@.len() - 1 - i]);
                }
            }
            match rebase(&mut ws.store, upstream_head, &steps, false) {
                Ok(out) => Ok(out.top_commit),
                Err(_) => {
                    assert(false);
                    Err(IntegrationError::MissingCommit)
                },
            }
        },
    }
}

/// Whether the statuses against `new_target` report the workspace up to
/// date, given the target it stands on.
pub open spec fn is_up_to_date(target_sha: usize, new_target: usize) -> bool {
    target_sha == new_target
}

/// A hard reset adopts the upstream head as the target: integrating with
/// its result moves the target to the upstream head, against which the
/// statuses then report the workspace up to date.
pub proof fn hard_reset_leaves_up_to_date(
    s: Seq<CommitModel>,
    old_target: usize,
    upstream_head: usize,
    target_after: usize,
)
    requires
        target_after == integration_target(
            upstream_head,
            Some(
                BaseBranchResolution {
                    target_commit_oid: resolved_target(
                        s,
                        old_target,
                        upstream_head,
                        BaseBranchResolutionApproach::HardReset,
                    ).1,
                    approach: BaseBranchResolutionApproach::HardReset,
                },
            ),
        ),
    ensures
        resolved_target(s, old_target, upstream_head, BaseBranchResolutionApproach::HardReset).0 == s,
        is_up_to_date(target_after, upstream_head),
{
}

} // verus!
