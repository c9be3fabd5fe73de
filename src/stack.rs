use vstd::prelude::*;

use crate::store::{store_wf, ObjectStore};
use crate::tree::Tree;

verus! {

/// Identifies a stack.
pub type StackId = u64;

/// One branch of a stack.
#[derive(Debug)]
pub struct Branch {
    pub name: String,
    /// An archived branch is kept for its name only: it was integrated.
    pub archived: bool,
    /// The branch's own commits, oldest first. They sit on the branch below,
    /// or on the target for the lowest branch.
    pub commits: Vec<usize>,
    /// The remote branch this branch pushes to, if any.
    pub upstream: Option<String>,
    /// Where that remote branch stood when last seen.
    pub upstream_head: Option<usize>,
    /// The number of the pull request opened for the branch, if any.
    pub pr_number: Option<u64>,
}

/// A stack: dependent branches, lowest first, and the working tree that
/// holds the stack's uncommitted changes on top of its head.
#[derive(Debug)]
pub struct Stack {
    pub id: StackId,
    pub name: String,
    pub branches: Vec<Branch>,
    pub head: usize,
    pub tree: Tree,
    pub allow_rebasing: bool,
    pub in_workspace: bool,
    /// Where the stack is shown among the others.
    pub order: usize,
    /// New uncommitted changes go to the applied stack that holds this.
    pub selected_for_changes: bool,
    /// The change id of the placeholder commit that saved the stack's
    /// uncommitted changes when it left the workspace, if any.
    pub wip_change_id: Option<u64>,
}

/// The upstream branch that all stacks are measured against.
#[derive(Debug)]
pub struct Target {
    pub branch: String,
    pub remote_url: String,
    pub sha: usize,
    pub push_remote_name: Option<String>,
}

/// Every commit that a branch names is in a store of `n` commits.
pub open spec fn branch_in(b: Branch, n: nat) -> bool {
    forall|k: int| 0 <= k < b.commits@.len() ==> #[trigger] b.commits@[k] < n
}

/// The number of commits over all branches.
pub open spec fn commit_count(bs: Seq<Branch>) -> nat
    decreases bs.len(),
{
    if bs.len() == 0 {
        0
    } else {
        commit_count(bs.drop_last()) + bs.last().commits@.len()
    }
}

impl Stack {
    /// The stack's head and every commit of its branches are in a store of
    /// `n` commits.
    pub open spec fn in_store(&self, n: nat) -> bool {
        &&& self.head < n
        &&& forall|i: int| 0 <= i < self.branches@.len() ==> branch_in(#[trigger] self.branches@[i], n)
    }
}

/// The stacks that are applied, in order.
pub open spec fn workspace_stacks(stacks: Seq<Stack>) -> Seq<Stack>
    decreases stacks.len(),
{
    if stacks.len() == 0 {
        seq![]
    } else if stacks.last().in_workspace {
        workspace_stacks(stacks.drop_last()).push(stacks.last())
    } else {
        workspace_stacks(stacks.drop_last())
    }
}

/// No two stacks share an id.
pub open spec fn ids_unique(stacks: Seq<Stack>) -> bool {
    forall|i: int, j: int| 0 <= i < j < stacks.len() ==> #[trigger] stacks[i].id != #[trigger] stacks[j].id
}

/// A repository as the engine sees it: its commits, the target, the stacks
/// and the checked-out working tree.
#[derive(Debug)]
pub struct Workspace {
    pub store: ObjectStore,
    pub target: Target,
    pub stacks: Vec<Stack>,
    pub worktree: Tree,
}

impl Workspace {
    /// The target and every stack are in the store, and no two stacks
    /// share an id.
    pub open spec fn sound(&self) -> bool {
        &&& store_wf(self.store@)
        &&& self.target.sha < self.store@.len()
        &&& ids_unique(self.stacks@)
        &&& forall|i: int|
            0 <= i < self.stacks@.len() ==> (#[trigger] self.stacks@[i]).in_store(self.store@.len())
    }

    /// Sound, and the store has room for a rebase of any one stack.
    pub open spec fn wf(&self) -> bool {
        &&& self.sound()
        &&& forall|i: int|
            0 <= i < self.stacks@.len() ==> self.store@.len() + commit_count(
                (#[trigger] self.stacks@[i]).branches@,
            ) < usize::MAX
    }
}

impl Branch {
    /// A branch with the same name, flag and commits.
    pub fn copy(&self) -> (r: Branch)
        ensures
            r.name@ == self.name@,
            r.archived == self.archived,
            r.commits@ == self.commits@,
    {
        let mut commits: Vec<usize> = Vec::new();
        let mut i: usize = 0;
        while i < self.commits.len()
            invariant
                i <= self.commits@.len(),
                commits@ == self.commits@.subrange(0, i as int),
            decreases self.commits@.len() - i,
        {
            commits.push(self.commits[i]);
            i = i + 1;
        }
        assert(commits@ == self.commits@);
        let upstream = match &self.upstream {
            Some(u) => Some(u.clone()),
            None => None,
        };
        Branch {
            name: self.name.clone(),
            archived: self.archived,
            commits,
            upstream,
            upstream_head: self.upstream_head,
            pr_number: self.pr_number,
        }
    }
}

/// The positions of the applied stacks, in order.
pub fn workspace_indices(stacks: &Vec<Stack>) -> (r: Vec<usize>)
    ensures
        r@.len() == workspace_stacks(stacks@).len(),
        forall|k: int| 0 <= k < r@.len() ==> #[trigger] r@[k] < stacks@.len() && stacks@[r@[k] as int]
            == workspace_stacks(stacks@)[k],
        forall|k: int, m: int| 0 <= k < m < r@.len() ==> r@[k] < r@[m],
{
    let ghost all = stacks@;
    let mut r: Vec<usize> = Vec::new();
    let mut i: usize = 0;
    assert(all.take(0) =~= Seq::<Stack>::empty());
    while i < stacks.len()
        invariant
            all == stacks@,
            i <= all.len(),
            r@.len() == workspace_stacks(all.take(i as int)).len(),
            forall|k: int| 0 <= k < r@.len() ==> #[trigger] r@[k] < i && all[r@[k] as int]
                == workspace_stacks(all.take(i as int))[k],
            forall|k: int, m: int| 0 <= k < m < r@.len() ==> r@[k] < r@[m],
        decreases all.len() - i,
    {
        assert(all.take(i + 1).drop_last() =~= all.take(i as int));
        assert(all.take(i + 1).last() == all[i as int]);
        if stacks[i].in_workspace {
            r.push(i);
        }
        i = i + 1;
    }
    assert(all.take(all.len() as int) =~= all);
    r
}

/// Copies of the branches.
pub fn copy_branches(bs: &Vec<Branch>) -> (r: Vec<Branch>)
    ensures
        r@.len() == bs@.len(),
        forall|i: int|
            0 <= i < bs@.len() ==> (#[trigger] r@[i]).name@ == bs@[i].name@ && r@[i].archived
                == bs@[i].archived && r@[i].commits@ == bs@[i].commits@,
{
    let mut r: Vec<Branch> = Vec::new();
    let mut i: usize = 0;
    while i < bs.len()
        invariant
            i <= bs@.len(),
            r@.len() == i,
            forall|j: int|
                0 <= j < i ==> (#[trigger] r@[j]).name@ == bs@[j].name@ && r@[j].archived
                    == bs@[j].archived && r@[j].commits@ == bs@[j].commits@,
        decreases bs@.len() - i,
    {
        r.push(bs[i].copy());
        i = i + 1;
    }
    r
}

impl Stack {
    /// This stack, applied, with a new head, tree and, if given, branches.
    pub fn moved_to(&self, head: usize, tree: Tree, branches: Option<Vec<Branch>>) -> (r: Stack)
        ensures
            r.id == self.id,
            r.name@ == self.name@,
            r.head == head,
            r.tree@ == tree@,
            r.allow_rebasing == self.allow_rebasing,
            r.in_workspace,
            r.selected_for_changes == self.selected_for_changes,
            r.wip_change_id == self.wip_change_id,
            r.order == self.order,
            r.id == self.id,
            branches is None ==> branch_views(r.branches@) == branch_views(self.branches@),
            branches is None ==> r.branches@.len() == self.branches@.len() && forall|i: int|
                0 <= i < self.branches@.len() ==> (#[trigger] r.branches@[i]).commits@
                    == self.branches@[i].commits@,
            branches matches Some(b) ==> r.branches@ == b@,
    {
        let branches = match branches {
            Some(b) => b,
            None => {
                let c = copy_branches(&self.branches);
                assert(branch_views(c@) =~= branch_views(self.branches@));
                c
            },
        };
        Stack {
            id: self.id,
            name: self.name.clone(),
            branches,
            head,
            tree,
            allow_rebasing: self.allow_rebasing,
            in_workspace: true,
            order: self.order,
            selected_for_changes: self.selected_for_changes,
            wip_change_id: self.wip_change_id,
        }
    }

    /// This stack, taken out of the workspace.
    pub fn unapplied(&self) -> (r: Stack)
        ensures
            r.id == self.id,
            r.name@ == self.name@,
            r.head == self.head,
            r.tree@ == self.tree@,
            r.allow_rebasing == self.allow_rebasing,
            !r.in_workspace,
            !r.selected_for_changes,
            r.wip_change_id == self.wip_change_id,
            r.order == self.order,
            r.branches@.len() == self.branches@.len(),
            forall|i: int|
                0 <= i < self.branches@.len() ==> (#[trigger] r.branches@[i]).commits@
                    == self.branches@[i].commits@,
            branch_views(r.branches@) == branch_views(self.branches@),
    {
        let branches = copy_branches(&self.branches);
        assert(branch_views(branches@) =~= branch_views(self.branches@));
        Stack {
            id: self.id,
            name: self.name.clone(),
            branches,
            head: self.head,
            tree: self.tree.copy(),
            allow_rebasing: self.allow_rebasing,
            in_workspace: false,
            order: self.order,
            selected_for_changes: false,
            wip_change_id: self.wip_change_id,
        }
    }
}

impl Stack {
    /// A stack in a store stays in any store that extends it.
    pub proof fn lemma_in_store_grows(&self, n: nat, m: nat)
        requires
            self.in_store(n),
            n <= m,
        ensures
            self.in_store(m),
    {
        assert forall|i: int| 0 <= i < self.branches@.len() implies branch_in(#[trigger] self.branches@[i], m) by {
            assert(branch_in(self.branches@[i], n));
            assert forall|k: int| 0 <= k < self.branches@[i].commits@.len() implies #[trigger] self.branches@[i].commits@[k] < m by {
                assert(self.branches@[i].commits@[k] < n);
            }
        }
    }
}

/// The branches as plain values: name, archived flag, commits.
pub open spec fn branch_views(v: Seq<Branch>) -> Seq<(Seq<char>, bool, Seq<usize>)> {
    v.map_values(|b: Branch| (b.name@, b.archived, b.commits@))
}

/// The two stacks hold the same values.
pub open spec fn same_stack(a: Stack, b: Stack) -> bool {
    &&& a.id == b.id
    &&& a.name@ == b.name@
    &&& branch_views(a.branches@) == branch_views(b.branches@)
    &&& a.head == b.head
    &&& a.tree@ == b.tree@
    &&& a.allow_rebasing == b.allow_rebasing
    &&& a.in_workspace == b.in_workspace
    &&& a.selected_for_changes == b.selected_for_changes
    &&& a.wip_change_id == b.wip_change_id
    &&& a.order == b.order
}

impl Stack {
    /// A stack holding the same values.
    pub fn copy(&self) -> (r: Stack)
        ensures
            same_stack(r, *self),
    {
        let branches = copy_branches(&self.branches);
        assert(branch_views(branches@) =~= branch_views(self.branches@));
        Stack {
            id: self.id,
            name: self.name.clone(),
            branches,
            head: self.head,
            tree: self.tree.copy(),
            allow_rebasing: self.allow_rebasing,
            in_workspace: self.in_workspace,
            order: self.order,
            selected_for_changes: self.selected_for_changes,
            wip_change_id: self.wip_change_id,
        }
    }
}

/// Some applied stack is selected for changes.
pub open spec fn has_selected(stacks: Seq<Stack>) -> bool {
    exists|k: int| 0 <= k < stacks.len() && (#[trigger] stacks[k]).in_workspace && stacks[k].selected_for_changes
}

/// Whether some applied stack is selected for changes.
pub fn any_selected(stacks: &Vec<Stack>) -> (r: bool)
    ensures
        r == has_selected(stacks@),
{
    let mut k: usize = 0;
    while k < stacks.len()
        invariant
            k <= stacks@.len(),
            forall|m: int| 0 <= m < k ==> !((#[trigger] stacks@[m]).in_workspace && stacks@[m].selected_for_changes),
        decreases stacks@.len() - k,
    {
        if stacks[k].in_workspace && stacks[k].selected_for_changes {
            return true;
        }
        k = k + 1;
    }
    false
}

/// Exactly one applied stack is selected for changes.
pub open spec fn exactly_one_selected(stacks: Seq<Stack>) -> bool {
    exists|k: int|
        0 <= k < stacks.len() && (#[trigger] stacks[k]).in_workspace && stacks[k].selected_for_changes && forall|
            j: int,
        |
            0 <= j < stacks.len() && (#[trigger] stacks[j]).in_workspace && stacks[j].selected_for_changes ==> j
                == k
}

/// `k` is the first applied stack.
pub open spec fn first_applied(stacks: Seq<Stack>, k: int) -> bool {
    &&& 0 <= k < stacks.len()
    &&& stacks[k].in_workspace
    &&& forall|m: int| 0 <= m < k ==> !(#[trigger] stacks[m]).in_workspace
}

/// When no applied stack is selected for changes, selects the first applied
/// one; otherwise leaves the stacks as they are.
pub fn ensure_selected_for_changes(stacks: &mut Vec<Stack>)
    ensures
        final(stacks)@.len() == old(stacks)@.len(),
        (exists|k: int| 0 <= k < old(stacks)@.len() && (#[trigger] old(stacks)@[k]).in_workspace) ==> has_selected(
            final(stacks)@,
        ),
        !has_selected(old(stacks)@) && (exists|k: int|
            0 <= k < old(stacks)@.len() && (#[trigger] old(stacks)@[k]).in_workspace) ==> exactly_one_selected(
            final(stacks)@,
        ),
        has_selected(old(stacks)@) ==> final(stacks)@ == old(stacks)@,
        !has_selected(old(stacks)@) ==> forall|j: int|
            0 <= j < old(stacks)@.len() ==> {
                let a = #[trigger] final(stacks)@[j];
                let b = old(stacks)@[j];
                &&& a.id == b.id
                &&& a.name@ == b.name@
                &&& branch_views(a.branches@) == branch_views(b.branches@)
                &&& a.head == b.head
                &&& a.tree@ == b.tree@
                &&& a.allow_rebasing == b.allow_rebasing
                &&& a.in_workspace == b.in_workspace
                &&& a.wip_change_id == b.wip_change_id
                &&& a.order == b.order
                &&& a.selected_for_changes == (b.selected_for_changes || first_applied(old(stacks)@, j))
            },
{
    let mut k: usize = 0;
    while k < stacks.len()
        invariant
            stacks@ == old(stacks)@,
            k <= stacks@.len(),
            forall|m: int| 0 <= m < k ==> !((#[trigger] stacks@[m]).in_workspace && stacks@[m].selected_for_changes),
        decreases stacks@.len() - k,
    {
        if stacks[k].in_workspace && stacks[k].selected_for_changes {
            return;
        }
        k = k + 1;
    }
    assert(!has_selected(old(stacks)@));
    let mut f: usize = 0;
    while f < stacks.len() && !stacks[f].in_workspace
        invariant
            stacks@ == old(stacks)@,
            f <= stacks@.len(),
            forall|m: int| 0 <= m < f ==> !(#[trigger] stacks@[m]).in_workspace,
        decreases stacks@.len() - f,
    {
        f = f + 1;
    }
    if f < stacks.len() {
        let mut st = stacks[f].copy();
        st.selected_for_changes = true;
        stacks.set(f, st);
        assert(stacks@[f as int].in_workspace && stacks@[f as int].selected_for_changes);
        assert forall|j: int|
            0 <= j < stacks@.len() && (#[trigger] stacks@[j]).in_workspace && stacks@[j].selected_for_changes implies j
                == f by {
            if j != f {
                assert(stacks@[j] == old(stacks)@[j]);
            }
        }
        proof {
            assert forall|j: int| 0 <= j < old(stacks)@.len() implies first_applied(old(stacks)@, j) == (j == f) by {
                if j < f {
                    assert(!old(stacks)@[j].in_workspace);
                } else if j > f {
                    assert(!first_applied(old(stacks)@, j)) by {
                        assert(old(stacks)@[f as int].in_workspace);
                    }
                }
            }
        }
    } else {
        assert forall|j: int| 0 <= j < old(stacks)@.len() implies !first_applied(old(stacks)@, j) by {}
        assert forall|j: int| 0 <= j < old(stacks)@.len() implies !(#[trigger] old(stacks)@[j]).in_workspace by {}
    }
}

impl Stack {
    /// A stack with the same head and branch commits is in the same stores.
    pub proof fn lemma_in_store_same_commits(&self, other: Stack, n: nat)
        requires
            self.in_store(n),
            other.head == self.head,
            branch_views(other.branches@) == branch_views(self.branches@),
        ensures
            other.in_store(n),
    {
        assert(branch_views(other.branches@).len() == other.branches@.len());
        assert(branch_views(self.branches@).len() == self.branches@.len());
        assert forall|i: int| 0 <= i < other.branches@.len() implies branch_in(#[trigger] other.branches@[i], n) by {
            assert(branch_views(other.branches@)[i] == branch_views(self.branches@)[i]);
            assert(other.branches@[i].commits@ == self.branches@[i].commits@);
            assert(branch_in(self.branches@[i], n));
            assert forall|k: int| 0 <= k < other.branches@[i].commits@.len() implies #[trigger] other.branches@[i].commits@[k] < n by {
                assert(self.branches@[i].commits@[k] < n);
            }
        }
    }
}

} // verus!
