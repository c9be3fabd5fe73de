use vstd::prelude::*;

use crate::branch_manager::id_taken;
use crate::commits::merge_base_of;
use crate::graph::{first_parent_log, is_ancestor, lemma_log_bounds};
use crate::stack::{branch_in, Branch, Stack, StackId, Workspace};
use crate::store::{CommitModel, ObjectStore};
use crate::tree::same_tree;

verus! {

/// The commits among the first `n` that `a` reaches and `b` does not,
/// newest first.
pub open spec fn reached_only_by(s: Seq<CommitModel>, a: usize, b: usize, n: nat) -> Seq<usize>
    decreases n,
{
    if n == 0 {
        seq![]
    } else {
        let c = (n - 1) as usize;
        let rest = reached_only_by(s, a, b, (n - 1) as nat);
        if is_ancestor(s, c, a) && !is_ancestor(s, c, b) {
            seq![c] + rest
        } else {
            rest
        }
    }
}

/// The target as callers see it, with how it stands against its upstream.
#[derive(Debug)]
pub struct BaseBranch {
    pub branch_name: String,
    pub remote_url: String,
    pub push_remote_name: Option<String>,
    /// The commit the target stands on.
    pub base_sha: usize,
    /// The upstream head.
    pub current_sha: usize,
    /// How many upstream commits the target lacks.
    pub behind: usize,
    /// The upstream commits the target lacks, newest first.
    pub upstream_commits: Vec<usize>,
    /// Whether the target has commits that the upstream lacks.
    pub diverged: bool,
    /// The target's commits that the upstream lacks, newest first.
    pub diverged_ahead: Vec<usize>,
    /// The upstream commits the target lacks, newest first.
    pub diverged_behind: Vec<usize>,
    /// Up to twenty commits of the target's first-parent history, newest
    /// first, the target itself included.
    pub recent_commits: Vec<usize>,
    /// Whether one of the recent commits is conflicted.
    pub conflicted: bool,
}

/// Up to twenty commits of the first-parent history from `x`, newest first.
pub open spec fn recent_log(s: Seq<CommitModel>, x: usize) -> Seq<usize> {
    let log = first_parent_log(s, x, s.len() as usize);
    if log.len() <= 20 {
        log
    } else {
        log.take(20)
    }
}

impl ObjectStore {
    /// The commits that `a` reaches and `b` does not, newest first.
    pub fn reached_only_by(&self, a: usize, b: usize) -> (r: Vec<usize>)
        requires
            self.wf(),
            a < self@.len(),
            b < self@.len(),
        ensures
            r@ == reached_only_by(self@, a, b, self@.len()),
    {
        let aa = self.ancestors(a);
        let ab = self.ancestors(b);
        let n = self.len();
        let mut out: Vec<usize> = Vec::new();
        let mut k: usize = n;
        while k > 0
            invariant
                self.wf(),
                k <= n,
                n == self@.len(),
                aa@.len() == a + 1,
                ab@.len() == b + 1,
                a < n,
                b < n,
                forall|x: usize| x <= a ==> aa@[x as int] == is_ancestor(self@, x, a),
                forall|x: usize| x <= b ==> ab@[x as int] == is_ancestor(self@, x, b),
                out@ + reached_only_by(self@, a, b, k as nat) == reached_only_by(self@, a, b, n as nat),
            decreases k,
        {
            k = k - 1;
            let in_a = k <= a && aa[k];
            let in_b = k <= b && ab[k];
            proof {
                if k > a {
                    if is_ancestor(self@, k, a) {
                        crate::graph::lemma_ancestor_not_later(self@, k, a);
                    }
                }
                if k > b {
                    if is_ancestor(self@, k, b) {
                        crate::graph::lemma_ancestor_not_later(self@, k, b);
                    }
                }
            }
            let ghost before = out@;
            if in_a && !in_b {
                out.push(k);
                assert(out@ + reached_only_by(self@, a, b, k as nat) =~= before + reached_only_by(
                    self@,
                    a,
                    b,
                    (k + 1) as nat,
                ));
            }
        }
        assert(reached_only_by(self@, a, b, 0) == Seq::<usize>::empty());
        assert(out@ =~= out@ + Seq::<usize>::empty());
        out
    }
}

/// How the target stands against the upstream head: the commits each has
/// that the other lacks.
pub fn get_base_branch_data(ws: &Workspace, upstream_head: usize) -> (r: BaseBranch)
    requires
        ws.sound(),
        upstream_head < ws.store@.len(),
    ensures
        r.branch_name@ == ws.target.branch@,
        r.remote_url@ == ws.target.remote_url@,
        r.base_sha == ws.target.sha,
        r.current_sha == upstream_head,
        r.diverged_ahead@ == reached_only_by(ws.store@, ws.target.sha, upstream_head, ws.store@.len()),
        r.diverged_behind@ == reached_only_by(ws.store@, upstream_head, ws.target.sha, ws.store@.len()),
        r.upstream_commits@ == r.diverged_behind@,
        r.behind == r.diverged_behind@.len(),
        r.diverged == (r.diverged_ahead@.len() > 0),
        r.recent_commits@ == recent_log(ws.store@, ws.target.sha),
        r.conflicted == exists|i: int|
            0 <= i < r.recent_commits@.len() && (#[trigger] ws.store@[r.recent_commits@[i] as int]).markers is Some,
{
    let ahead = ws.store.reached_only_by(ws.target.sha, upstream_head);
    let behind = ws.store.reached_only_by(upstream_head, ws.target.sha);
    let upstream = ws.store.reached_only_by(upstream_head, ws.target.sha);
    let log = ws.store.first_parent_log(ws.target.sha, ws.store.len());
    proof {
        lemma_log_bounds(ws.store@, ws.target.sha, ws.store@.len() as usize);
    }
    let mut recent: Vec<usize> = Vec::new();
    let mut conflicted = false;
    let mut i: usize = 0;
    while i < log.len() && i < 20
        invariant
            i <= log@.len(),
            i <= 20,
            recent@ == log@.take(i as int),
            forall|k: int| 0 <= k < log@.len() ==> #[trigger] log@[k] < ws.store@.len(),
            conflicted == exists|j: int| 0 <= j < i && (#[trigger] ws.store@[recent@[j] as int]).markers is Some,
            recent@.len() == i,
        decreases log@.len() - i,
    {
        let c = log[i];
        let ghost before = recent@;
        recent.push(c);
        assert(recent@ =~= log@.take(i + 1));
        proof {
            assert forall|j: int| 0 <= j < i implies recent@[j] == before[j] by {}
        }
        let ghost was = conflicted;
        if ws.store.is_conflicted(c) {
            conflicted = true;
        }
        proof {
            assert(recent@[i as int] == c);
            if was {
                let j = choose|j: int| 0 <= j < i && (#[trigger] ws.store@[before[j] as int]).markers is Some;
                assert(recent@[j] == before[j]);
            }
            if !conflicted {
                assert forall|j: int| 0 <= j < i + 1 implies (#[trigger] ws.store@[recent@[j] as int]).markers is None by {
                    if j < i {
                        assert(recent@[j] == before[j]);
                    }
                }
            }
        }
        i = i + 1;
    }
    assert(recent@ =~= recent_log(ws.store@, ws.target.sha));
    let push_remote_name = match &ws.target.push_remote_name {
        Some(n) => Some(n.clone()),
        None => None,
    };
    BaseBranch {
        branch_name: ws.target.branch.clone(),
        remote_url: ws.target.remote_url.clone(),
        push_remote_name,
        base_sha: ws.target.sha,
        current_sha: upstream_head,
        behind: behind.len(),
        upstream_commits: upstream,
        diverged: ahead.len() > 0,
        diverged_ahead: ahead,
        diverged_behind: behind,
        recent_commits: recent,
        conflicted,
    }
}

/// Why a target could not be set.
#[derive(Clone, Copy, Debug, PartialEq, Eq, Structural)]
pub enum BaseError {
    /// The branch head or the current head is not in the store.
    MissingCommit,
    /// The current head and the branch head share no history.
    NoMergeBase,
    /// A stack with the id meant for the current head's work exists already.
    DuplicateId,
}

/// The work found on the current head needs a stack of its own: HEAD is not
/// the workspace, and it has commits beyond the target or the working tree
/// differs from it.
pub open spec fn head_needs_stack(
    s: Seq<CommitModel>,
    worktree: Seq<Option<u64>>,
    current_head: usize,
    target: usize,
    head_is_workspace: bool,
) -> bool {
    !head_is_workspace && (!same_tree(worktree, s[current_head as int].tree) || current_head != target)
}

/// Makes `branch`, whose head is `branch_head`, the target, unless it is the
/// target already. The target commit is where the current head meets the
/// branch head. Work found on the current head becomes an applied stack
/// named `head_name`: its commits down to the target, and the working tree.
/// Returns how the new target stands against the branch head.
pub fn set_base_branch(
    ws: &mut Workspace,
    branch: String,
    remote_url: String,
    branch_head: usize,
    current_head: usize,
    head_is_workspace: bool,
    head_name: String,
    stack_id: StackId,
) -> (r: Result<BaseBranch, BaseError>)
    requires
        old(ws).sound(),
    ensures
        final(ws).sound(),
        final(ws).store == old(ws).store,
        final(ws).worktree == old(ws).worktree,
        ({
            let s = old(ws).store@;
            let same = branch@ == old(ws).target.branch@;
            let mb = merge_base_of(s, current_head, branch_head);
            &&& same && branch_head < s.len() ==> final(ws).target == old(ws).target && final(ws).stacks
                == old(ws).stacks && r is Ok
            &&& (branch_head >= s.len() || (!same && current_head >= s.len())) ==> r == Err::<
                BaseBranch,
                BaseError,
            >(BaseError::MissingCommit)
            &&& !same && branch_head < s.len() && current_head < s.len() && mb is None ==> r == Err::<
                BaseBranch,
                BaseError,
            >(BaseError::NoMergeBase)
            &&& r is Err ==> final(ws).target == old(ws).target && final(ws).stacks == old(ws).stacks
            &&& !same && r is Ok ==> {
                let t = mb->Some_0;
                let needs = head_needs_stack(s, old(ws).worktree@, current_head, t, head_is_workspace);
                &&& final(ws).target.branch@ == branch@
                &&& final(ws).target.remote_url@ == remote_url@
                &&& final(ws).target.sha == t
                &&& final(ws).target.push_remote_name is None
                &&& !needs ==> final(ws).stacks == old(ws).stacks
                &&& needs ==> {
                    let st = final(ws).stacks@.last();
                    &&& final(ws).stacks@.drop_last() == old(ws).stacks@
                    &&& st.id == stack_id
                    &&& st.name@ == head_name@
                    &&& st.head == current_head
                    &&& st.tree@ == old(ws).worktree@
                    &&& st.in_workspace
                    &&& st.branches@.len() == 1
                    &&& st.branches@[0].commits@ == first_parent_log(s, current_head, t).reverse()
                }
            }
            &&& !same && branch_head < s.len() && current_head < s.len() && mb is Some ==> (r == Err::<
                BaseBranch,
                BaseError,
            >(BaseError::DuplicateId) <==> head_needs_stack(
                s,
                old(ws).worktree@,
                current_head,
                mb->Some_0,
                head_is_workspace,
            ) && exists|k: int| 0 <= k < old(ws).stacks@.len() && #[trigger] old(ws).stacks@[k].id == stack_id)
            &&& !same && branch_head < s.len() && current_head < s.len() && mb is Some && !(head_needs_stack(
                s,
                old(ws).worktree@,
                current_head,
                mb->Some_0,
                head_is_workspace,
            ) && exists|k: int| 0 <= k < old(ws).stacks@.len() && #[trigger] old(ws).stacks@[k].id == stack_id)
                ==> r is Ok
            &&& r matches Ok(b) ==> b.current_sha == branch_head && b.base_sha == final(ws).target.sha
                && b.diverged_ahead@ == reached_only_by(s, final(ws).target.sha, branch_head, s.len())
                && b.diverged_behind@ == reached_only_by(s, branch_head, final(ws).target.sha, s.len())
        }),
{
    if branch_head >= ws.store.len() {
        return Err(BaseError::MissingCommit);
    }
    if branch == ws.target.branch {
        return Ok(get_base_branch_data(ws, branch_head));
    }
    if current_head >= ws.store.len() {
        return Err(BaseError::MissingCommit);
    }
    let target_sha = match ws.store.find_merge_base(current_head, branch_head) {
        Some(m) => m,
        None => {
            return Err(BaseError::NoMergeBase);
        },
    };
    assert(target_sha < ws.store@.len()) by {
        let p = choose|p: Seq<usize>| crate::graph::is_path(ws.store@, p) && p[0] == current_head && #[trigger] p.last() == target_sha;
        assert(p[p.len() - 1] < ws.store@.len());
    }
    let needs = !head_is_workspace && (!ws.worktree.same_as(ws.store.tree_of(current_head))
        || current_head != target_sha);
    if needs {
        if id_taken(&ws.stacks, stack_id) {
            return Err(BaseError::DuplicateId);
        }
        let log = ws.store.first_parent_log(current_head, target_sha);
        proof {
            lemma_log_bounds(ws.store@, current_head, target_sha);
        }
        let mut commits: Vec<usize> = Vec::new();
        let mut i: usize = log.len();
        while i > 0
            invariant
                i <= log@.len(),
                commits@.len() == log@.len() - i,
                forall|m: int| 0 <= m < commits@.len() ==> #[trigger] commits@[m] == log@[log@.len() - 1 - m],
            decreases i,
        {
            i = i - 1;
            commits.push(log[i]);
        }
        assert(commits@ =~= log@.reverse());
        let mut branches: Vec<Branch> = Vec::new();
        branches.push(Branch { name: head_name.clone(), archived: false, commits, upstream: None, upstream_head: None, pr_number: None });
        let stack = Stack {
            id: stack_id,
            name: head_name,
            branches,
            head: current_head,
            tree: ws.worktree.copy(),
            allow_rebasing: true,
            in_workspace: true,
            order: 0,
            selected_for_changes: false,
            wip_change_id: None,
        };
        proof {
            assert forall|b: int| 0 <= b < stack.branches@.len() implies branch_in(#[trigger] stack.branches@[b], ws.store@.len()) by {
                assert(b == 0);
                assert forall|c: int| 0 <= c < stack.branches@[0].commits@.len() implies #[trigger] stack.branches@[0].commits@[c] < ws.store@.len() by {
                    assert(stack.branches@[0].commits@[c] == log@[log@.len() - 1 - c]);
                }
            }
        }
        let ghost before = ws.stacks@;
        ws.stacks.push(stack);
        assert(ws.stacks@.drop_last() =~= before);
    }
    ws.target.branch = branch;
    ws.target.remote_url = remote_url;
    ws.target.sha = target_sha;
    ws.target.push_remote_name = None;
    Ok(get_base_branch_data(ws, branch_head))
}

/// Makes `push_remote_name` the remote that the target pushes to.
pub fn set_target_push_remote(ws: &mut Workspace, push_remote_name: String)
    ensures
        final(ws).store == old(ws).store,
        final(ws).stacks == old(ws).stacks,
        final(ws).worktree == old(ws).worktree,
        final(ws).target.branch == old(ws).target.branch,
        final(ws).target.remote_url == old(ws).target.remote_url,
        final(ws).target.sha == old(ws).target.sha,
        final(ws).target.push_remote_name == Some(push_remote_name),
{
    ws.target.push_remote_name = Some(push_remote_name);
}

} // verus!
