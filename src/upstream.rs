use vstd::prelude::*;

use crate::rebase::{lemma_fold_wf, pick_steps, picks, rebase, rebase_fold, rebase_ok, RebaseState, RebaseStep};
use crate::stack::{branch_in, commit_count, workspace_stacks, Branch, Stack, StackId, Workspace};
use crate::status::{BranchStatus, NameAndStatus, StackStatus, StatusError, TreeStatus};
use crate::store::{extends, store_wf, CommitModel, ObjectStore};
use crate::tree::{has_conflict, merge_trees, same_tree};

verus! {

/// The answer of the integration check for commit `c`: commits past the end
/// of `integrated` are not integrated.
pub open spec fn is_integrated(integrated: Seq<bool>, c: usize) -> bool {
    c < integrated.len() && integrated[c as int]
}

/// A branch is integrated when it has commits and its top one is.
pub open spec fn branch_integrated(b: Branch, integrated: Seq<bool>) -> bool {
    b.commits@.len() > 0 && is_integrated(integrated, b.commits@.last())
}

/// Some commit that the rebase wrote after the first `n` is conflicted.
pub open spec fn rebase_conflicted(st: RebaseState, n: nat) -> bool {
    exists|i: int| n <= i < st.store.len() && (#[trigger] st.store[i]).markers is Some
}

/// The walk over a stack's branches.
pub ghost struct StatusFold {
    /// The store with the trial rebases' commits.
    pub store: Seq<CommitModel>,
    /// Where the next branch is rebased onto.
    pub last_head: usize,
    /// A branch that is not integrated has been met.
    pub found: bool,
    pub statuses: Seq<(Seq<char>, BranchStatus)>,
}

pub open spec fn status_step(f: StatusFold, b: Branch, integrated: Seq<bool>) -> StatusFold {
    if b.archived {
        f
    } else if !f.found && branch_integrated(b, integrated) {
        StatusFold { statuses: f.statuses.push((b.name@, BranchStatus::Integrated)), ..f }
    } else if b.commits@.len() == 0 {
        StatusFold { found: true, statuses: f.statuses.push((b.name@, BranchStatus::Empty)), ..f }
    } else {
        let st = rebase_fold(f.store, f.last_head, picks(b.commits@), true);
        StatusFold {
            store: st.store,
            last_head: st.head,
            found: true,
            statuses: f.statuses.push(
                (
                    b.name@,
                    if rebase_conflicted(st, f.store.len()) {
                        BranchStatus::Conflicted { rebasable: false }
                    } else {
                        BranchStatus::SafelyUpdatable
                    },
                ),
            ),
        }
    }
}

/// The statuses of the branches, lowest first, each rebased in trial onto
/// where the one below ended, the lowest onto the new target. Archived
/// branches are passed over; once a branch is not integrated, the ones above
/// it are not asked.
pub open spec fn status_fold(
    s: Seq<CommitModel>,
    new_target: usize,
    bs: Seq<Branch>,
    integrated: Seq<bool>,
) -> StatusFold
    decreases bs.len(),
{
    if bs.len() == 0 {
        StatusFold { store: s, last_head: new_target, found: false, statuses: seq![] }
    } else {
        status_step(status_fold(s, new_target, bs.drop_last(), integrated), bs.last(), integrated)
    }
}

/// The status of a stack's tree: empty when it holds nothing beyond its
/// head; else conflicted when it clashes with where its branches end up.
pub open spec fn tree_status_of(
    s: Seq<CommitModel>,
    stack: Stack,
    new_target: usize,
    last_head: usize,
) -> TreeStatus {
    if same_tree(stack.tree@, s[stack.head as int].tree) {
        TreeStatus::Empty
    } else if has_conflict(s[new_target as int].tree, stack.tree@, s[last_head as int].tree) {
        TreeStatus::Conflicted
    } else {
        TreeStatus::SafelyUpdatable
    }
}

pub open spec fn name_status_views(v: Seq<NameAndStatus>) -> Seq<(Seq<char>, BranchStatus)> {
    v.map_values(|n: NameAndStatus| (n.name@, n.status))
}

/// `st` is the status of `stack` against `new_target`.
pub open spec fn is_stack_status(
    st: StackStatus,
    s: Seq<CommitModel>,
    stack: Stack,
    new_target: usize,
    integrated: Seq<bool>,
) -> bool {
    let f = status_fold(s, new_target, stack.branches@, integrated);
    &&& name_status_views(st.branch_statuses@) == f.statuses
    &&& st.tree_status == tree_status_of(f.store, stack, new_target, f.last_head)
}

/// The stack status can be computed: its commits are in the store, and the
/// store has room for the trial commits.
pub open spec fn status_computable(s: Seq<CommitModel>, stack: Stack, new_target: usize) -> bool {
    &&& store_wf(s)
    &&& stack.in_store(s.len())
    &&& new_target < s.len()
    &&& s.len() + commit_count(stack.branches@) < usize::MAX
}

proof fn lemma_status_fold_wf(
    s: Seq<CommitModel>,
    new_target: usize,
    bs: Seq<Branch>,
    integrated: Seq<bool>,
)
    requires
        store_wf(s),
        new_target < s.len(),
        forall|i: int| 0 <= i < bs.len() ==> branch_in(#[trigger] bs[i], s.len()),
        s.len() + commit_count(bs) < usize::MAX,
    ensures
        ({
            let f = status_fold(s, new_target, bs, integrated);
            &&& store_wf(f.store)
            &&& extends(f.store, s)
            &&& f.last_head < f.store.len()
            &&& f.store.len() <= s.len() + commit_count(bs)
        }),
    decreases bs.len(),
{
    if bs.len() == 0 {
        assert(s.subrange(0, s.len() as int) =~= s);
    } else {
        let prev = bs.drop_last();
        assert forall|i: int| 0 <= i < prev.len() implies branch_in(#[trigger] prev[i], s.len()) by {
            assert(prev[i] == bs[i]);
        }
        lemma_status_fold_wf(s, new_target, prev, integrated);
        let f = status_fold(s, new_target, prev, integrated);
        let b = bs.last();
        assert(branch_in(bs[bs.len() - 1], s.len()));
        if !b.archived && !(!f.found && branch_integrated(b, integrated)) && b.commits@.len() > 0 {
            let steps = picks(b.commits@);
            assert(rebase_ok(f.store, f.last_head, steps)) by {
                assert forall|i: int| 0 <= i < steps.len() implies (#[trigger] steps[i] matches RebaseStep::Pick { commit_id, .. }
                    ==> commit_id < f.store.len()) by {
                    assert(b.commits@[i] < s.len());
                }
            }
            lemma_fold_wf(f.store, f.last_head, steps, true);
            let st = rebase_fold(f.store, f.last_head, steps, true);
            assert(st.store.subrange(0, s.len() as int) =~= st.store.subrange(
                0,
                f.store.len() as int,
            ).subrange(0, s.len() as int));
        }
    }
}

impl StackStatus {
    /// The status of `stack` against the new target: each branch is rebased
    /// in trial on a copy of the store, which is left untouched. `integrated`
    /// answers, for each commit id, whether that commit is already part of
    /// the new target. Fails when the stack has no branch left to report.
    #[verifier::spinoff_prover]
    pub fn of_stack(
        store: &ObjectStore,
        stack: &Stack,
        new_target: usize,
        integrated: &Vec<bool>,
    ) -> (r: Result<StackStatus, StatusError>)
        requires
            status_computable(store@, *stack, new_target),
        ensures
            r is Err <==> status_fold(store@, new_target, stack.branches@, integrated@).statuses.len()
                == 0,
            r matches Ok(st) ==> is_stack_status(st, store@, *stack, new_target, integrated@),
    {
        let ghost s0 = store@;
        let ghost bs = stack.branches@;
        let mut scratch = store.snapshot();
        let mut last_head = new_target;
        let mut found = false;
        let mut statuses: Vec<NameAndStatus> = Vec::new();
        let mut i: usize = 0;
        assert(bs.take(0) =~= Seq::<Branch>::empty());
        assert(s0.subrange(0, s0.len() as int) =~= s0);
        while i < stack.branches.len()
            invariant
                s0 == store@,
                bs == stack.branches@,
                status_computable(s0, *stack, new_target),
                i <= bs.len(),
                ({
                    let f = status_fold(s0, new_target, bs.take(i as int), integrated@);
                    &&& scratch@ == f.store
                    &&& last_head == f.last_head
                    &&& found == f.found
                    &&& name_status_views(statuses@) == f.statuses
                }),
                scratch.wf(),
                extends(scratch@, s0),
                last_head < scratch@.len(),
                scratch@.len() <= s0.len() + commit_count(bs.take(i as int)),
            decreases bs.len() - i,
        {
            let ghost prev = bs.take(i as int);
            let ghost cur = bs.take(i + 1);
            assert(cur.drop_last() =~= prev);
            assert(cur.last() == bs[i as int]);
            proof {
                assert forall|j: int| 0 <= j < cur.len() implies branch_in(#[trigger] cur[j], s0.len()) by {
                    assert(cur[j] == bs[j]);
                }
                lemma_commit_count_prefix(bs, i + 1);
                lemma_status_fold_wf(s0, new_target, cur, integrated@);
                lemma_status_fold_wf(s0, new_target, prev, integrated@);
            }
            let b = &stack.branches[i];
            assert(branch_in(bs[i as int], s0.len()));
            let ghost before = statuses@;
            if b.archived {
            } else if !found && b.commits.len() > 0 && b.commits[b.commits.len() - 1]
                < integrated.len() && integrated[b.commits[b.commits.len() - 1]] {
                statuses.push(NameAndStatus { name: b.name.clone(), status: BranchStatus::Integrated });
                assert(name_status_views(statuses@) =~= name_status_views(before).push(
                    (b.name@, BranchStatus::Integrated),
                ));
            } else {
                found = true;
                if b.commits.len() == 0 {
                    statuses.push(NameAndStatus { name: b.name.clone(), status: BranchStatus::Empty });
                    assert(name_status_views(statuses@) =~= name_status_views(before).push(
                        (b.name@, BranchStatus::Empty),
                    ));
                } else {
                    let steps = pick_steps(&b.commits);
                    let ghost f = status_fold(s0, new_target, prev, integrated@);
                    proof {
                        assert(rebase_ok(f.store, f.last_head, steps@)) by {
                            assert forall|j: int| 0 <= j < steps@.len() implies (#[trigger] steps@[j] matches RebaseStep::Pick { commit_id, .. }
                                ==> commit_id < f.store.len()) by {
                                assert(b.commits@[j] < s0.len());
                            }
                        }
                        lemma_fold_wf(f.store, f.last_head, steps@, true);
                    }
                    let ghost st = rebase_fold(f.store, f.last_head, steps@, true);
                    let first_new = scratch.len();
                    let out = match rebase(&mut scratch, last_head, &steps, true) {
                        Ok(out) => out,
                        Err(_) => {
                            assert(false);
                            return Err(StatusError::NoBranches);
                        },
                    };
                    let mut conflicted = false;
                    let mut k: usize = first_new;
                    while k < scratch.len()
                        invariant
                            scratch@ == st.store,
                            scratch.wf(),
                            first_new == f.store.len(),
                            first_new <= k <= st.store.len(),
                            conflicted == exists|j: int|
                                first_new <= j < k && (#[trigger] st.store[j]).markers is Some,
                        decreases st.store.len() - k,
                    {
                        if scratch.is_conflicted(k) {
                            conflicted = true;
                        }
                        k = k + 1;
                    }
                    last_head = out.top_commit;
                    let status = if conflicted {
                        BranchStatus::Conflicted { rebasable: false }
                    } else {
                        BranchStatus::SafelyUpdatable
                    };
                    statuses.push(NameAndStatus { name: b.name.clone(), status });
                    assert(name_status_views(statuses@) =~= name_status_views(before).push(
                        (b.name@, status),
                    ));
                }
            }
            i = i + 1;
        }
        assert(bs.take(bs.len() as int) =~= bs);
        let tree_status = if stack.tree.same_as(scratch.tree_of(stack.head)) {
            TreeStatus::Empty
        } else if merge_trees(scratch.tree_of(new_target), &stack.tree, scratch.tree_of(last_head)).conflicted {
            TreeStatus::Conflicted
        } else {
            TreeStatus::SafelyUpdatable
        };
        proof {
            let f = status_fold(s0, new_target, bs, integrated@);
            assert(f.store[stack.head as int] == f.store.subrange(0, s0.len() as int)[stack.head as int]);
            assert(f.store[new_target as int] == f.store.subrange(0, s0.len() as int)[new_target as int]);
        }
        StackStatus::create(tree_status, statuses)
    }
}

pub(crate) proof fn lemma_commit_count_prefix(bs: Seq<Branch>, i: int)
    requires
        0 < i <= bs.len(),
    ensures
        commit_count(bs.take(i)) == commit_count(bs.take(i - 1)) + bs[i - 1].commits@.len(),
        commit_count(bs.take(i)) <= commit_count(bs),
    decreases bs.len() - i,
{
    assert(bs.take(i).drop_last() =~= bs.take(i - 1));
    if i < bs.len() {
        lemma_commit_count_prefix(bs, i + 1);
    } else {
        assert(bs.take(i) =~= bs);
    }
}

/// Whether the applied stacks need to move to a new target, and how each
/// one stands if so.
#[derive(Debug)]
pub enum StackStatuses {
    UpToDate,
    UpdatesRequired(Vec<(StackId, StackStatus)>),
}

/// `v` holds, for each applied stack in order, its id and its status.
pub open spec fn are_statuses_of(
    v: Seq<(StackId, StackStatus)>,
    s: Seq<CommitModel>,
    stacks: Seq<Stack>,
    new_target: usize,
    integrated: Seq<bool>,
) -> bool {
    let ws = workspace_stacks(stacks);
    &&& v.len() == ws.len()
    &&& forall|k: int|
        0 <= k < v.len() ==> (#[trigger] v[k]).0 == ws[k].id && is_stack_status(
            v[k].1,
            s,
            ws[k],
            new_target,
            integrated,
        )
}

/// Some applied stack has no branch left to report.
pub open spec fn some_status_fails(
    s: Seq<CommitModel>,
    stacks: Seq<Stack>,
    new_target: usize,
    integrated: Seq<bool>,
) -> bool {
    exists|k: int|
        0 <= k < workspace_stacks(stacks).len() && status_fold(
            s,
            new_target,
            (#[trigger] workspace_stacks(stacks)[k]).branches@,
            integrated,
        ).statuses.len() == 0
}

proof fn lemma_workspace_stacks_step(stacks: Seq<Stack>, i: int)
    requires
        0 <= i < stacks.len(),
    ensures
        workspace_stacks(stacks.take(i + 1)) == if stacks[i].in_workspace {
            workspace_stacks(stacks.take(i)).push(stacks[i])
        } else {
            workspace_stacks(stacks.take(i))
        },
{
    assert(stacks.take(i + 1).drop_last() =~= stacks.take(i));
    assert(stacks.take(i + 1).last() == stacks[i]);
}

proof fn lemma_workspace_stacks_from(stacks: Seq<Stack>, k: int) -> (i: int)
    requires
        0 <= k < workspace_stacks(stacks).len(),
    ensures
        0 <= i < stacks.len(),
        workspace_stacks(stacks)[k] == stacks[i],
    decreases stacks.len(),
{
    let prev = stacks.drop_last();
    if stacks.last().in_workspace && k == workspace_stacks(prev).len() {
        (stacks.len() - 1) as int
    } else {
        let j = lemma_workspace_stacks_from(prev, k);
        j
    }
}

/// The status of each applied stack against `new_target`, or `UpToDate`
/// when the target has not moved. The store is left untouched.
pub fn upstream_integration_statuses(
    ws: &Workspace,
    new_target: usize,
    integrated: &Vec<bool>,
) -> (r: Result<StackStatuses, StatusError>)
    requires
        ws.wf(),
        new_target < ws.store@.len(),
    ensures
        crate::integration::is_up_to_date(ws.target.sha, new_target) ==> (r matches Ok(StackStatuses::UpToDate)),
        new_target != ws.target.sha ==> {
            &&& (r is Err <==> some_status_fails(ws.store@, ws.stacks@, new_target, integrated@))
            &&& (r is Ok ==> (r matches Ok(StackStatuses::UpdatesRequired(v)) && are_statuses_of(
                v@,
                ws.store@,
                ws.stacks@,
                new_target,
                integrated@,
            )))
        },
{
    if new_target == ws.target.sha {
        return Ok(StackStatuses::UpToDate);
    }
    let ghost stacks = ws.stacks@;
    let mut v: Vec<(StackId, StackStatus)> = Vec::new();
    let mut i: usize = 0;
    assert(stacks.take(0) =~= Seq::<Stack>::empty());
    while i < ws.stacks.len()
        invariant
            ws.wf(),
            stacks == ws.stacks@,
            new_target < ws.store@.len(),
            new_target != ws.target.sha,
            i <= stacks.len(),
            are_statuses_of(v@, ws.store@, stacks.take(i as int), new_target, integrated@),
            !some_status_fails(ws.store@, stacks.take(i as int), new_target, integrated@),
        decreases stacks.len() - i,
    {
        proof {
            lemma_workspace_stacks_step(stacks, i as int);
        }
        let stack = &ws.stacks[i];
        let ghost prev = workspace_stacks(stacks.take(i as int));
        let ghost cur = workspace_stacks(stacks.take(i + 1));
        if stack.in_workspace {
            assert(stacks[i as int].in_store(ws.store@.len()));
            match StackStatus::of_stack(&ws.store, stack, new_target, integrated) {
                Ok(st) => {
                    let ghost before = v@;
                    v.push((stack.id, st));
                    proof {
                        assert forall|k: int| 0 <= k < v@.len() implies (#[trigger] v@[k]).0 == cur[k].id
                            && is_stack_status(v@[k].1, ws.store@, cur[k], new_target, integrated@) by {
                            if k < before.len() {
                                assert(v@[k] == before[k]);
                                assert(cur[k] == prev[k]);
                            }
                        }
                        assert forall|k: int| 0 <= k < cur.len() implies status_fold(
                            ws.store@,
                            new_target,
                            (#[trigger] cur[k]).branches@,
                            integrated@,
                        ).statuses.len() != 0 by {
                            if k < prev.len() {
                                assert(cur[k] == prev[k]);
                                if status_fold(ws.store@, new_target, prev[k].branches@, integrated@).statuses.len() == 0 {
                                    assert(some_status_fails(ws.store@, stacks.take(i as int), new_target, integrated@));
                                }
                            } else {
                                assert(cur[k] == stacks[i as int]);
                            }
                        }
                    }
                },
                Err(e) => {
                    proof {
                        let k = prev.len() as int;
                        assert(cur[k] == stacks[i as int]);
                        assert(stacks.take(i + 1) =~= stacks.take(i + 1));
                        lemma_some_fails_extends(stacks, i + 1, k, ws.store@, new_target, integrated@);
                    }
                    return Err(e);
                },
            }
        } else {
            proof {
                if some_status_fails(ws.store@, stacks.take(i + 1), new_target, integrated@) {
                    let k = choose|k: int| 0 <= k < cur.len() && status_fold(
                        ws.store@,
                        new_target,
                        (#[trigger] cur[k]).branches@,
                        integrated@,
                    ).statuses.len() == 0;
                    assert(cur[k] == prev[k]);
                }
            }
        }
        i = i + 1;
    }
    assert(stacks.take(stacks.len() as int) =~= stacks);
    Ok(StackStatuses::UpdatesRequired(v))
}

/// A stack whose status fails among the first `i` stacks fails among all.
proof fn lemma_some_fails_extends(
    stacks: Seq<Stack>,
    i: int,
    k: int,
    s: Seq<CommitModel>,
    new_target: usize,
    integrated: Seq<bool>,
)
    requires
        0 <= i <= stacks.len(),
        0 <= k < workspace_stacks(stacks.take(i)).len(),
        status_fold(s, new_target, workspace_stacks(stacks.take(i))[k].branches@, integrated).statuses.len() == 0,
    ensures
        some_status_fails(s, stacks, new_target, integrated),
    decreases stacks.len() - i,
{
    if i == stacks.len() {
        assert(stacks.take(i) =~= stacks);
    } else {
        lemma_workspace_stacks_step(stacks, i);
        lemma_some_fails_extends(stacks, i + 1, k, s, new_target, integrated);
    }
}

} // verus!
