use vstd::prelude::*;

use crate::rebase::{lemma_fold_wf, pick_steps, picks, rebase, rebase_fold, rebase_ok, RebaseStep};
use crate::stack::{branch_in, branch_views, commit_count, Branch};
use crate::store::{extends, store_wf, CommitModel, ObjectStore};
use crate::upstream::is_integrated;

verus! {

/// The commits of `cs` that are not yet part of the target, in order.
pub open spec fn unintegrated(cs: Seq<usize>, integrated: Seq<bool>) -> Seq<usize>
    decreases cs.len(),
{
    if cs.len() == 0 {
        seq![]
    } else if is_integrated(integrated, cs.last()) {
        unintegrated(cs.drop_last(), integrated)
    } else {
        unintegrated(cs.drop_last(), integrated).push(cs.last())
    }
}

/// The ids from `a` up to `b`, `b` not included.
pub open spec fn new_ids(a: nat, b: nat) -> Seq<usize> {
    Seq::new((b - a) as nat, |i: int| (a + i) as usize)
}

/// The walk that rebases a stack's branches one after another.
pub ghost struct BranchFold {
    pub store: Seq<CommitModel>,
    pub head: usize,
    pub branches: Seq<(Seq<char>, bool, Seq<usize>)>,
    pub archived: Seq<Seq<char>>,
}

/// Each branch's commits that are not yet part of the target are rebased
/// onto where the branch below ended, the lowest onto `onto`; the branch
/// then holds the commits that its rebase wrote. A branch whose commits were
/// all integrated is archived.
pub open spec fn rebase_branches(
    s: Seq<CommitModel>,
    onto: usize,
    bs: Seq<Branch>,
    integrated: Seq<bool>,
    skip_noops: bool,
) -> BranchFold
    decreases bs.len(),
{
    if bs.len() == 0 {
        BranchFold { store: s, head: onto, branches: seq![], archived: seq![] }
    } else {
        let f = rebase_branches(s, onto, bs.drop_last(), integrated, skip_noops);
        let b = bs.last();
        let cs = unintegrated(b.commits@, integrated);
        let st = rebase_fold(f.store, f.head, picks(cs), skip_noops);
        let emptied = b.commits@.len() > 0 && cs.len() == 0;
        BranchFold {
            store: st.store,
            head: st.head,
            branches: f.branches.push(
                (b.name@, b.archived || emptied, new_ids(f.store.len(), st.store.len())),
            ),
            archived: if emptied {
                f.archived.push(b.name@)
            } else {
                f.archived
            },
        }
    }
}

proof fn lemma_unintegrated_len(cs: Seq<usize>, integrated: Seq<bool>)
    ensures
        unintegrated(cs, integrated).len() <= cs.len(),
        forall|k: int|
            0 <= k < unintegrated(cs, integrated).len() ==> exists|j: int|
                0 <= j < cs.len() && cs[j] == #[trigger] unintegrated(cs, integrated)[k],
    decreases cs.len(),
{
    if cs.len() > 0 {
        let prev = cs.drop_last();
        lemma_unintegrated_len(prev, integrated);
        let u = unintegrated(cs, integrated);
        let up = unintegrated(prev, integrated);
        assert forall|k: int| 0 <= k < u.len() implies exists|j: int| 0 <= j < cs.len() && cs[j] == #[trigger] u[k] by {
            if k < up.len() {
                assert(u[k] == up[k]);
                let j = choose|j: int| 0 <= j < prev.len() && prev[j] == #[trigger] up[k];
                assert(cs[j] == prev[j]);
            } else {
                assert(cs[cs.len() - 1] == u[k]);
            }
        }
    }
}

/// The commits of `cs` that are not yet part of the target.
fn unintegrated_commits(cs: &Vec<usize>, integrated: &Vec<bool>) -> (r: Vec<usize>)
    ensures
        r@ == unintegrated(cs@, integrated@),
{
    let mut r: Vec<usize> = Vec::new();
    let mut i: usize = 0;
    assert(cs@.take(0) =~= Seq::<usize>::empty());
    while i < cs.len()
        invariant
            i <= cs@.len(),
            r@ == unintegrated(cs@.take(i as int), integrated@),
        decreases cs@.len() - i,
    {
        assert(cs@.take(i + 1).drop_last() =~= cs@.take(i as int));
        assert(cs@.take(i + 1).last() == cs@[i as int]);
        let c = cs[i];
        if !(c < integrated.len() && integrated[c]) {
            r.push(c);
        }
        i = i + 1;
    }
    assert(cs@.take(cs@.len() as int) =~= cs@);
    r
}

pub(crate) proof fn lemma_rebase_branches_wf(
    s: Seq<CommitModel>,
    onto: usize,
    bs: Seq<Branch>,
    integrated: Seq<bool>,
    skip_noops: bool,
)
    requires
        store_wf(s),
        onto < s.len(),
        forall|i: int| 0 <= i < bs.len() ==> branch_in(#[trigger] bs[i], s.len()),
        s.len() + commit_count(bs) < usize::MAX,
    ensures
        ({
            let f = rebase_branches(s, onto, bs, integrated, skip_noops);
            &&& store_wf(f.store)
            &&& extends(f.store, s)
            &&& f.head < f.store.len()
            &&& f.store.len() <= s.len() + commit_count(bs)
            &&& f.branches.len() == bs.len()
            &&& forall|i: int, j: int|
                0 <= i < f.branches.len() && 0 <= j < f.branches[i].2.len() ==> #[trigger] f.branches[i].2[j]
                    < f.store.len()
        }),
    decreases bs.len(),
{
    if bs.len() == 0 {
        assert(s.subrange(0, s.len() as int) =~= s);
    } else {
        let prev = bs.drop_last();
        assert forall|i: int| 0 <= i < prev.len() implies branch_in(#[trigger] prev[i], s.len()) by {
            assert(prev[i] == bs[i]);
        }
        lemma_rebase_branches_wf(s, onto, prev, integrated, skip_noops);
        let f = rebase_branches(s, onto, prev, integrated, skip_noops);
        let b = bs.last();
        assert(branch_in(bs[bs.len() - 1], s.len()));
        let cs = unintegrated(b.commits@, integrated);
        lemma_unintegrated_len(b.commits@, integrated);
        let steps = picks(cs);
        assert(rebase_ok(f.store, f.head, steps)) by {
            assert forall|i: int| 0 <= i < steps.len() implies (#[trigger] steps[i] matches RebaseStep::Pick { commit_id, .. }
                ==> commit_id < f.store.len()) by {
                let j = choose|j: int| 0 <= j < b.commits@.len() && b.commits@[j] == #[trigger] cs[i];
                assert(b.commits@[j] < s.len());
            }
        }
        lemma_fold_wf(f.store, f.head, steps, skip_noops);
        let st = rebase_fold(f.store, f.head, steps, skip_noops);
        assert(st.store.subrange(0, s.len() as int) =~= st.store.subrange(0, f.store.len() as int).subrange(
            0,
            s.len() as int,
        ));
        let g = rebase_branches(s, onto, bs, integrated, skip_noops);
        assert forall|i: int, j: int|
            0 <= i < g.branches.len() && 0 <= j < g.branches[i].2.len() implies #[trigger] g.branches[i].2[j]
                < g.store.len() by {
            if i < f.branches.len() {
                assert(g.branches[i] == f.branches[i]);
            }
        }
    }
}

/// Rebases each branch's commits that are not yet part of the target onto
/// where the branch below ended, the lowest onto `onto`, skipping picks
/// that change nothing when `skip_noops` is set. Returns the new top, the
/// branches with their new commits, and the names of the branches that were
/// archived because none of their commits was left.
pub fn rebase_stack_branches(
    store: &mut ObjectStore,
    onto: usize,
    branches: &Vec<Branch>,
    integrated: &Vec<bool>,
    skip_noops: bool,
) -> (r: (usize, Vec<Branch>, Vec<String>))
    requires
        old(store).wf(),
        onto < old(store)@.len(),
        forall|i: int| 0 <= i < branches@.len() ==> branch_in(#[trigger] branches@[i], old(store)@.len()),
        old(store)@.len() + commit_count(branches@) < usize::MAX,
    ensures
        final(store).wf(),
        ({
            let f = rebase_branches(old(store)@, onto, branches@, integrated@, skip_noops);
            &&& final(store)@ == f.store
            &&& r.0 == f.head
            &&& branch_views(r.1@) == f.branches
            &&& r.2@.map_values(|n: String| n@) == f.archived
        }),
{
    let ghost s0 = store@;
    let ghost bs = branches@;
    let mut head = onto;
    let mut out: Vec<Branch> = Vec::new();
    let mut archived: Vec<String> = Vec::new();
    let mut i: usize = 0;
    assert(bs.take(0) =~= Seq::<Branch>::empty());
    proof {
        lemma_rebase_branches_wf(s0, onto, bs.take(0), integrated@, skip_noops);
    }
    while i < branches.len()
        invariant
            s0 == old(store)@,
            bs == branches@,
            store_wf(s0),
            onto < s0.len(),
            forall|j: int| 0 <= j < bs.len() ==> branch_in(#[trigger] bs[j], s0.len()),
            s0.len() + commit_count(bs) < usize::MAX,
            i <= bs.len(),
            store.wf(),
            ({
                let f = rebase_branches(s0, onto, bs.take(i as int), integrated@, skip_noops);
                &&& store@ == f.store
                &&& head == f.head
                &&& branch_views(out@) == f.branches
                &&& archived@.map_values(|n: String| n@) == f.archived
            }),
            extends(store@, s0),
            head < store@.len(),
            store@.len() <= s0.len() + commit_count(bs.take(i as int)),
        decreases bs.len() - i,
    {
        let ghost prev = bs.take(i as int);
        let ghost cur = bs.take(i + 1);
        assert(cur.drop_last() =~= prev);
        assert(cur.last() == bs[i as int]);
        proof {
            assert forall|j: int| 0 <= j < cur.len() implies branch_in(#[trigger] cur[j], s0.len()) by {
                assert(cur[j] == bs[j]);
            }
            crate::upstream::lemma_commit_count_prefix(bs, i + 1);
            lemma_rebase_branches_wf(s0, onto, cur, integrated@, skip_noops);
        }
        let b = &branches[i];
        assert(branch_in(bs[i as int], s0.len()));
        let cs = unintegrated_commits(&b.commits, integrated);
        proof {
            lemma_unintegrated_len(b.commits@, integrated@);
        }
        let steps = pick_steps(&cs);
        let ghost f = rebase_branches(s0, onto, prev, integrated@, skip_noops);
        proof {
            assert(rebase_ok(f.store, f.head, steps@)) by {
                assert forall|j: int| 0 <= j < steps@.len() implies (#[trigger] steps@[j] matches RebaseStep::Pick { commit_id, .. }
                    ==> commit_id < f.store.len()) by {
                    let m = choose|m: int| 0 <= m < b.commits@.len() && b.commits@[m] == #[trigger] cs@[j];
                    assert(b.commits@[m] < s0.len());
                }
            }
        }
        let ghost st = rebase_fold(f.store, f.head, steps@, skip_noops);
        let first_new = store.len();
        let res = rebase(store, head, &steps, skip_noops);
        let o = match res {
            Ok(o) => o,
            Err(_) => {
                assert(false);
                return (head, out, archived);
            },
        };
        let mut commits: Vec<usize> = Vec::new();
        let mut k: usize = first_new;
        while k < store.len()
            invariant
                first_new <= k <= store@.len(),
                commits@ == new_ids(first_new as nat, k as nat),
            decreases store@.len() - k,
        {
            commits.push(k);
            assert(commits@ =~= new_ids(first_new as nat, (k + 1) as nat));
            k = k + 1;
        }
        let emptied = b.commits.len() > 0 && cs.len() == 0;
        let ghost before_out = out@;
        let ghost before_arch = archived@;
        let upstream = match &b.upstream {
            Some(u) => Some(u.clone()),
            None => None,
        };
        out.push(
            Branch {
                name: b.name.clone(),
                archived: b.archived || emptied,
                commits,
                upstream,
                upstream_head: b.upstream_head,
                pr_number: b.pr_number,
            },
        );
        assert(branch_views(out@) =~= branch_views(before_out).push(
            (out@.last().name@, out@.last().archived, out@.last().commits@),
        ));
        if emptied {
            archived.push(b.name.clone());
            assert(archived@.map_values(|n: String| n@) =~= before_arch.map_values(|n: String| n@).push(
                b.name@,
            ));
        }
        head = o.top_commit;
        i = i + 1;
    }
    assert(bs.take(bs.len() as int) =~= bs);
    (head, out, archived)
}

} // verus!
