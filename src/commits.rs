use vstd::prelude::*;

use crate::graph::{first_parent_log, is_ancestor, is_merge_base, is_path, lemma_log_bounds};
use crate::rebase::{
    is_chain, pick_steps, picked_commit, picks, rebase, rebase_fold, rebase_ok, rebase_onto_own_base_keeps_trees,
    rebase_propagates_conflicts,
};
use crate::store::store_wf;
use crate::tree::same_tree;
use crate::stack::Stack;
use crate::store::{Commit, CommitModel, ObjectStore};
use crate::tree::{conflict_markers, has_conflict, merge_trees, merged, Tree};

verus! {

/// The best common ancestor of `x` and `y`, if there is one.
pub open spec fn merge_base_of(s: Seq<CommitModel>, x: usize, y: usize) -> Option<usize> {
    if exists|m: usize| is_merge_base(s, x, y, m) {
        Some(choose|m: usize| is_merge_base(s, x, y, m))
    } else {
        None
    }
}

/// The tree that merges of `x` and `y` are made against.
pub open spec fn merge_base_tree(s: Seq<CommitModel>, x: usize, y: usize) -> Seq<Option<u64>> {
    match merge_base_of(s, x, y) {
        Some(m) => s[m as int].tree,
        None => Seq::empty(),
    }
}

/// The merge commit of `ours` and `theirs`: both trees merged against their
/// merge base, conflicted when they clash.
pub open spec fn merge_commit_model(
    s: Seq<CommitModel>,
    ours: usize,
    theirs: usize,
    message: Seq<char>,
) -> CommitModel {
    let b = merge_base_tree(s, ours, theirs);
    let o = s[ours as int].tree;
    let t = s[theirs as int].tree;
    CommitModel {
        parents: seq![ours, theirs],
        tree: merged(b, o, t),
        markers: if has_conflict(b, o, t) {
            Some(conflict_markers(b, o, t))
        } else {
            None
        },
        change_id: None,
        message,
    }
}

proof fn lemma_merge_base_unique(s: Seq<CommitModel>, x: usize, y: usize, m: usize, n: usize)
    requires
        is_merge_base(s, x, y, m),
        is_merge_base(s, x, y, n),
    ensures
        m == n,
{
    if m < n {
        let p = choose|p: Seq<usize>| is_path(s, p) && p[0] == x && #[trigger] p.last() == n;
        assert(p[p.len() - 1] < s.len());
        assert(!(is_ancestor(s, n, x) && is_ancestor(s, n, y)));
    } else if n < m {
        let p = choose|p: Seq<usize>| is_path(s, p) && p[0] == x && #[trigger] p.last() == m;
        assert(p[p.len() - 1] < s.len());
        assert(!(is_ancestor(s, m, x) && is_ancestor(s, m, y)));
    }
}

impl ObjectStore {
    /// The best common ancestor of `x` and `y`, if there is one.
    pub fn find_merge_base(&self, x: usize, y: usize) -> (r: Option<usize>)
        requires
            self.wf(),
            x < self@.len(),
            y < self@.len(),
        ensures
            r == merge_base_of(self@, x, y),
            r matches Some(m) ==> m < self@.len(),
    {
        let r = self.merge_base(x, y);
        proof {
            if let Some(m) = r {
                let p = choose|p: Seq<usize>| is_path(self@, p) && p[0] == x && #[trigger] p.last() == m;
                assert(p[p.len() - 1] < self@.len());
            }
        }
        proof {
            match r {
                Some(m) => {
                    let c = choose|c: usize| is_merge_base(self@, x, y, c);
                    lemma_merge_base_unique(self@, x, y, m, c);
                },
                None => {
                    if exists|m: usize| is_merge_base(self@, x, y, m) {
                        let c = choose|c: usize| is_merge_base(self@, x, y, c);
                        assert(is_ancestor(self@, c, x) && is_ancestor(self@, c, y));
                    }
                },
            }
        }
        r
    }

    /// Writes the merge commit of `ours` and `theirs` and returns its id.
    pub fn merge_commits(&mut self, ours: usize, theirs: usize, message: String) -> (r: usize)
        requires
            old(self).wf(),
            ours < old(self)@.len(),
            theirs < old(self)@.len(),
        ensures
            final(self).wf(),
            r == old(self)@.len(),
            final(self)@ == old(self)@.push(merge_commit_model(old(self)@, ours, theirs, message@)),
    {
        let base = match self.find_merge_base(ours, theirs) {
            Some(m) => self.tree_of(m).copy(),
            None => Tree::new(),
        };
        let m = merge_trees(&base, self.tree_of(ours), self.tree_of(theirs));
        let conflict = if m.conflicted {
            Some(m.markers)
        } else {
            None
        };
        let commit = Commit {
            parents: vec![ours, theirs],
            tree: m.tree,
            conflict,
            change_id: None,
            message,
        };
        assert(commit@.parents =~= seq![ours, theirs]);
        let id = self.commits.len();
        self.push_commit(commit);
        id
    }
}

/// Where a stack stands after its branches moved: its head and the tree of
/// its uncommitted changes.
#[derive(Debug)]
pub struct BranchHeadAndTree {
    /// The stack's new head.
    pub head: usize,
    /// The stack's new tree.
    pub tree: Tree,
}

/// The commit that records a stack's uncommitted tree on its old head.
pub open spec fn uncommitted_commit(old_head: usize, old_tree: Seq<Option<u64>>) -> CommitModel {
    CommitModel {
        parents: seq![old_head],
        tree: old_tree,
        markers: None,
        change_id: None,
        message: uncommitted_message(),
    }
}

pub open spec fn uncommitted_message() -> Seq<char> {
    "Uncommitted changes"@
}

/// Carries a stack's uncommitted tree from `old_head` onto `new_head`. The
/// tree is committed on the old head and that commit is picked onto the new
/// one. When the pick conflicts, the conflicted commit becomes the head and
/// its auto-resolved tree the tree; otherwise the head is `new_head` and the
/// tree the picked one.
pub fn compute_updated_branch_head_for_commits(
    store: &mut ObjectStore,
    old_head: usize,
    old_tree: &Tree,
    new_head: usize,
) -> (r: BranchHeadAndTree)
    requires
        old(store).wf(),
        old_head < old(store)@.len(),
        new_head < old(store)@.len(),
        old(store)@.len() + 2 < usize::MAX,
    ensures
        final(store).wf(),
        ({
            let s = old(store)@;
            let s1 = s.push(uncommitted_commit(old_head, old_tree@));
            let picked = picked_commit(s1, new_head, s.len() as usize, None);
            &&& final(store)@ == s1.push(picked)
            &&& picked.tree == merged(s[old_head as int].tree, s[new_head as int].tree, old_tree@)
            &&& (picked.markers is Some <==> has_conflict(
                s[old_head as int].tree,
                s[new_head as int].tree,
                old_tree@,
            ))
            &&& r.tree@ == picked.tree
            &&& r.head == if picked.markers is Some {
                (s.len() + 1) as usize
            } else {
                new_head
            }
        }),
{
    let ghost s = store@;
    let message = String::from_str("Uncommitted changes");
    proof {
        reveal_strlit("Uncommitted changes");
    }
    let wip = Commit {
        parents: vec![old_head],
        tree: old_tree.copy(),
        conflict: None,
        change_id: None,
        message,
    };
    assert(wip@.parents =~= seq![old_head]);
    assert(wip@ == uncommitted_commit(old_head, old_tree@));
    let wip_id = store.commits.len();
    store.push_commit(wip);
    let ghost s1 = store@;
    assert(s1[wip_id as int].parents[0] == old_head);
    assert(s1[old_head as int] == s[old_head as int]);
    assert(s1[new_head as int] == s[new_head as int]);
    let base = store.parent_tree(wip_id);
    let m = merge_trees(&base, store.tree_of(new_head), store.tree_of(wip_id));
    let conflicted = m.conflicted;
    let conflict = if m.conflicted {
        Some(m.markers)
    } else {
        None
    };
    let tree = m.tree.copy();
    let picked = Commit {
        parents: vec![new_head],
        tree: m.tree,
        conflict,
        change_id: None,
        message: String::from_str("Uncommitted changes"),
    };
    assert(picked@.parents =~= seq![new_head]);
    assert(picked@ == picked_commit(s1, new_head, wip_id, None));
    let picked_id = store.commits.len();
    store.push_commit(picked);
    if conflicted {
        BranchHeadAndTree { head: picked_id, tree }
    } else {
        BranchHeadAndTree { head: new_head, tree }
    }
}

/// `compute_updated_branch_head_for_commits` from a stack's head and tree.
pub fn compute_updated_branch_head(store: &mut ObjectStore, stack: &Stack, new_head: usize) -> (r:
    BranchHeadAndTree)
    requires
        old(store).wf(),
        stack.head < old(store)@.len(),
        new_head < old(store)@.len(),
        old(store)@.len() + 2 < usize::MAX,
    ensures
        final(store).wf(),
        ({
            let s = old(store)@;
            let s1 = s.push(uncommitted_commit(stack.head, stack.tree@));
            let picked = picked_commit(s1, new_head, s.len() as usize, None);
            &&& final(store)@ == s1.push(picked)
            &&& picked.tree == merged(s[stack.head as int].tree, s[new_head as int].tree, stack.tree@)
            &&& r.tree@ == picked.tree
            &&& r.head == if picked.markers is Some {
                (s.len() + 1) as usize
            } else {
                new_head
            }
        }),
{
    compute_updated_branch_head_for_commits(store, stack.head, &stack.tree, new_head)
}

/// Why a cherry-pick rebase failed.
#[derive(Clone, Copy, Debug, PartialEq, Eq, Structural)]
pub enum CherryRebaseError {
    /// The target or a commit to rebase is not in the store.
    MissingCommit,
}

/// Rebases `ids_to_rebase`, given newest first, onto `target_commit_oid`,
/// keeping empty commits, as the rebase engine does: a pick that clashes is
/// committed flagged conflicted and later picks build on it. Fails only when
/// the target or a commit to rebase is not in the store. Returns the new top.
pub fn cherry_rebase_group(
    store: &mut ObjectStore,
    target_commit_oid: usize,
    ids_to_rebase: &mut Vec<usize>,
) -> (r: Result<usize, CherryRebaseError>)
    requires
        old(store).wf(),
        old(store)@.len() + old(ids_to_rebase)@.len() < usize::MAX,
    ensures
        final(store).wf(),
        final(ids_to_rebase)@ == old(ids_to_rebase)@.reverse(),
        ({
            let s = old(store)@;
            let steps = picks(old(ids_to_rebase)@.reverse());
            let st = rebase_fold(s, target_commit_oid, steps, false);
            &&& !rebase_ok(s, target_commit_oid, steps) ==> r == Err::<usize, CherryRebaseError>(
                CherryRebaseError::MissingCommit,
            ) && final(store)@ == s
            &&& rebase_ok(s, target_commit_oid, steps) ==> final(store)@ == st.store && r == Ok::<
                usize,
                CherryRebaseError,
            >(st.head)
        }),
{
    let ghost s = store@;
    let mut reversed: Vec<usize> = Vec::new();
    let mut k: usize = ids_to_rebase.len();
    while k > 0
        invariant
            k <= ids_to_rebase@.len(),
            ids_to_rebase@ == old(ids_to_rebase)@,
            reversed@.len() == ids_to_rebase@.len() - k,
            forall|m: int|
                0 <= m < reversed@.len() ==> #[trigger] reversed@[m] == ids_to_rebase@[ids_to_rebase@.len() - 1 - m],
        decreases k,
    {
        k = k - 1;
        reversed.push(ids_to_rebase[k]);
    }
    assert(reversed@ =~= old(ids_to_rebase)@.reverse());
    let steps = pick_steps(&reversed);
    *ids_to_rebase = reversed;
    let out = match rebase(store, target_commit_oid, &steps, false) {
        Ok(out) => out,
        Err(_) => {
            return Err(CherryRebaseError::MissingCommit);
        },
    };
    Ok(out.top_commit)
}

/// Rebases the first-parent commits from `end_commit_oid` down to
/// `start_commit_oid` onto `target_commit_oid`, as `cherry_rebase_group`
/// does. Returns `None` when there is nothing to rebase.
pub fn cherry_rebase(
    store: &mut ObjectStore,
    target_commit_oid: usize,
    start_commit_oid: usize,
    end_commit_oid: usize,
) -> (r: Result<Option<usize>, CherryRebaseError>)
    requires
        old(store).wf(),
        old(store)@.len() < usize::MAX / 2,
    ensures
        final(store).wf(),
        ({
            let s = old(store)@;
            let log = first_parent_log(s, end_commit_oid, start_commit_oid);
            let steps = picks(log.reverse());
            let st = rebase_fold(s, target_commit_oid, steps, false);
            &&& log.len() == 0 ==> r == Ok::<Option<usize>, CherryRebaseError>(None) && final(store)@ == s
            &&& log.len() > 0 && !rebase_ok(s, target_commit_oid, steps) ==> r == Err::<
                Option<usize>,
                CherryRebaseError,
            >(CherryRebaseError::MissingCommit)
            &&& log.len() > 0 && rebase_ok(s, target_commit_oid, steps) ==> final(store)@ == st.store && r
                == Ok::<Option<usize>, CherryRebaseError>(Some(st.head))
        }),
{
    let mut ids = store.first_parent_log(end_commit_oid, start_commit_oid);
    proof {
        lemma_log_bounds(store@, end_commit_oid, start_commit_oid);
    }
    if ids.len() == 0 {
        return Ok(None);
    }
    match cherry_rebase_group(store, target_commit_oid, &mut ids) {
        Ok(h) => Ok(Some(h)),
        Err(e) => Err(e),
    }
}

/// A line of history given newest first, as `cherry_rebase_group` takes it,
/// and cherry-picked onto the commit it already sits on writes one clean
/// commit per commit, each with the tree of the commit it replays.
pub proof fn cherry_rebase_onto_own_base_keeps_trees(s: Seq<CommitModel>, target: usize, ids_newest_first: Seq<usize>)
    requires
        store_wf(s),
        target < s.len(),
        is_chain(s, target, ids_newest_first.reverse()),
        s.len() + ids_newest_first.len() < usize::MAX,
    ensures
        ({
            let ids = ids_newest_first.reverse();
            let st = rebase_fold(s, target, picks(ids), false);
            &&& st.store.len() == s.len() + ids.len()
            &&& st.mapping.len() == ids.len()
            &&& forall|k: int|
                0 <= k < ids.len() ==> {
                    &&& (#[trigger] st.mapping[k]).0 == ids[k]
                    &&& same_tree(st.store[st.mapping[k].1 as int].tree, s[ids[k] as int].tree)
                    &&& st.store[st.mapping[k].1 as int].markers is None
                }
        }),
{
    rebase_onto_own_base_keeps_trees(s, target, ids_newest_first.reverse());
}

/// Cherry-picking a commit `a` and its child `b`, given newest first as
/// `[b, a]`, onto `target` writes two commits whatever clashes: the first
/// conflicted exactly when `a`'s changes clash with `target`, the second
/// exactly when `b`'s changes clash with the first's auto-resolved tree.
pub proof fn cherry_rebase_propagates_conflicts(s: Seq<CommitModel>, target: usize, a: usize, b: usize)
    requires
        store_wf(s),
        target < s.len(),
        a < s.len(),
        b < s.len(),
        s.len() + 2 < usize::MAX,
        s[b as int].parents.len() > 0,
        s[b as int].parents[0] == a,
    ensures
        ({
            let st = rebase_fold(s, target, picks(seq![b, a].reverse()), false);
            let n = s.len() as int;
            &&& st.store.len() == n + 2
            &&& st.head == n + 1
            &&& (st.store[n].markers is Some <==> has_conflict(
                crate::store::parent_tree(s, a as int),
                s[target as int].tree,
                s[a as int].tree,
            ))
            &&& (st.store[n + 1].markers is Some <==> has_conflict(s[a as int].tree, st.store[n].tree, s[b as int].tree))
            &&& st.store[n + 1].parents == seq![(n as usize)]
        }),
{
    assert(seq![b, a].reverse() =~= seq![a, b]);
    rebase_propagates_conflicts(s, target, a, b);
}

} // verus!
