use vstd::prelude::*;

use crate::store::{extends, parent_tree, store_wf, Commit, CommitModel, ObjectStore};
use crate::tree::{
    conflict_markers, conflicts_at, entry, has_conflict, merge_len, merge_trees, merged, same_tree,
};

verus! {

/// One step of a rebase.
#[derive(Debug)]
pub enum RebaseStep {
    /// Replays the changes of a commit, with a new message if one is given.
    Pick { commit_id: usize, new_message: Option<String> },
    /// Marks where a branch of the stack ends; makes no commit.
    Reference { name: String },
}

/// Where a reference marker ended up.
#[derive(Debug)]
pub struct ReferenceSpec {
    pub name: String,
    pub commit_id: usize,
}

/// The result of a rebase.
#[derive(Debug)]
pub struct RebaseOutput {
    /// The head after the last step.
    pub top_commit: usize,
    /// For each pick, the picked commit and the commit it became.
    pub commit_mapping: Vec<(usize, usize)>,
    /// For each reference marker, its name and the head where it was reached.
    pub references: Vec<ReferenceSpec>,
}

/// Why a rebase was refused.
#[derive(Clone, Copy, Debug, PartialEq, Eq, Structural)]
pub enum RebaseError {
    /// The commit to rebase onto is not in the store.
    MissingOnto,
    /// A picked commit is not in the store.
    MissingCommit,
}

/// The state of the fold over the steps.
pub ghost struct RebaseState {
    pub store: Seq<CommitModel>,
    pub head: usize,
    pub mapping: Seq<(usize, usize)>,
    pub references: Seq<(Seq<char>, usize)>,
}

pub open spec fn reference_views(v: Seq<ReferenceSpec>) -> Seq<(Seq<char>, usize)> {
    v.map_values(|r: ReferenceSpec| (r.name@, r.commit_id))
}

/// The commit that picking `c` onto `head` writes: `c`'s changes merged onto
/// the head's tree, conflicted when they clash, keeping `c`'s change id and
/// message unless a new message is given.
pub open spec fn picked_commit(
    s: Seq<CommitModel>,
    head: usize,
    c: usize,
    new_message: Option<String>,
) -> CommitModel {
    let base = parent_tree(s, c as int);
    let ours = s[head as int].tree;
    let theirs = s[c as int].tree;
    CommitModel {
        parents: seq![head],
        tree: merged(base, ours, theirs),
        markers: if has_conflict(base, ours, theirs) {
            Some(conflict_markers(base, ours, theirs))
        } else {
            None
        },
        change_id: s[c as int].change_id,
        message: match new_message {
            Some(m) => m@,
            None => s[c as int].message,
        },
    }
}

/// A pick that the no-op rule skips: clean, and leaving the head's tree as
/// it is.
pub open spec fn pick_is_noop(s: Seq<CommitModel>, head: usize, c: usize) -> bool {
    let base = parent_tree(s, c as int);
    let ours = s[head as int].tree;
    let theirs = s[c as int].tree;
    !has_conflict(base, ours, theirs) && same_tree(merged(base, ours, theirs), ours)
}

pub open spec fn apply_step(st: RebaseState, step: RebaseStep, skip_noops: bool) -> RebaseState {
    match step {
        RebaseStep::Pick { commit_id, new_message } => {
            if skip_noops && pick_is_noop(st.store, st.head, commit_id) {
                RebaseState { mapping: st.mapping.push((commit_id, st.head)), ..st }
            } else {
                let id = st.store.len() as usize;
                RebaseState {
                    store: st.store.push(picked_commit(st.store, st.head, commit_id, new_message)),
                    head: id,
                    mapping: st.mapping.push((commit_id, id)),
                    references: st.references,
                }
            }
        },
        RebaseStep::Reference { name } => RebaseState {
            references: st.references.push((name@, st.head)),
            ..st
        },
    }
}

/// The left fold of the steps, with the running head starting at `onto`.
pub open spec fn rebase_fold(
    s: Seq<CommitModel>,
    onto: usize,
    steps: Seq<RebaseStep>,
    skip_noops: bool,
) -> RebaseState
    decreases steps.len(),
{
    if steps.len() == 0 {
        RebaseState { store: s, head: onto, mapping: seq![], references: seq![] }
    } else {
        apply_step(rebase_fold(s, onto, steps.drop_last(), skip_noops), steps.last(), skip_noops)
    }
}

/// Every picked commit is in the store.
pub open spec fn picks_in(steps: Seq<RebaseStep>, n: nat) -> bool {
    forall|i: int|
        0 <= i < steps.len() ==> (#[trigger] steps[i] matches RebaseStep::Pick { commit_id, .. }
            ==> commit_id < n)
}

/// A rebase can run: `onto` and every picked commit are in the store.
pub open spec fn rebase_ok(s: Seq<CommitModel>, onto: usize, steps: Seq<RebaseStep>) -> bool {
    onto < s.len() && picks_in(steps, s.len())
}

pub open spec fn fold_wf(st: RebaseState, s: Seq<CommitModel>) -> bool {
    &&& store_wf(st.store)
    &&& st.head < st.store.len()
    &&& s.len() <= st.store.len()
    &&& st.store.subrange(0, s.len() as int) == s
}

pub(crate) proof fn lemma_fold_wf(s: Seq<CommitModel>, onto: usize, steps: Seq<RebaseStep>, skip_noops: bool)
    requires
        store_wf(s),
        rebase_ok(s, onto, steps),
        s.len() < usize::MAX - steps.len(),
    ensures
        fold_wf(rebase_fold(s, onto, steps, skip_noops), s),
        rebase_fold(s, onto, steps, skip_noops).store.len() <= s.len() + steps.len(),
        forall|k: int|
            0 <= k < rebase_fold(s, onto, steps, skip_noops).mapping.len() ==> (#[trigger] rebase_fold(
                s,
                onto,
                steps,
                skip_noops,
            ).mapping[k]).1 < rebase_fold(s, onto, steps, skip_noops).store.len(),
    decreases steps.len(),
{
    if steps.len() == 0 {
        assert(s.subrange(0, s.len() as int) =~= s);
    } else {
        let prev = steps.drop_last();
        assert(picks_in(prev, s.len())) by {
            assert forall|i: int| 0 <= i < prev.len() implies (#[trigger] prev[i] matches RebaseStep::Pick { commit_id, .. }
                ==> commit_id < s.len()) by {
                assert(prev[i] == steps[i]);
            }
        }
        lemma_fold_wf(s, onto, prev, skip_noops);
        let st = rebase_fold(s, onto, prev, skip_noops);
        assert(steps.last() == steps[steps.len() - 1]);
        let next = rebase_fold(s, onto, steps, skip_noops);
        assert forall|k: int| 0 <= k < next.mapping.len() implies (#[trigger] next.mapping[k]).1 < next.store.len() by {
            if k < st.mapping.len() {
                assert(next.mapping[k] == st.mapping[k]);
            }
        }
        if let RebaseStep::Pick { commit_id, new_message } = steps.last() {
            if !(skip_noops && pick_is_noop(st.store, st.head, commit_id)) {
                let c = picked_commit(st.store, st.head, commit_id, new_message);
                assert(next.store == st.store.push(c));
                assert(next.store.subrange(0, s.len() as int) =~= st.store.subrange(0, s.len() as int));
                assert forall|i: int, j: int|
                    0 <= i < next.store.len() && 0 <= j < next.store[i].parents.len() implies #[trigger] next.store[i].parents[j] < i by {
                    if i < st.store.len() {
                        assert(next.store[i] == st.store[i]);
                    }
                }
            }
        }
    }
}

impl ObjectStore {
    /// The commit that picking `c` onto `head` writes.
    fn pick_onto(&self, head: usize, c: usize, new_message: &Option<String>) -> (r: Commit)
        requires
            self.wf(),
            head < self@.len(),
            c < self@.len(),
        ensures
            r@ == picked_commit(self@, head, c, *new_message),
    {
        let base = self.parent_tree(c);
        let commit = &self.commits[c];
        assert(commit@ == self@[c as int]);
        assert(self.commits[head as int]@ == self@[head as int]);
        let m = merge_trees(&base, &self.commits[head].tree, &commit.tree);
        let message = match new_message {
            Some(msg) => msg.clone(),
            None => commit.message.clone(),
        };
        let conflict = if m.conflicted {
            Some(m.markers)
        } else {
            None
        };
        let parents: Vec<usize> = vec![head];
        let r = Commit { parents, tree: m.tree, conflict, change_id: commit.change_id, message };
        assert(r@.parents =~= seq![head]);
        r
    }
}

/// Replays `steps` onto `onto`. A pick whose changes clash with the running
/// head is still committed, flagged conflicted, and later picks build on it.
/// With `skip_noops`, a clean pick that leaves the head's tree unchanged makes
/// no commit. Fails, with the store untouched, only when `onto` or a picked
/// commit is not in the store.
pub fn rebase(
    store: &mut ObjectStore,
    onto: usize,
    steps: &Vec<RebaseStep>,
    skip_noops: bool,
) -> (r: Result<RebaseOutput, RebaseError>)
    requires
        old(store).wf(),
        old(store)@.len() + steps@.len() < usize::MAX,
    ensures
        final(store).wf(),
        extends(final(store)@, old(store)@),
        r is Ok <==> rebase_ok(old(store)@, onto, steps@),
        r is Err ==> final(store)@ == old(store)@,
        r matches Ok(out) ==> {
            let st = rebase_fold(old(store)@, onto, steps@, skip_noops);
            &&& final(store)@ == st.store
            &&& out.top_commit == st.head
            &&& out.commit_mapping@ == st.mapping
            &&& reference_views(out.references@) == st.references
        },
{
    let n0 = store.commits.len();
    proof {
        assert(old(store)@.subrange(0, n0 as int) =~= old(store)@);
    }
    if onto >= n0 {
        return Err(RebaseError::MissingOnto);
    }
    let mut k: usize = 0;
    while k < steps.len()
        invariant
            n0 == old(store)@.len(),
            store@ == old(store)@,
            extends(store@, old(store)@),
            store.wf(),
            onto < n0,
            k <= steps@.len(),
            picks_in(steps@.subrange(0, k as int), n0 as nat),
        decreases steps@.len() - k,
    {
        if let RebaseStep::Pick { commit_id, .. } = &steps[k] {
            if *commit_id >= n0 {
                return Err(RebaseError::MissingCommit);
            }
        }
        proof {
            let sub = steps@.subrange(0, k + 1);
            assert forall|i: int| 0 <= i < sub.len() implies (#[trigger] sub[i] matches RebaseStep::Pick { commit_id, .. }
                ==> commit_id < n0) by {
                if i < k {
                    assert(sub[i] == steps@.subrange(0, k as int)[i]);
                }
            }
        }
        k = k + 1;
    }
    assert(steps@.subrange(0, steps@.len() as int) == steps@);
    let ghost s0 = store@;
    proof {
        assert(steps@.subrange(0, 0) =~= Seq::<RebaseStep>::empty());
        lemma_fold_wf(s0, onto, steps@.subrange(0, 0), skip_noops);
    }
    let mut head: usize = onto;
    let mut mapping: Vec<(usize, usize)> = Vec::new();
    let mut references: Vec<ReferenceSpec> = Vec::new();
    let mut i: usize = 0;
    while i < steps.len()
        invariant
            s0 == old(store)@,
            store_wf(s0),
            rebase_ok(s0, onto, steps@),
            s0.len() + steps@.len() < usize::MAX,
            i <= steps@.len(),
            store.wf(),
            ({
                let st = rebase_fold(s0, onto, steps@.subrange(0, i as int), skip_noops);
                &&& store@ == st.store
                &&& head == st.head
                &&& mapping@ == st.mapping
                &&& reference_views(references@) == st.references
            }),
            fold_wf(rebase_fold(s0, onto, steps@.subrange(0, i as int), skip_noops), s0),
            store@.len() <= s0.len() + i,
        decreases steps@.len() - i,
    {
        let ghost prev = steps@.subrange(0, i as int);
        let ghost cur = steps@.subrange(0, i + 1);
        assert(cur.drop_last() == prev);
        assert(cur.last() == steps@[i as int]);
        assert(picks_in(cur, s0.len())) by {
            assert forall|j: int| 0 <= j < cur.len() implies (#[trigger] cur[j] matches RebaseStep::Pick { commit_id, .. }
                ==> commit_id < s0.len()) by {
                assert(cur[j] == steps@[j]);
            }
        }
        proof {
            lemma_fold_wf(s0, onto, cur, skip_noops);
        }
        match &steps[i] {
            RebaseStep::Pick { commit_id, new_message } => {
                assert(steps@[i as int] matches RebaseStep::Pick { commit_id: c, .. } && c < s0.len());
                let c = *commit_id;
                let commit = store.pick_onto(head, c, new_message);
                let noop = skip_noops && !commit.conflict.is_some() && commit.tree.same_as(
                    store.tree_of(head),
                );
                if noop {
                    mapping.push((c, head));
                } else {
                    let id = store.commits.len();
                    store.push_commit(commit);
                    mapping.push((c, id));
                    head = id;
                }
            },
            RebaseStep::Reference { name } => {
                let ghost before = references@;
                references.push(ReferenceSpec { name: name.clone(), commit_id: head });
                proof {
                    assert(reference_views(references@) =~= reference_views(before).push((name@, head)));
                }
            },
        }
        i = i + 1;
    }
    assert(steps@.subrange(0, steps@.len() as int) == steps@);
    Ok(RebaseOutput { top_commit: head, commit_mapping: mapping, references })
}

/// Picks of the given commits, keeping their messages.
pub open spec fn picks(ids: Seq<usize>) -> Seq<RebaseStep> {
    ids.map_values(|c: usize| RebaseStep::Pick { commit_id: c, new_message: None })
}

/// Picks of the given commits, in order, keeping their messages.
pub fn pick_steps(ids: &Vec<usize>) -> (r: Vec<RebaseStep>)
    ensures
        r@ == picks(ids@),
{
    let mut steps: Vec<RebaseStep> = Vec::new();
    let mut i: usize = 0;
    while i < ids.len()
        invariant
            i <= ids@.len(),
            steps@ == picks(ids@.subrange(0, i as int)),
        decreases ids@.len() - i,
    {
        steps.push(RebaseStep::Pick { commit_id: ids[i], new_message: None });
        assert(picks(ids@.subrange(0, i + 1)) =~= picks(ids@.subrange(0, i as int)).push(
            RebaseStep::Pick { commit_id: ids@[i as int], new_message: None },
        ));
        i = i + 1;
    }
    assert(ids@.subrange(0, ids@.len() as int) =~= ids@);
    steps
}

/// `ids` is a line of history in `s` whose first commit sits on `onto`:
/// each commit's first parent is the one before it.
pub open spec fn is_chain(s: Seq<CommitModel>, onto: usize, ids: Seq<usize>) -> bool {
    &&& forall|k: int| 0 <= k < ids.len() ==> #[trigger] ids[k] < s.len()
    &&& forall|k: int|
        0 <= k < ids.len() ==> {
            &&& (#[trigger] s[ids[k] as int]).parents.len() > 0
            &&& s[ids[k] as int].parents[0] == if k == 0 {
                onto
            } else {
                ids[k - 1]
            }
        }
}

/// Replaying `t`'s changes onto a tree that holds what `t`'s base holds
/// gives `t` back, without conflict.
proof fn lemma_merge_onto_own_base(b: Seq<Option<u64>>, o: Seq<Option<u64>>, t: Seq<Option<u64>>)
    requires
        same_tree(b, o),
    ensures
        same_tree(merged(b, o, t), t),
        !has_conflict(b, o, t),
{
    assert forall|p: int| #[trigger] entry(merged(b, o, t), p) == #[trigger] entry(t, p) by {
        assert(entry(b, p) == entry(o, p));
    }
    assert forall|p: int| 0 <= p < merge_len(b, o, t) implies !#[trigger] conflicts_at(b, o, t, p) by {
        assert(entry(b, p) == entry(o, p));
    }
}

/// Picking `c` onto a head whose tree holds what `c`'s parent holds gives
/// `c`'s tree back, cleanly.
proof fn lemma_pick_onto_same_base(s: Seq<CommitModel>, st: RebaseState, c: usize)
    requires
        store_wf(s),
        fold_wf(st, s),
        c < s.len(),
        s[c as int].parents.len() > 0,
        same_tree(st.store[st.head as int].tree, s[s[c as int].parents[0] as int].tree),
    ensures
        same_tree(picked_commit(st.store, st.head, c, None).tree, s[c as int].tree),
        picked_commit(st.store, st.head, c, None).markers is None,
{
    assert(st.store[c as int] == st.store.subrange(0, s.len() as int)[c as int]);
    let pc = s[c as int].parents[0];
    assert(s[c as int].parents[0] < c);
    assert(st.store[pc as int] == st.store.subrange(0, s.len() as int)[pc as int]);
    let base = parent_tree(st.store, c as int);
    let ours = st.store[st.head as int].tree;
    assert(same_tree(base, ours)) by {
        assert forall|p: int| #[trigger] entry(base, p) == #[trigger] entry(ours, p) by {
            assert(entry(ours, p) == entry(s[pc as int].tree, p));
        }
    }
    lemma_merge_onto_own_base(base, ours, st.store[c as int].tree);
}

/// `st` holds one clean commit per commit of `ids`, written after `s`, each
/// with the tree of the commit it replays.
pub open spec fn chain_replayed(s: Seq<CommitModel>, onto: usize, ids: Seq<usize>, st: RebaseState) -> bool {
    &&& st.store.len() == s.len() + ids.len()
    &&& st.mapping.len() == ids.len()
    &&& st.head == if ids.len() == 0 {
        onto
    } else {
        (s.len() + ids.len() - 1) as usize
    }
    &&& forall|k: int| 0 <= k < ids.len() ==> #[trigger] st.mapping[k] == (ids[k], (s.len() + k) as usize)
    &&& forall|k: int|
        0 <= k < ids.len() ==> same_tree((#[trigger] st.store[s.len() + k]).tree, s[ids[k] as int].tree)
    &&& forall|k: int| 0 <= k < ids.len() ==> (#[trigger] st.store[s.len() + k]).markers is None
}

#[verifier::spinoff_prover]
proof fn lemma_rebase_chain(s: Seq<CommitModel>, onto: usize, ids: Seq<usize>)
    requires
        store_wf(s),
        onto < s.len(),
        is_chain(s, onto, ids),
        s.len() + ids.len() < usize::MAX,
    ensures
        chain_replayed(s, onto, ids, rebase_fold(s, onto, picks(ids), false)),
        fold_wf(rebase_fold(s, onto, picks(ids), false), s),
    decreases ids.len(),
{
    let steps = picks(ids);
    assert(rebase_ok(s, onto, steps)) by {
        assert forall|i: int| 0 <= i < steps.len() implies (#[trigger] steps[i] matches RebaseStep::Pick { commit_id, .. }
            ==> commit_id < s.len()) by {
            assert(ids[i] < s.len());
        }
    }
    lemma_fold_wf(s, onto, steps, false);
    if ids.len() == 0 {
        assert(steps =~= Seq::<RebaseStep>::empty());
        let st = rebase_fold(s, onto, steps, false);
        assert(st.store == s && st.head == onto && st.mapping == Seq::<(usize, usize)>::empty());
        assert(chain_replayed(s, onto, ids, st));
    } else {
        let prev = ids.drop_last();
        assert(is_chain(s, onto, prev)) by {
            assert forall|k: int| 0 <= k < prev.len() implies #[trigger] prev[k] < s.len() by {
                assert(prev[k] == ids[k]);
            }
            assert forall|k: int| 0 <= k < prev.len() implies (#[trigger] s[prev[k] as int]).parents.len() > 0 && s[prev[k] as int].parents[0] == if k == 0 {
                onto
            } else {
                prev[k - 1]
            } by {
                assert(prev[k] == ids[k]);
                assert(ids[k] < s.len());
            }
        }
        lemma_rebase_chain(s, onto, prev);
        assert(steps.drop_last() =~= picks(prev));
        let st = rebase_fold(s, onto, picks(prev), false);
        let n = ids.len() - 1;
        let c = ids[n];
        assert(ids[n] < s.len());
        assert(steps.last() == RebaseStep::Pick { commit_id: c, new_message: None });
        let pc = s[c as int].parents[0];
        assert(s[ids[n] as int].parents.len() > 0);
        if n == 0 {
            assert(pc == onto);
        } else {
            assert(pc == ids[n - 1]);
            assert(st.mapping[n - 1] == (ids[n - 1], (s.len() + n - 1) as usize));
            assert(same_tree(st.store[s.len() + (n - 1)].tree, s[ids[n - 1] as int].tree));
        }
        lemma_pick_onto_same_base(s, st, c);
        let next = rebase_fold(s, onto, steps, false);
        assert(next.store == st.store.push(picked_commit(st.store, st.head, c, None)));
        assert(next.mapping == st.mapping.push((c, st.store.len() as usize)));
        assert(st.store.len() == s.len() + n);
        assert(next.head == (s.len() + ids.len() - 1) as usize);
        assert(next.mapping.len() == ids.len());
        assert(next.store.len() == s.len() + ids.len());
        assert forall|k: int| 0 <= k < ids.len() implies #[trigger] next.mapping[k] == (ids[k], (s.len() + k) as usize) by {
            if k < n {
                assert(prev[k] == ids[k]);
                assert(next.mapping[k] == st.mapping[k]);
            }
        }
        assert forall|k: int|
            0 <= k < ids.len() implies same_tree((#[trigger] next.store[s.len() + k]).tree, s[ids[k] as int].tree)
                && next.store[s.len() + k].markers is None by {
            if k < n {
                assert(prev[k] == ids[k]);
                assert(next.store[s.len() + k] == st.store[s.len() + k]);
            } else {
                assert(k == n);
                assert(next.store[s.len() + k] == picked_commit(st.store, st.head, c, None));
            }
        }
        assert(next.store.len() == s.len() + ids.len());
        assert(next.mapping.len() == ids.len());
        assert(next.head == (if ids.len() == 0 {
            onto
        } else {
            (s.len() + ids.len() - 1) as usize
        }));
        assert(chain_replayed(s, onto, ids, next));
    }
}

/// Rebasing a line of history onto the commit it already sits on, keeping
/// empty commits, writes one clean commit per pick, each with the tree of
/// the commit it replays.
pub proof fn rebase_onto_own_base_keeps_trees(s: Seq<CommitModel>, onto: usize, ids: Seq<usize>)
    requires
        store_wf(s),
        onto < s.len(),
        is_chain(s, onto, ids),
        s.len() + ids.len() < usize::MAX,
    ensures
        ({
            let st = rebase_fold(s, onto, picks(ids), false);
            &&& st.store.len() == s.len() + ids.len()
            &&& st.mapping.len() == ids.len()
            &&& forall|k: int|
                0 <= k < ids.len() ==> {
                    &&& (#[trigger] st.mapping[k]).0 == ids[k]
                    &&& same_tree(st.store[st.mapping[k].1 as int].tree, s[ids[k] as int].tree)
                    &&& st.store[st.mapping[k].1 as int].markers is None
                }
        }),
{
    lemma_rebase_chain(s, onto, ids);
}

/// Rebasing a commit `a` and then its child `b` onto `onto` always writes two
/// commits: the first is conflicted exactly when `a`'s changes clash with
/// `onto`, the second exactly when `b`'s changes clash with the first's
/// auto-resolved tree.
pub proof fn rebase_propagates_conflicts(s: Seq<CommitModel>, onto: usize, a: usize, b: usize)
    requires
        store_wf(s),
        onto < s.len(),
        a < s.len(),
        b < s.len(),
        s.len() + 2 < usize::MAX,
        s[b as int].parents.len() > 0,
        s[b as int].parents[0] == a,
    ensures
        ({
            let st = rebase_fold(s, onto, picks(seq![a, b]), false);
            let n = s.len() as int;
            let a2 = st.store[n];
            let b2 = st.store[n + 1];
            &&& st.store.len() == n + 2
            &&& st.mapping == seq![(a, n as usize), (b, (n + 1) as usize)]
            &&& st.head == n + 1
            &&& (a2.markers is Some <==> has_conflict(
                parent_tree(s, a as int),
                s[onto as int].tree,
                s[a as int].tree,
            ))
            &&& (b2.markers is Some <==> has_conflict(s[a as int].tree, a2.tree, s[b as int].tree))
            &&& b2.parents == seq![(n as usize)]
        }),
{
    let steps = picks(seq![a, b]);
    assert(steps.drop_last() =~= picks(seq![a]));
    assert(picks(seq![a]).drop_last() =~= picks(Seq::<usize>::empty()));
    assert(picks(Seq::<usize>::empty()) =~= Seq::<RebaseStep>::empty());
    let s0 = rebase_fold(s, onto, Seq::<RebaseStep>::empty(), false);
    let s1 = rebase_fold(s, onto, picks(seq![a]), false);
    let s2 = rebase_fold(s, onto, steps, false);
    assert(picks(seq![a]).last() == RebaseStep::Pick { commit_id: a, new_message: None });
    assert(steps.last() == RebaseStep::Pick { commit_id: b, new_message: None });
    assert(s1.store == s.push(picked_commit(s, onto, a, None)));
    assert(s1.store[b as int] == s[b as int]);
    assert(s1.store[a as int] == s[a as int]);
    assert(parent_tree(s1.store, b as int) == s[a as int].tree);
    assert(s2.store == s1.store.push(picked_commit(s1.store, s1.head, b, None)));
    assert(s1.mapping =~= seq![(a, s.len() as usize)]);
    assert(s2.mapping =~= seq![(a, s.len() as usize), (b, (s.len() + 1) as usize)]);
    assert(s1.head == s.len());
    assert(s1.store[s.len() as int] == picked_commit(s, onto, a, None));
    assert(s2.store[s.len() as int] == s1.store[s.len() as int]);
    assert(s2.store[s.len() as int + 1] == picked_commit(s1.store, s1.head, b, None));
}

} // verus!
