use vstd::prelude::*;

use crate::tree::Tree;

verus! {

/// What a commit holds, as plain values.
pub ghost struct CommitModel {
    pub parents: Seq<usize>,
    /// The commit's real tree; for a conflicted commit, the auto-resolved one.
    pub tree: Seq<Option<u64>>,
    /// For a conflicted commit, the tree of the blobs that lost the conflict.
    pub markers: Option<Seq<Option<u64>>>,
    pub change_id: Option<u64>,
    pub message: Seq<char>,
}

/// A commit. Its id is its position in the store.
#[derive(Debug)]
pub struct Commit {
    pub parents: Vec<usize>,
    /// The real tree; for a conflicted commit, the auto-resolved tree.
    pub tree: Tree,
    /// Present exactly when the commit is conflicted: the tree of the blobs
    /// that lost the conflict.
    pub conflict: Option<Tree>,
    /// The change id that stays with the commit through rewrites.
    pub change_id: Option<u64>,
    pub message: String,
}

impl View for Commit {
    type V = CommitModel;

    open spec fn view(&self) -> CommitModel {
        CommitModel {
            parents: self.parents@,
            tree: self.tree@,
            markers: match self.conflict {
                Some(t) => Some(t@),
                None => None,
            },
            change_id: self.change_id,
            message: self.message@,
        }
    }
}

/// Every parent of a commit stands before it in the store.
pub open spec fn store_wf(s: Seq<CommitModel>) -> bool {
    forall|i: int, j: int|
        0 <= i < s.len() && 0 <= j < s[i].parents.len() ==> #[trigger] s[i].parents[j] < i
}

/// The tree that a commit's changes are taken against: its first parent's
/// real tree, or the empty tree for a root commit.
pub open spec fn parent_tree(s: Seq<CommitModel>, c: int) -> Seq<Option<u64>> {
    if s[c].parents.len() > 0 {
        s[s[c].parents[0] as int].tree
    } else {
        Seq::empty()
    }
}

/// `a` is kept unchanged at the start of `b`.
pub open spec fn extends(b: Seq<CommitModel>, a: Seq<CommitModel>) -> bool {
    a.len() <= b.len() && b.subrange(0, a.len() as int) == a
}

/// Why the store refused a commit.
#[derive(Clone, Copy, Debug, PartialEq, Eq, Structural)]
pub enum StoreError {
    /// A parent that is not in the store.
    MissingParent,
}

/// An append-only store of commits.
#[derive(Debug)]
pub struct ObjectStore {
    pub commits: Vec<Commit>,
}

impl View for ObjectStore {
    type V = Seq<CommitModel>;

    open spec fn view(&self) -> Seq<CommitModel> {
        self.commits@.map_values(|c: Commit| c@)
    }
}

impl ObjectStore {
    pub open spec fn wf(&self) -> bool {
        store_wf(self@)
    }

    /// An empty store.
    pub fn new() -> (r: ObjectStore)
        ensures
            r@.len() == 0,
            r.wf(),
    {
        ObjectStore { commits: Vec::new() }
    }

    /// The number of commits.
    pub fn len(&self) -> (r: usize)
        ensures
            r == self@.len(),
    {
        self.commits.len()
    }

    /// Adds `commit` and returns its id, or refuses it when one of its
    /// parents is not in the store.
    pub fn add_commit(&mut self, commit: Commit) -> (r: Result<usize, StoreError>)
        requires
            old(self).wf(),
        ensures
            final(self).wf(),
            r is Err <==> exists|j: int|
                0 <= j < commit.parents@.len() && #[trigger] commit.parents@[j] >= old(self)@.len(),
            r is Err ==> final(self)@ == old(self)@,
            r matches Ok(id) ==> id == old(self)@.len() && final(self)@ == old(self)@.push(commit@),
    {
        let n = self.commits.len();
        let mut j: usize = 0;
        while j < commit.parents.len()
            invariant
                n == self@.len(),
                self@ == old(self)@,
                self.wf(),
                j <= commit.parents@.len(),
                forall|k: int| 0 <= k < j ==> #[trigger] commit.parents@[k] < n,
            decreases commit.parents@.len() - j,
        {
            if commit.parents[j] >= n {
                return Err(StoreError::MissingParent);
            }
            j = j + 1;
        }
        self.push_commit(commit);
        Ok(n)
    }

    /// Appends a commit whose parents are known to be in the store.
    pub(crate) fn push_commit(&mut self, commit: Commit)
        requires
            old(self).wf(),
            forall|j: int| 0 <= j < commit.parents@.len() ==> #[trigger] commit.parents@[j] < old(self)@.len(),
        ensures
            final(self).wf(),
            final(self)@ == old(self)@.push(commit@),
    {
        let ghost c = commit@;
        self.commits.push(commit);
        assert(self@ =~= old(self)@.push(c));
    }

    /// The real tree of commit `id`.
    pub fn tree_of(&self, id: usize) -> (r: &Tree)
        requires
            id < self@.len(),
        ensures
            r@ == self@[id as int].tree,
    {
        &self.commits[id].tree
    }

    /// Whether commit `id` is conflicted.
    pub fn is_conflicted(&self, id: usize) -> (r: bool)
        requires
            id < self@.len(),
        ensures
            r == self@[id as int].markers is Some,
    {
        self.commits[id].conflict.is_some()
    }

    /// The tree that the changes of commit `id` are taken against.
    pub fn parent_tree(&self, id: usize) -> (r: Tree)
        requires
            self.wf(),
            id < self@.len(),
        ensures
            r@ == parent_tree(self@, id as int),
    {
        let c = &self.commits[id];
        assert(c@ == self@[id as int]);
        if c.parents.len() > 0 {
            assert(self@[id as int].parents[0] < id);
            self.commits[c.parents[0]].tree.copy()
        } else {
            Tree::new()
        }
    }
}

impl Commit {
    /// A commit with the same parents, trees, change id and message.
    pub fn copy(&self) -> (r: Commit)
        ensures
            r@ == self@,
    {
        let mut parents: Vec<usize> = Vec::new();
        let mut i: usize = 0;
        while i < self.parents.len()
            invariant
                i <= self.parents@.len(),
                parents@ == self.parents@.subrange(0, i as int),
            decreases self.parents@.len() - i,
        {
            parents.push(self.parents[i]);
            i = i + 1;
        }
        assert(parents@ == self.parents@);
        let conflict = match &self.conflict {
            Some(t) => Some(t.copy()),
            None => None,
        };
        Commit {
            parents,
            tree: self.tree.copy(),
            conflict,
            change_id: self.change_id,
            message: self.message.clone(),
        }
    }
}

impl ObjectStore {
    /// A store holding the same commits, for work that must leave this one
    /// untouched.
    pub fn snapshot(&self) -> (r: ObjectStore)
        requires
            self.wf(),
        ensures
            r@ == self@,
            r.wf(),
    {
        let mut commits: Vec<Commit> = Vec::new();
        let mut i: usize = 0;
        while i < self.commits.len()
            invariant
                i <= self@.len(),
                self@.len() == self.commits@.len(),
                commits@.map_values(|c: Commit| c@) == self@.subrange(0, i as int),
            decreases self@.len() - i,
        {
            let c = self.commits[i].copy();
            let ghost before = commits@;
            commits.push(c);
            assert(commits@.map_values(|c: Commit| c@) =~= before.map_values(|c: Commit| c@).push(
                self@[i as int],
            ));
            assert(self@.subrange(0, i + 1) =~= self@.subrange(0, i as int).push(self@[i as int]));
            i = i + 1;
        }
        assert(self@.subrange(0, self@.len() as int) =~= self@);
        ObjectStore { commits }
    }
}

pub proof fn lemma_extends_trans(a: Seq<CommitModel>, b: Seq<CommitModel>, c: Seq<CommitModel>)
    requires
        extends(b, a),
        extends(c, b),
    ensures
        extends(c, a),
{
    assert(c.subrange(0, a.len() as int) =~= c.subrange(0, b.len() as int).subrange(0, a.len() as int));
}

pub proof fn lemma_extends_push(a: Seq<CommitModel>, x: CommitModel)
    ensures
        extends(a.push(x), a),
{
    assert(a.push(x).subrange(0, a.len() as int) =~= a);
}

} // verus!
