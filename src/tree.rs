use vstd::prelude::*;

verus! {

/// What a tree holds at a path: the blob stored there, if any. Paths are
/// small integers; a tree's entries past its length are empty.
pub open spec fn entry(t: Seq<Option<u64>>, p: int) -> Option<u64> {
    if 0 <= p < t.len() {
        t[p]
    } else {
        None
    }
}

/// Two trees hold the same blob at every path.
pub open spec fn same_tree(a: Seq<Option<u64>>, b: Seq<Option<u64>>) -> bool {
    forall|p: int| #[trigger] entry(a, p) == #[trigger] entry(b, p)
}

pub open spec fn max3(a: nat, b: nat, c: nat) -> nat {
    if a >= b && a >= c {
        a
    } else if b >= c {
        b
    } else {
        c
    }
}

/// Both sides changed a path, each in its own way.
pub open spec fn entry_conflicts(b: Option<u64>, o: Option<u64>, t: Option<u64>) -> bool {
    o != t && b != o && b != t
}

/// The three-way merge of one path. Where both sides changed it differently,
/// our side is kept.
pub open spec fn merge_entry(b: Option<u64>, o: Option<u64>, t: Option<u64>) -> Option<u64> {
    if o == t {
        o
    } else if b == o {
        t
    } else {
        o
    }
}

pub open spec fn merge_len(b: Seq<Option<u64>>, o: Seq<Option<u64>>, t: Seq<Option<u64>>) -> nat {
    max3(b.len(), o.len(), t.len())
}

pub open spec fn conflicts_at(
    b: Seq<Option<u64>>,
    o: Seq<Option<u64>>,
    t: Seq<Option<u64>>,
    p: int,
) -> bool {
    entry_conflicts(entry(b, p), entry(o, p), entry(t, p))
}

/// The tree that merging `t` into `o` against base `b` gives, favouring `o`
/// wherever the two conflict.
pub open spec fn merged(b: Seq<Option<u64>>, o: Seq<Option<u64>>, t: Seq<Option<u64>>) -> Seq<
    Option<u64>,
> {
    Seq::new(merge_len(b, o, t), |p: int| merge_entry(entry(b, p), entry(o, p), entry(t, p)))
}

/// What the favoured side overrode: their blob at each conflicting path.
pub open spec fn conflict_markers(
    b: Seq<Option<u64>>,
    o: Seq<Option<u64>>,
    t: Seq<Option<u64>>,
) -> Seq<Option<u64>> {
    Seq::new(
        merge_len(b, o, t),
        |p: int|
            if conflicts_at(b, o, t, p) {
                entry(t, p)
            } else {
                None
            },
    )
}

/// Some path conflicts in the merge.
pub open spec fn has_conflict(b: Seq<Option<u64>>, o: Seq<Option<u64>>, t: Seq<Option<u64>>) -> bool {
    exists|p: int| 0 <= p < merge_len(b, o, t) && #[trigger] conflicts_at(b, o, t, p)
}

/// A tree: for each path, the blob stored there, or nothing.
#[derive(Debug)]
pub struct Tree {
    pub entries: Vec<Option<u64>>,
}

impl View for Tree {
    type V = Seq<Option<u64>>;

    open spec fn view(&self) -> Seq<Option<u64>> {
        self.entries@
    }
}

/// The outcome of a three-way tree merge.
#[derive(Debug)]
pub struct TreeMerge {
    /// The merged tree, our side kept where the two sides conflict.
    pub tree: Tree,
    /// Their blob at each path that conflicted.
    pub markers: Tree,
    /// Whether any path conflicted.
    pub conflicted: bool,
}

impl TreeMerge {
    pub open spec fn of(self, b: Seq<Option<u64>>, o: Seq<Option<u64>>, t: Seq<Option<u64>>) -> bool {
        &&& self.tree@ == merged(b, o, t)
        &&& self.markers@ == conflict_markers(b, o, t)
        &&& self.conflicted == has_conflict(b, o, t)
    }
}

impl Tree {
    /// The empty tree.
    pub fn new() -> (r: Tree)
        ensures
            r@ == Seq::<Option<u64>>::empty(),
    {
        Tree { entries: Vec::new() }
    }

    /// The blob at `path`, if any.
    pub fn get(&self, path: usize) -> (r: Option<u64>)
        ensures
            r == entry(self@, path as int),
    {
        if path < self.entries.len() {
            self.entries[path]
        } else {
            None
        }
    }

    /// Stores `blob` at `path`, or removes the file there when `blob` is
    /// `None`; the other paths keep their blobs.
    pub fn set(&mut self, path: usize, blob: Option<u64>)
        requires
            path < usize::MAX,
        ensures
            entry(final(self)@, path as int) == blob,
            forall|p: int| p != path ==> entry(final(self)@, p) == entry(old(self)@, p),
    {
        while self.entries.len() <= path
            invariant
                path < usize::MAX,
                forall|p: int| entry(self@, p) == entry(old(self)@, p),
            decreases path + 1 - self.entries@.len(),
        {
            self.entries.push(None);
        }
        self.entries.set(path, blob);
    }

    /// A tree with the same entries.
    pub fn copy(&self) -> (r: Tree)
        ensures
            r@ == self@,
    {
        let mut entries: Vec<Option<u64>> = Vec::new();
        let mut i: usize = 0;
        while i < self.entries.len()
            invariant
                i <= self@.len(),
                entries@ == self@.subrange(0, i as int),
            decreases self@.len() - i,
        {
            entries.push(self.entries[i]);
            i = i + 1;
        }
        assert(entries@ == self@);
        Tree { entries }
    }

    /// Whether the two trees hold the same blob at every path.
    pub fn same_as(&self, other: &Tree) -> (r: bool)
        ensures
            r == same_tree(self@, other@),
    {
        let n: usize = if self.entries.len() >= other.entries.len() {
            self.entries.len()
        } else {
            other.entries.len()
        };
        let mut i: usize = 0;
        while i < n
            invariant
                n >= self@.len(),
                n >= other@.len(),
                i <= n,
                forall|p: int| 0 <= p < i ==> entry(self@, p) == entry(other@, p),
            decreases n - i,
        {
            if self.get(i) != other.get(i) {
                return false;
            }
            i = i + 1;
        }
        assert forall|p: int| #[trigger] entry(self@, p) == #[trigger] entry(other@, p) by {
            if p < 0 || p >= n {
            }
        }
        true
    }
}

/// Three-way merge of `ours` and `theirs` against `base`: each path takes the
/// side that changed it; where both changed it differently the path
/// conflicts, our blob is kept and theirs is recorded in the markers.
pub fn merge_trees(base: &Tree, ours: &Tree, theirs: &Tree) -> (r: TreeMerge)
    ensures
        r.of(base@, ours@, theirs@),
{
    let lb = base.entries.len();
    let lo = ours.entries.len();
    let lt = theirs.entries.len();
    let n: usize = if lb >= lo && lb >= lt {
        lb
    } else if lo >= lt {
        lo
    } else {
        lt
    };
    let mut tree: Vec<Option<u64>> = Vec::new();
    let mut markers: Vec<Option<u64>> = Vec::new();
    let mut conflicted: bool = false;
    let mut i: usize = 0;
    while i < n
        invariant
            n == merge_len(base@, ours@, theirs@),
            i <= n,
            tree@ == merged(base@, ours@, theirs@).subrange(0, i as int),
            markers@ == conflict_markers(base@, ours@, theirs@).subrange(0, i as int),
            conflicted == (exists|p: int| 0 <= p < i && #[trigger] conflicts_at(base@, ours@, theirs@, p)),
        decreases n - i,
    {
        let b = base.get(i);
        let o = ours.get(i);
        let t = theirs.get(i);
        let m = if o == t {
            o
        } else if b == o {
            t
        } else {
            o
        };
        let c = o != t && b != o && b != t;
        tree.push(m);
        markers.push(if c { t } else { None });
        if c {
            assert(conflicts_at(base@, ours@, theirs@, i as int));
            conflicted = true;
        }
        proof {
            if !c && conflicted {
                let p = choose|p: int| 0 <= p < i && #[trigger] conflicts_at(base@, ours@, theirs@, p);
                assert(0 <= p < i + 1);
            }
            if !conflicted {
                assert forall|p: int| 0 <= p < i + 1 implies !#[trigger] conflicts_at(base@, ours@, theirs@, p) by {
                    if p == i {
                    }
                }
            }
        }
        i = i + 1;
        assert(tree@ == merged(base@, ours@, theirs@).subrange(0, i as int));
        assert(markers@ == conflict_markers(base@, ours@, theirs@).subrange(0, i as int));
    }
    assert(tree@ == merged(base@, ours@, theirs@));
    assert(markers@ == conflict_markers(base@, ours@, theirs@));
    TreeMerge { tree: Tree { entries: tree }, markers: Tree { entries: markers }, conflicted }
}

} // verus!
