use vstd::prelude::*;

use crate::store::{store_wf, CommitModel, ObjectStore};

verus! {

/// `q` is a parent of `i`.
pub open spec fn parent_of(s: Seq<CommitModel>, q: usize, i: usize) -> bool {
    exists|j: int| 0 <= j < s[i as int].parents.len() && #[trigger] s[i as int].parents[j] == q
}

/// `p` walks from a commit to one of its parents at each step.
pub open spec fn is_path(s: Seq<CommitModel>, p: Seq<usize>) -> bool {
    &&& p.len() > 0
    &&& forall|k: int| 0 <= k < p.len() ==> #[trigger] p[k] < s.len()
    &&& forall|k: int| 0 <= k < p.len() - 1 ==> #[trigger] parent_of(s, p[k + 1], p[k])
}

/// `a` is `c` or reachable from `c` through parents.
pub open spec fn is_ancestor(s: Seq<CommitModel>, a: usize, c: usize) -> bool {
    exists|p: Seq<usize>| is_path(s, p) && p[0] == c && #[trigger] p.last() == a
}

/// `m` is a best common ancestor of `x` and `y`: no later commit is one.
pub open spec fn is_merge_base(s: Seq<CommitModel>, x: usize, y: usize, m: usize) -> bool {
    &&& is_ancestor(s, m, x)
    &&& is_ancestor(s, m, y)
    &&& forall|a: usize| m < a < s.len() ==> !(#[trigger] is_ancestor(s, a, x) && is_ancestor(s, a, y))
}

/// The commits met following first parents from `x`, newest first, up to
/// `stop` or a root, neither included.
pub open spec fn first_parent_log(s: Seq<CommitModel>, x: usize, stop: usize) -> Seq<usize>
    decreases x,
{
    if x >= s.len() || x == stop || s[x as int].parents.len() == 0 || s[x as int].parents[0] >= x {
        seq![]
    } else {
        seq![x] + first_parent_log(s, s[x as int].parents[0], stop)
    }
}

proof fn lemma_path_push(s: Seq<CommitModel>, p: Seq<usize>, q: usize)
    requires
        is_path(s, p),
        q < s.len(),
        parent_of(s, q, p.last()),
    ensures
        is_path(s, p.push(q)),
        p.push(q)[0] == p[0],
        p.push(q).last() == q,
{
    let longer = p.push(q);
    assert forall|k: int| 0 <= k < longer.len() - 1 implies #[trigger] parent_of(s, longer[k + 1], longer[k]) by {
        if k < p.len() - 1 {
            assert(longer[k + 1] == p[k + 1] && longer[k] == p[k]);
        } else {
            assert(longer[k] == p.last());
        }
    }
    assert forall|k: int| 0 <= k < longer.len() implies #[trigger] longer[k] < s.len() by {
        if k < p.len() {
            assert(longer[k] == p[k]);
        }
    }
}

/// Along a path from `c`, every commit is marked when `c` is and each
/// marked commit up to `c` has its parents marked.
proof fn lemma_path_marked(s: Seq<CommitModel>, marks: Seq<bool>, c: usize, p: Seq<usize>, m: int)
    requires
        store_wf(s),
        is_path(s, p),
        p[0] == c,
        0 <= m < p.len(),
        c < marks.len(),
        marks[c as int],
        forall|j: int, q: usize| 0 <= j <= c && marks[j] && #[trigger] parent_of(s, q, j as usize) ==> #[trigger] marks[q as int],
    ensures
        p[m] <= c,
        marks[p[m] as int],
    decreases m,
{
    if m > 0 {
        lemma_path_marked(s, marks, c, p, m - 1);
        let k = m - 1;
        assert(parent_of(s, p[k + 1], p[k]));
        let j = choose|j: int| 0 <= j < s[p[m - 1] as int].parents.len() && #[trigger] s[p[m - 1] as int].parents[j] == p[m];
        assert(s[p[m - 1] as int].parents[j] < p[m - 1]);
        let pk: int = p[k] as int;
        assert(pk as usize == p[k]);
        assert(parent_of(s, p[m], pk as usize));
        assert(marks[pk]);
    }
}

impl ObjectStore {
    /// For each commit up to `c`, whether it is an ancestor of `c`.
    pub fn ancestors(&self, c: usize) -> (r: Vec<bool>)
        requires
            self.wf(),
            c < self@.len(),
        ensures
            r@.len() == c + 1,
            forall|a: usize| a <= c ==> r@[a as int] == is_ancestor(self@, a, c),
    {
        let ghost s = self@;
        let _ = self.len();
        let mut marks: Vec<bool> = Vec::new();
        let mut i: usize = 0;
        while i <= c
            invariant
                i <= c + 1,
                c < usize::MAX,
                marks@.len() == i,
                forall|j: int| 0 <= j < i ==> marks@[j] == (j == c),
            decreases c + 1 - i,
        {
            marks.push(i == c);
            i = i + 1;
        }
        proof {
            let p = seq![c];
            assert(is_path(s, p));
            assert(p.last() == c);
        }
        // Walk down from `c`: a marked commit marks its parents.
        let mut k: usize = c + 1;
        while k > 0
            invariant
                s == self@,
                store_wf(s),
                c < s.len(),
                k <= c + 1,
                marks@.len() == c + 1,
                marks@[c as int],
                forall|j: int| 0 <= j <= c && #[trigger] marks@[j] ==> is_ancestor(s, j as usize, c),
                forall|j: int, q: usize|
                    k <= j <= c && marks@[j] && #[trigger] parent_of(s, q, j as usize) ==> #[trigger] marks@[q as int],
            decreases k,
        {
            k = k - 1;
            let ghost before = marks@;
            if marks[k] {
                let commit = &self.commits[k];
                assert(commit@ == s[k as int]);
                let mut j: usize = 0;
                while j < commit.parents.len()
                    invariant
                        s == self@,
                        store_wf(s),
                        commit@ == s[k as int],
                        k <= c,
                        c < s.len(),
                        marks@.len() == c + 1,
                        marks@[c as int],
                        marks@[k as int],
                        before.len() == c + 1,
                        forall|x: int| 0 <= x <= c && before[x] ==> marks@[x],
                        forall|x: int| k < x <= c ==> marks@[x] == before[x],
                        forall|x: int| 0 <= x <= c && #[trigger] marks@[x] ==> is_ancestor(s, x as usize, c),
                        forall|x: int| 0 <= x < j ==> #[trigger] marks@[s[k as int].parents[x] as int],
                        j <= s[k as int].parents.len(),
                    decreases s[k as int].parents.len() - j,
                {
                    let q = commit.parents[j];
                    assert(q < k);
                    proof {
                        assert(is_ancestor(s, k, c));
                        let p = choose|p: Seq<usize>| is_path(s, p) && p[0] == c && #[trigger] p.last() == k;
                        assert(parent_of(s, q, k));
                        lemma_path_push(s, p, q);
                    }
                    marks.set(q, true);
                    j = j + 1;
                }
                proof {
                    assert forall|x: int, q: usize|
                        k <= x <= c && marks@[x] && #[trigger] parent_of(s, q, x as usize) implies #[trigger] marks@[q as int] by {
                        if x == k {
                            let jj = choose|jj: int| 0 <= jj < s[k as int].parents.len() && #[trigger] s[k as int].parents[jj] == q;
                            assert(marks@[s[k as int].parents[jj] as int]);
                        } else {
                            assert(before[x]);
                            let jj = choose|jj: int| 0 <= jj < s[x].parents.len() && #[trigger] s[x].parents[jj] == q;
                            assert(s[x].parents[jj] < x);
                            assert(before[q as int]);
                        }
                    }
                }
            }
        }
        proof {
            assert forall|a: usize| a <= c implies marks@[a as int] == is_ancestor(s, a, c) by {
                if is_ancestor(s, a, c) {
                    let p = choose|p: Seq<usize>| is_path(s, p) && p[0] == c && #[trigger] p.last() == a;
                    lemma_path_marked(s, marks@, c, p, p.len() - 1);
                }
            }
        }
        marks
    }

    /// A best common ancestor of `x` and `y`, if they have one.
    pub fn merge_base(&self, x: usize, y: usize) -> (r: Option<usize>)
        requires
            self.wf(),
            x < self@.len(),
            y < self@.len(),
        ensures
            r matches Some(m) ==> is_merge_base(self@, x, y, m),
            r is None ==> forall|a: usize| !(#[trigger] is_ancestor(self@, a, x) && is_ancestor(self@, a, y)),
    {
        let _ = self.len();
        let ax = self.ancestors(x);
        let ay = self.ancestors(y);
        let n: usize = if x < y {
            x + 1
        } else {
            y + 1
        };
        proof {
            assert forall|a: usize| n <= a < self@.len() implies !(#[trigger] is_ancestor(self@, a, x) && is_ancestor(self@, a, y)) by {
                if is_ancestor(self@, a, x) && is_ancestor(self@, a, y) {
                    lemma_ancestor_not_later(self@, a, x);
                    lemma_ancestor_not_later(self@, a, y);
                }
            }
        }
        let mut k: usize = n;
        while k > 0
            invariant
                k <= n,
                n == if x < y { x + 1 } else { y + 1 },
                ax@.len() == x + 1,
                ay@.len() == y + 1,
                forall|a: usize| a <= x ==> ax@[a as int] == is_ancestor(self@, a, x),
                forall|a: usize| a <= y ==> ay@[a as int] == is_ancestor(self@, a, y),
                forall|a: usize| k <= a < self@.len() ==> !(#[trigger] is_ancestor(self@, a, x) && is_ancestor(self@, a, y)),
            decreases k,
        {
            k = k - 1;
            if ax[k] && ay[k] {
                return Some(k);
            }
        }
        None
    }

    /// The commits met following first parents from `x`, newest first, up
    /// to `stop` or a root, neither included.
    pub fn first_parent_log(&self, x: usize, stop: usize) -> (r: Vec<usize>)
        requires
            self.wf(),
        ensures
            r@ == first_parent_log(self@, x, stop),
    {
        let mut out: Vec<usize> = Vec::new();
        let mut cur = x;
        while cur < self.commits.len() && cur != stop && self.commits[cur].parents.len() > 0
            && self.commits[cur].parents[0] < cur
            invariant
                self.wf(),
                out@ + first_parent_log(self@, cur, stop) == first_parent_log(self@, x, stop),
            decreases cur,
        {
            let ghost old_out = out@;
            assert(self.commits@[cur as int]@ == self@[cur as int]);
            out.push(cur);
            let next = self.commits[cur].parents[0];
            assert(first_parent_log(self@, cur, stop) == seq![cur] + first_parent_log(self@, next, stop));
            assert(out@ + first_parent_log(self@, next, stop) =~= old_out + first_parent_log(self@, cur, stop));
            cur = next;
        }
        proof {
            if cur < self@.len() {
                assert(self.commits@[cur as int]@ == self@[cur as int]);
            }
            assert(first_parent_log(self@, cur, stop) == Seq::<usize>::empty());
            assert(out@ =~= out@ + Seq::<usize>::empty());
        }
        out
    }
}

/// An ancestor never stands after its descendant.
pub(crate) proof fn lemma_ancestor_not_later(s: Seq<CommitModel>, a: usize, c: usize)
    requires
        store_wf(s),
        c < s.len(),
        is_ancestor(s, a, c),
    ensures
        a <= c,
{
    let p = choose|p: Seq<usize>| is_path(s, p) && p[0] == c && #[trigger] p.last() == a;
    lemma_path_descends(s, p, p.len() - 1);
}

proof fn lemma_path_descends(s: Seq<CommitModel>, p: Seq<usize>, m: int)
    requires
        store_wf(s),
        is_path(s, p),
        0 <= m < p.len(),
    ensures
        p[m] <= p[0],
    decreases m,
{
    if m > 0 {
        lemma_path_descends(s, p, m - 1);
        let k = m - 1;
        assert(parent_of(s, p[k + 1], p[k]));
        let j = choose|j: int| 0 <= j < s[p[m - 1] as int].parents.len() && #[trigger] s[p[m - 1] as int].parents[j] == p[m];
        assert(s[p[m - 1] as int].parents[j] < p[m - 1]);
    }
}

/// A first-parent log holds commits of the store, at most one per id up
/// to where it starts.
pub(crate) proof fn lemma_log_bounds(s: Seq<CommitModel>, x: usize, stop: usize)
    ensures
        first_parent_log(s, x, stop).len() <= x + 1,
        first_parent_log(s, x, stop).len() <= s.len(),
        forall|k: int|
            0 <= k < first_parent_log(s, x, stop).len() ==> #[trigger] first_parent_log(s, x, stop)[k]
                < s.len(),
    decreases x,
{
    if !(x >= s.len() || x == stop || s[x as int].parents.len() == 0 || s[x as int].parents[0] >= x) {
        let p = s[x as int].parents[0];
        lemma_log_bounds(s, p, stop);
        let l = first_parent_log(s, x, stop);
        let lp = first_parent_log(s, p, stop);
        assert(l == seq![x] + lp);
        assert forall|k: int| 0 <= k < l.len() implies #[trigger] l[k] < s.len() by {
            if k > 0 {
                assert(l[k] == lp[k - 1]);
            }
        }
    }
}

} // verus!
