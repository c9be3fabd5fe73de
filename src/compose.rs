use vstd::prelude::*;

use crate::tree::{conflicts_at, entry, has_conflict, merge_trees, merged, Tree};

verus! {

pub open spec fn tree_views(v: Seq<Tree>) -> Seq<Seq<Option<u64>>> {
    v.map_values(|t: Tree| t@)
}

/// The heads merged one after another onto `base`, each against `base`,
/// keeping the running result's side where a merge conflicts.
pub open spec fn compose(base: Seq<Option<u64>>, heads: Seq<Seq<Option<u64>>>) -> Seq<Option<u64>>
    decreases heads.len(),
{
    if heads.len() == 0 {
        base
    } else {
        merged(base, compose(base, heads.drop_last()), heads.last())
    }
}

/// Merging head `i` onto the composition of the heads before it conflicts.
pub open spec fn step_conflicts(base: Seq<Option<u64>>, heads: Seq<Seq<Option<u64>>>, i: int) -> bool {
    has_conflict(base, compose(base, heads.take(i)), heads[i])
}

/// Some head conflicts with the composition of those before it.
pub open spec fn any_step_conflicts(base: Seq<Option<u64>>, heads: Seq<Seq<Option<u64>>>) -> bool {
    exists|i: int| 0 <= i < heads.len() && #[trigger] step_conflicts(base, heads, i)
}

/// `i` is the first head that conflicts.
pub open spec fn first_conflict(base: Seq<Option<u64>>, heads: Seq<Seq<Option<u64>>>, i: int) -> bool {
    &&& 0 <= i < heads.len()
    &&& step_conflicts(base, heads, i)
    &&& forall|j: int| 0 <= j < i ==> !#[trigger] step_conflicts(base, heads, j)
}

/// A composition that could not be made.
#[derive(Clone, Copy, Debug, PartialEq, Eq, Structural)]
pub enum ComposeError {
    /// The stack at this position conflicts with those before it.
    Conflict { stack_index: usize },
}

/// What a workspace is composed from: a base tree and the trees of the
/// applied stacks, in order.
#[derive(Debug)]
pub struct WorkspaceState {
    pub heads: Vec<Tree>,
    pub base: Tree,
}

impl WorkspaceState {
    /// A workspace state of the given base and stack trees.
    pub fn create(base: Tree, heads: Vec<Tree>) -> (r: WorkspaceState)
        ensures
            r.base@ == base@,
            tree_views(r.heads@) == tree_views(heads@),
    {
        WorkspaceState { heads, base }
    }

    /// The tree this state composes to, conflicts resolved towards the
    /// stacks that come first.
    pub open spec fn composed(&self) -> Seq<Option<u64>> {
        compose(self.base@, tree_views(self.heads@))
    }
}

/// Merges the heads one after another onto `base`. With `fail_fast`, stops
/// at the first head that conflicts and names it; otherwise never fails.
fn merge_heads(base: &Tree, heads: &Vec<Tree>, fail_fast: bool) -> (r: Result<Tree, ComposeError>)
    ensures
        fail_fast ==> (r matches Err(ComposeError::Conflict { stack_index }) ==> first_conflict(
            base@,
            tree_views(heads@),
            stack_index as int,
        )),
        fail_fast ==> (r is Ok <==> !any_step_conflicts(base@, tree_views(heads@))),
        !fail_fast ==> r is Ok,
        r matches Ok(t) ==> t@ == compose(base@, tree_views(heads@)),
{
    let ghost hv = tree_views(heads@);
    let mut output = base.copy();
    let mut i: usize = 0;
    assert(hv.take(0) =~= Seq::<Seq<Option<u64>>>::empty());
    while i < heads.len()
        invariant
            hv == tree_views(heads@),
            hv.len() == heads@.len(),
            i <= heads@.len(),
            output@ == compose(base@, hv.take(i as int)),
            fail_fast ==> forall|j: int| 0 <= j < i ==> !#[trigger] step_conflicts(base@, hv, j),
        decreases heads@.len() - i,
    {
        assert(hv[i as int] == heads@[i as int]@);
        let m = merge_trees(base, &output, &heads[i]);
        assert(hv.take(i + 1).drop_last() =~= hv.take(i as int));
        assert(hv.take(i + 1).last() == hv[i as int]);
        if fail_fast && m.conflicted {
            assert(step_conflicts(base@, hv, i as int));
            return Err(ComposeError::Conflict { stack_index: i });
        }
        output = m.tree;
        i = i + 1;
    }
    assert(hv.take(hv.len() as int) =~= hv);
    proof {
        if fail_fast && any_step_conflicts(base@, hv) {
            let j = choose|j: int| 0 <= j < hv.len() && #[trigger] step_conflicts(base@, hv, j);
            assert(!step_conflicts(base@, hv, j));
        }
    }
    Ok(output)
}

/// The working tree of a workspace: with no stack, the uncommitted tree as it
/// is; with one, that stack's tree; with more, the stacks' trees merged one
/// after another onto `base`, failing at the first stack that conflicts.
pub fn combine(base: &Tree, heads: &Vec<Tree>, uncommitted: &Tree) -> (r: Result<Tree, ComposeError>)
    ensures
        heads@.len() == 0 ==> (r matches Ok(t) && t@ == uncommitted@),
        heads@.len() == 1 ==> (r matches Ok(t) && t@ == heads@[0]@),
        heads@.len() > 1 ==> {
            &&& (r is Ok <==> !any_step_conflicts(base@, tree_views(heads@)))
            &&& (r matches Err(ComposeError::Conflict { stack_index }) ==> first_conflict(
                base@,
                tree_views(heads@),
                stack_index as int,
            ))
            &&& (r matches Ok(t) ==> t@ == compose(base@, tree_views(heads@)))
        },
{
    if heads.len() == 0 {
        Ok(uncommitted.copy())
    } else if heads.len() == 1 {
        Ok(heads[0].copy())
    } else {
        merge_heads(base, heads, true)
    }
}

/// Carries `tree`, made on top of the workspace `old`, over to the workspace
/// `new`: both are composed without failing, and the changes from the old
/// composition to `tree` are merged onto the new one, `tree`'s side kept
/// wherever they conflict.
pub fn move_tree_between_workspaces(tree: &Tree, old: &WorkspaceState, new: &WorkspaceState) -> (r: Tree)
    ensures
        r@ == merged(old.composed(), tree@, new.composed()),
{
    let old_workspace = merge_heads(&old.base, &old.heads, false);
    let new_workspace = merge_heads(&new.base, &new.heads, false);
    match (old_workspace, new_workspace) {
        (Ok(o), Ok(n)) => merge_trees(&o, tree, &n).tree,
        _ => {
            assert(false);
            Tree::new()
        },
    }
}

/// Two stacks that change one path in two different ways cannot be
/// combined: the second one is reported. Composed without failing, the
/// path keeps the first stack's content, and uncommitted edits of that path
/// carried onto such a composition are kept as they are.
pub proof fn same_path_edits_conflict_only_when_failing_fast(
    base: Seq<Option<u64>>,
    x: Seq<Option<u64>>,
    y: Seq<Option<u64>>,
    p: int,
)
    requires
        entry(x, p) != entry(y, p),
        entry(x, p) != entry(base, p),
        entry(y, p) != entry(base, p),
    ensures
        first_conflict(base, seq![x, y], 1),
        any_step_conflicts(base, seq![x, y]),
        entry(compose(base, seq![x, y]), p) == entry(x, p),
        forall|before: Seq<Option<u64>>, edits: Seq<Option<u64>>|
            #![trigger entry(before, p), entry(edits, p)]
            entry(edits, p) != entry(before, p) ==> entry(
                merged(before, edits, compose(base, seq![x, y])),
                p,
            ) == entry(edits, p),
{
    let heads = seq![x, y];
    assert(heads.take(0) =~= Seq::<Seq<Option<u64>>>::empty());
    assert(heads.take(1) =~= seq![x]);
    assert(seq![x].drop_last() =~= Seq::<Seq<Option<u64>>>::empty());
    assert(heads.drop_last() =~= seq![x]);
    let c1 = compose(base, seq![x]);
    assert(seq![x].last() == x);
    assert(compose(base, Seq::<Seq<Option<u64>>>::empty()) == base);
    assert(c1 == merged(base, base, x));
    assert(entry(c1, p) == entry(x, p)) by {
        if 0 <= p < c1.len() {
        } else {
            assert(entry(x, p) == None::<u64>);
        }
    }
    assert(!step_conflicts(base, heads, 0)) by {
        assert(compose(base, heads.take(0)) == base);
        assert forall|q: int| 0 <= q < crate::tree::merge_len(base, base, x) implies !#[trigger] conflicts_at(base, base, x, q) by {}
    }
    assert(conflicts_at(base, c1, y, p));
    assert(0 <= p) by {
        if p < 0 {
            assert(entry(x, p) == entry(base, p));
        }
    }
    assert(p < crate::tree::merge_len(base, c1, y)) by {
        if p >= crate::tree::merge_len(base, c1, y) {
            assert(entry(x, p) == entry(base, p));
        }
    }
    assert(step_conflicts(base, heads, 1));
    assert forall|j: int| 0 <= j < 1 implies !#[trigger] step_conflicts(base, heads, j) by {}
    assert(heads.last() == y);
    let c2 = compose(base, heads);
    assert(c2 == merged(base, c1, y));
    assert forall|before: Seq<Option<u64>>, edits: Seq<Option<u64>>|
        #![trigger entry(before, p), entry(edits, p)]
        entry(edits, p) != entry(before, p) implies entry(merged(before, edits, c2), p) == entry(edits, p) by {
        assert(0 <= p < crate::tree::merge_len(before, edits, c2)) by {
            if p < 0 || p >= crate::tree::merge_len(before, edits, c2) {
                assert(entry(edits, p) == entry(before, p));
            }
        }
    }
}

} // verus!
