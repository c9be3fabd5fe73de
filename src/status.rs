use vstd::prelude::*;

verus! {

/// Whether a stack's uncommitted tree can be carried onto a new target.
#[derive(Clone, Copy, Debug, PartialEq, Eq, Structural)]
pub enum TreeStatus {
    SafelyUpdatable,
    Conflicted,
    Empty,
}

/// How one branch of a stack relates to a new target.
#[derive(Clone, Copy, Debug, PartialEq, Eq, Structural)]
pub enum BranchStatus {
    SafelyUpdatable,
    Integrated,
    /// `rebasable` tells whether the branch can be rebased onto the target
    /// without conflicts.
    Conflicted { rebasable: bool },
    Empty,
}

/// How the target itself is brought up to date when it diverged.
#[derive(Clone, Copy, Debug, PartialEq, Eq, Structural)]
pub enum BaseBranchResolutionApproach {
    Rebase,
    Merge,
    HardReset,
}

/// How a stack is brought up to date with a new target.
#[derive(Clone, Copy, Debug, PartialEq, Eq, Structural)]
pub enum ResolutionApproach {
    Rebase,
    Merge,
    Unapply,
    Delete,
}

/// The status of one branch, under the branch's name.
#[derive(Debug)]
pub struct NameAndStatus {
    pub name: String,
    pub status: BranchStatus,
}

/// The status of a stack: its tree, and each of its branches in
/// dependency order. It always holds at least one branch.
#[derive(Debug)]
pub struct StackStatus {
    pub tree_status: TreeStatus,
    pub branch_statuses: Vec<NameAndStatus>,
}

/// Why a stack status could not be built.
#[derive(Clone, Copy, Debug, PartialEq, Eq, Structural)]
pub enum StatusError {
    NoBranches,
}

/// The branch statuses that `resolution_allowed` reads.
pub open spec fn statuses_of(v: Seq<NameAndStatus>) -> Seq<BranchStatus> {
    v.map_values(|n: NameAndStatus| n.status)
}

/// Every branch is already part of the target.
pub open spec fn all_integrated(s: Seq<BranchStatus>) -> bool {
    forall|i: int| 0 <= i < s.len() ==> s[i] == BranchStatus::Integrated
}

/// Which approaches are allowed for a stack with the given tree status and
/// branch statuses.
pub open spec fn resolution_allowed(
    tree: TreeStatus,
    branches: Seq<BranchStatus>,
    approach: ResolutionApproach,
) -> bool {
    if tree == TreeStatus::Empty && all_integrated(branches) {
        approach == ResolutionApproach::Unapply || approach == ResolutionApproach::Delete
    } else if branches.len() == 1 {
        approach == ResolutionApproach::Merge || approach == ResolutionApproach::Rebase
            || approach == ResolutionApproach::Unapply
    } else {
        approach == ResolutionApproach::Rebase || approach == ResolutionApproach::Unapply
    }
}

impl StackStatus {
    pub open spec fn wf(&self) -> bool {
        self.branch_statuses@.len() > 0
    }

    pub open spec fn allows(&self, approach: ResolutionApproach) -> bool {
        resolution_allowed(self.tree_status, statuses_of(self.branch_statuses@), approach)
    }

    /// Builds a stack status; a stack without branches is refused.
    pub fn create(tree_status: TreeStatus, branch_statuses: Vec<NameAndStatus>) -> (r: Result<
        StackStatus,
        StatusError,
    >)
        ensures
            branch_statuses@.len() == 0 <==> r is Err,
            r matches Ok(s) ==> s.tree_status == tree_status && s.branch_statuses@
                == branch_statuses@ && s.wf(),
    {
        if branch_statuses.len() == 0 {
            return Err(StatusError::NoBranches);
        }
        Ok(StackStatus { tree_status, branch_statuses })
    }

    /// Whether the stack holds exactly one branch.
    pub fn is_single(&self) -> (r: bool)
        ensures
            r == (self.branch_statuses@.len() == 1),
    {
        self.branch_statuses.len() == 1
    }

    /// Whether `approach` may be chosen for this stack.
    pub fn resolution_acceptable(&self, approach: &ResolutionApproach) -> (r: bool)
        ensures
            r == self.allows(*approach),
    {
        let mut all: bool = true;
        let mut i: usize = 0;
        while i < self.branch_statuses.len()
            invariant
                i <= self.branch_statuses@.len(),
                statuses_of(self.branch_statuses@).len() == self.branch_statuses@.len(),
                all == (forall|j: int|
                    0 <= j < i ==> statuses_of(self.branch_statuses@)[j]
                        == BranchStatus::Integrated),
            decreases self.branch_statuses@.len() - i,
        {
            assert(statuses_of(self.branch_statuses@)[i as int]
                == self.branch_statuses@[i as int].status);
            if self.branch_statuses[i].status != BranchStatus::Integrated {
                all = false;
            }
            i = i + 1;
        }
        assert(all == all_integrated(statuses_of(self.branch_statuses@)));
        if self.tree_status == TreeStatus::Empty && all {
            return match approach {
                ResolutionApproach::Unapply | ResolutionApproach::Delete => true,
                _ => false,
            };
        }
        if self.is_single() {
            match approach {
                ResolutionApproach::Delete => false,
                _ => true,
            }
        } else {
            match approach {
                ResolutionApproach::Rebase | ResolutionApproach::Unapply => true,
                _ => false,
            }
        }
    }
}

/// A merge is never allowed for a stack of more than one branch, whatever
/// the statuses of its tree and branches.
pub proof fn merge_needs_single_branch(tree: TreeStatus, branches: Seq<BranchStatus>)
    requires
        branches.len() > 1,
    ensures
        !resolution_allowed(tree, branches, ResolutionApproach::Merge),
{
}

} // verus!
