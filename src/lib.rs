//! A workspace engine for several stacks of branches sharing one working
//! tree: three-way tree merges, a rebase that records conflicts in commits
//! instead of stopping, the composition of the applied stacks, applying a
//! stack, and bringing stacks up to date with a moving target.
use vstd::prelude::*;

pub mod base;
pub mod branch_manager;
pub mod commits;
pub mod compose;
pub mod graph;
pub mod integration;
pub mod rebase;
pub mod stack;
pub mod stack_rebase;
pub mod status;
pub mod store;
pub mod tree;
pub mod upstream;

verus! {

} // verus!
