//! The control flow of a design as a tree of statements and forks.

use vstd::prelude::*;
use crate::pdg_spec::PDGSpecNode;

verus! {

/// A statement that is active whenever control reaches it.
#[derive(Debug)]
pub struct CFGStatement {
    pub stmt: PDGSpecNode,
}

/// A fork: the predicate decides which of the two branches is active.
#[derive(Debug)]
pub struct CFGFork {
    pub predicate: PDGSpecNode,
    pub true_branch: Vec<CFGNode>,
    pub false_branch: Vec<CFGNode>,
}

/// A node of the control flow.
#[derive(Debug)]
pub enum CFGNode {
    Statement(CFGStatement),
    Fork(CFGFork),
}

/// The control flow of a design.
#[derive(Debug)]
pub struct CFG {
    pub nodes: Vec<CFGNode>,
}

} // verus!
