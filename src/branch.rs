//! A branch of a truth tree: statements in the order they were derived, and
//! whether the branch is closed.
use crate::ast::{same_statement, Statement};
use crate::truth_tree::TreeId;
use vstd::prelude::*;

verus! {

/// The id of a statement within its branch: its place in insertion order.
#[derive(Debug, Clone, Copy, PartialEq, Eq, Hash, Structural)]
pub struct StatementId(pub usize);

/// A statement on a branch, with the branch and statement it was derived
/// from; seed statements have no origin.
#[derive(Debug)]
pub struct BranchNode {
    pub statement: Statement,
    pub derived_from: Option<(TreeId, StatementId)>,
}

impl Clone for BranchNode {
    fn clone(&self) -> (r: Self)
        ensures
            same_statement(r.statement, self.statement),
            r.derived_from == self.derived_from,
    {
        let derived_from = match &self.derived_from {
            Some((b, s)) => Some((b.clone(), *s)),
            None => None,
        };
        BranchNode { statement: self.statement.clone(), derived_from }
    }
}

/// An ordered list of statements and a flag that, once set, stays set.
#[derive(Debug)]
pub struct Branch {
    nodes: Vec<BranchNode>,
    closed: bool,
}

impl Branch {
    /// The statements of the branch, in insertion order.
    pub closed spec fn statements(&self) -> Seq<BranchNode> {
        self.nodes@
    }

    pub closed spec fn spec_closed(&self) -> bool {
        self.closed
    }

    /// An open branch holding `nodes`.
    pub fn new(nodes: Vec<BranchNode>) -> (r: Branch)
        requires
            nodes@.len() > 0,
        ensures
            r.statements() == nodes@,
            !r.spec_closed(),
    {
        Branch { nodes, closed: false }
    }

    /// Appends a statement and returns its id.
    pub fn append_statement(&mut self, node: BranchNode) -> (r: StatementId)
        requires
            !old(self).spec_closed(),
        ensures
            final(self).statements() == old(self).statements().push(node),
            !final(self).spec_closed(),
            r.0 == old(self).statements().len(),
    {
        let id = StatementId(self.nodes.len());
        self.nodes.push(node);
        id
    }

    /// Closes the branch. Closing a closed branch changes nothing.
    pub fn close(&mut self)
        ensures
            final(self).statements() == old(self).statements(),
            final(self).spec_closed(),
    {
        self.closed = true;
    }

    pub fn is_closed(&self) -> (r: bool)
        ensures
            r == self.spec_closed(),
    {
        self.closed
    }

    /// The ids of the statements, in insertion order.
    pub fn statement_ids(&self) -> (r: Vec<StatementId>)
        ensures
            r@.len() == self.statements().len(),
            forall|k: int| 0 <= k < r@.len() ==> (#[trigger] r@[k]).0 == k,
    {
        let mut r: Vec<StatementId> = Vec::new();
        let mut i: usize = 0;
        while i < self.nodes.len()
            invariant
                i <= self.nodes.len(),
                r@.len() == i,
                forall|k: int| 0 <= k < i ==> (#[trigger] r@[k]).0 == k,
            decreases self.nodes.len() - i,
        {
            r.push(StatementId(i));
            i = i + 1;
        }
        r
    }

    /// The statement with id `id`.
    pub fn statement_from_id(&self, id: &StatementId) -> (r: &BranchNode)
        requires
            id.0 < self.statements().len(),
        ensures
            *r == self.statements()[id.0 as int],
    {
        &self.nodes[id.0]
    }
}

} // verus!
