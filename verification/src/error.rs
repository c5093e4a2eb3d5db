//! The conditions that graph operations report.

use vstd::prelude::*;

verus! {

/// What an operation on a graph can report instead of doing its work.
#[derive(Debug, Clone, Copy, PartialEq, Eq, Structural)]
pub enum GraphError {
    /// The node to add is already in the graph; nothing was changed.
    DuplicateNode,
    /// A node named in a query is not in the graph.
    UnknownNode,
    /// The query needs a directed acyclic graph and the graph is not one.
    NotAcyclic,
}

} // verus!
