//! The failures that the library reports.

use vstd::prelude::*;

verus! {

/// Why a graph could not be built or analysed.
#[derive(Debug, Clone, Copy, PartialEq, Eq, Structural)]
pub enum GraphError {
    /// The list of source nodes is empty, so there is no largest identifier
    /// to size the adjacency list by.
    InvalidInput,
    /// The adjacency list has no node.
    EmptyGraph,
}

} // verus!
