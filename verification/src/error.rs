use vstd::prelude::*;

verus! {

/// Why a request on a path or a search could not be answered.
#[derive(Clone, Copy, Debug, PartialEq, Eq, Structural)]
pub enum PathError {
    /// The node is no end node of any edge of the graph.
    UnknownNode(i32),
    /// No edge joins the two nodes, which follow each other in a path.
    EdgeNotFound(i32, i32),
    /// The search was still running when the rounds it was given ran out.
    RoundLimit,
}

} // verus!
