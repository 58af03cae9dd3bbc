use vstd::prelude::*;

verus! {

/// Failures of graph queries and of cycle reconstruction.
#[derive(Debug, Clone, Copy, PartialEq, Eq, Structural)]
pub enum Error {
    /// A query referenced a node at or beyond the graph's node count.
    NodeIndexOutOfBounds(usize),
    /// A structural inconsistency, such as an edge index past the edge arrays.
    InvalidGraph,
    /// A predecessor chain was broken while tracing a cycle.
    CycleReconstructionFailed,
}

impl Error {
    /// Human-readable description of the failure.
    pub fn message(&self) -> (r: String)
        ensures
            r@ == match self {
                Error::NodeIndexOutOfBounds(_) => "Node index is out of bounds."@,
                Error::InvalidGraph => "Graph structure is invalid or inconsistent."@,
                Error::CycleReconstructionFailed =>
                    "Cycle path reconstruction failed due to broken predecessor chain."@,
            },
    {
        match self {
            Error::NodeIndexOutOfBounds(_) => String::from_str("Node index is out of bounds."),
            Error::InvalidGraph => String::from_str("Graph structure is invalid or inconsistent."),
            Error::CycleReconstructionFailed => String::from_str(
                "Cycle path reconstruction failed due to broken predecessor chain.",
            ),
        }
    }
}

} // verus!
