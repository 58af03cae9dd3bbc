use vstd::prelude::*;

verus! {

/// Fixed-point units per unit of `-ln(rate)` in edge weights.
pub const WEIGHT_SCALE: u64 = 1_000_000_000;

/// A raw edge `(from, to, weight)`, where `weight` is the edge's transformed rate
/// `-ln(rate)` in fixed-point units, so that a cycle is profitable exactly when the
/// weights along it sum to a negative number.
pub type Edge = (usize, usize, i64);

/// The `(from, to)` pair that identifies an edge for upserts.
pub open spec fn key(e: Edge) -> (usize, usize) {
    (e.0, e.1)
}

/// A directed cycle found in a graph snapshot.
///
/// `path` lists the cycle's edges in forward order: each edge ends where the next
/// one starts and the last edge ends where the first one starts. `log_rate_sum`
/// is the sum of the edges' weights.
#[derive(Debug, Clone)]
pub struct WeightedCycle {
    pub path: Vec<Edge>,
    pub log_rate_sum: i128,
}

/// Sum of the weights of a sequence of edges.
pub open spec fn weight_sum(s: Seq<Edge>) -> int
    decreases s.len(),
{
    if s.len() == 0 {
        0
    } else {
        weight_sum(s.drop_last()) + s.last().2 as int
    }
}

impl WeightedCycle {
    /// A cycle is profitable when the product of its rates exceeds one, which is
    /// when the sum of its `-ln(rate)` weights is negative.
    pub fn is_profitable(&self) -> (r: bool)
        ensures
            r == (self.log_rate_sum < 0),
    {
        self.log_rate_sum < 0
    }
}

} // verus!
