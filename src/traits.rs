use vstd::prelude::*;

use crate::csr::GraphCSR;
use crate::error::Error;
use crate::types::{weight_sum, Edge, WeightedCycle};

verus! {

/// Each edge of `p` ends where the next one starts, and the last edge ends where
/// the first one starts.
pub open spec fn is_closed_walk(p: Seq<Edge>) -> bool {
    &&& p.len() >= 1
    &&& forall|j: int| #![trigger p[j]] 0 <= j < p.len() - 1 ==> p[j].1 == p[j + 1].0
    &&& p.last().1 == p[0].0
}

/// Every edge of `p` is stored in `g`.
pub open spec fn in_graph(g: GraphCSR, p: Seq<Edge>) -> bool {
    forall|j: int| 0 <= j < p.len() ==> g.edges().contains(#[trigger] p[j])
}

/// Some closed walk over the edges of `g` has a negative weight sum, that is, a
/// product of rates above one.
pub open spec fn has_negative_cycle(g: GraphCSR) -> bool {
    exists|p: Seq<Edge>| is_closed_walk(p) && in_graph(g, p) && weight_sum(p) < 0
}

/// No edge of `g` has a negative weight: no rate exceeds one.
pub open spec fn nonnegative_weights(g: GraphCSR) -> bool {
    forall|i: int| 0 <= i < g.edge_count() ==> #[trigger] g.edge_weights@[i] >= 0
}

/// A solver that looks for profitable cycles in a graph snapshot.
pub trait GraphSolver {
    /// Looks for a cycle of negative weight anywhere in `graph`; `source` must be a
    /// node, and `hop_cap` is the relaxation cap of capped searches.
    ///
    /// Returns `NodeIndexOutOfBounds(source)` exactly when `source` is not a node.
    /// Otherwise returns `Ok(None)` exactly when the graph has no negative cycle, and
    /// else `Ok(Some(cycle))` with a cycle of the graph: a closed walk of at most
    /// `num_nodes` distinct edges whose weights sum to `log_rate_sum < 0`.
    fn find_profitable_cycle(&self, graph: &GraphCSR, source: usize, hop_cap: usize) -> (r: Result<
        Option<WeightedCycle>,
        Error,
    >)
        requires
            graph.wf(),
        ensures
            r is Err <==> source >= graph.num_nodes,
            source < graph.num_nodes ==> (r matches Ok(None) <==> !has_negative_cycle(*graph)),
            source < graph.num_nodes && nonnegative_weights(*graph) ==> r matches Ok(None),
            match r {
                Err(e) => e == Error::NodeIndexOutOfBounds(source),
                Ok(None) => !has_negative_cycle(*graph),
                Ok(Some(cycle)) => {
                    &&& is_closed_walk(cycle.path@)
                    &&& in_graph(*graph, cycle.path@)
                    &&& cycle.path@.len() <= graph.num_nodes
                    &&& forall|a: int, b: int|
                        0 <= a < b < cycle.path@.len() ==> #[trigger] cycle.path@[a] != #[trigger] cycle.path@[b]
                    &&& cycle.log_rate_sum == weight_sum(cycle.path@)
                    &&& cycle.log_rate_sum < 0
                },
            },
    ;
}

} // verus!
