use vstd::prelude::*;

use crate::csr::GraphCSR;
use crate::error::Error;
use crate::traits::{has_negative_cycle, in_graph, is_closed_walk, GraphSolver};
use crate::types::{weight_sum, Edge, WeightedCycle};

verus! {

/// What one periodic search made of a snapshot.
pub enum SearchOutcome {
    /// The snapshot has at most one node; no search ran.
    GraphTooSmall,
    /// A profitable cycle.
    Found(WeightedCycle),
    /// The snapshot has no profitable cycle.
    NoCycle,
    /// The search failed; the searcher goes on at the next tick.
    Failed(Error),
}

/// One tick of the searcher on a snapshot: graphs of at most one node are skipped,
/// otherwise the solver runs from node 0 with a relaxation cap of one more than the
/// node count. On a well-formed snapshot the search does not fail: it finds a
/// profitable cycle exactly when the snapshot has one.
pub fn search_snapshot<S: GraphSolver>(solver: &S, graph: &GraphCSR) -> (r: SearchOutcome)
    requires
        graph.wf(),
    ensures
        graph.num_nodes <= 1 <==> r is GraphTooSmall,
        graph.num_nodes > 1 ==> !(r is Failed),
        graph.num_nodes > 1 ==> (r is NoCycle <==> !has_negative_cycle(*graph)),
        match r {
            SearchOutcome::GraphTooSmall => true,
            SearchOutcome::Found(cycle) => {
                &&& is_closed_walk(cycle.path@)
                &&& in_graph(*graph, cycle.path@)
                &&& cycle.path@.len() <= graph.num_nodes
                &&& forall|a: int, b: int|
                    0 <= a < b < cycle.path@.len() ==> #[trigger] cycle.path@[a] != #[trigger] cycle.path@[b]
                &&& cycle.log_rate_sum == weight_sum(cycle.path@)
                &&& cycle.log_rate_sum < 0
            },
            SearchOutcome::NoCycle => !has_negative_cycle(*graph),
            SearchOutcome::Failed(_) => false,
        },
{
    let n = graph.num_nodes;
    if n <= 1 {
        return SearchOutcome::GraphTooSmall;
    }
    match solver.find_profitable_cycle(graph, 0, n + 1) {
        Ok(Some(cycle)) => SearchOutcome::Found(cycle),
        Ok(None) => SearchOutcome::NoCycle,
        Err(e) => SearchOutcome::Failed(e),
    }
}

/// The writer's buffer of received edge updates, flushed to the graph once it
/// holds `batch_capacity` edges.
pub struct BatchBuffer {
    batch_buffer: Vec<Edge>,
    batch_capacity: usize,
}

impl BatchBuffer {
    /// The buffered edges, oldest first.
    pub closed spec fn pending(&self) -> Seq<Edge> {
        self.batch_buffer@
    }

    /// The flush threshold.
    pub closed spec fn capacity(&self) -> usize {
        self.batch_capacity
    }

    pub fn new(batch_capacity: usize) -> (r: Self)
        ensures
            r.pending().len() == 0,
            r.capacity() == batch_capacity,
    {
        BatchBuffer { batch_buffer: Vec::new(), batch_capacity }
    }

    /// Appends a received batch; returns whether the buffer is due for a flush.
    pub fn push_batch(&mut self, batch: Vec<Edge>) -> (flush: bool)
        ensures
            final(self).pending() == old(self).pending() + batch@,
            final(self).capacity() == old(self).capacity(),
            flush == (final(self).pending().len() >= final(self).capacity()),
    {
        let mut batch = batch;
        self.batch_buffer.append(&mut batch);
        self.batch_buffer.len() >= self.batch_capacity
    }

    /// Whether nothing is buffered.
    pub fn is_empty(&self) -> (r: bool)
        ensures
            r == (self.pending().len() == 0),
    {
        self.batch_buffer.len() == 0
    }

    /// Takes all buffered edges out, leaving the buffer empty.
    pub fn take(&mut self) -> (r: Vec<Edge>)
        ensures
            r@ == old(self).pending(),
            final(self).pending().len() == 0,
            final(self).capacity() == old(self).capacity(),
    {
        let mut taken: Vec<Edge> = Vec::new();
        std::mem::swap(&mut self.batch_buffer, &mut taken);
        taken
    }
}

} // verus!
