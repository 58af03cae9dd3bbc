use vstd::prelude::*;

use crate::types::Edge;

verus! {

/// Where the pipeline's edge updates come from.
pub enum DataSource {
    /// The synthetic simulator.
    SIM,
    /// A CSV file at the given path.
    CSV(String),
}

/// Reads edge updates from a CSV file and forwards them in batches.
pub struct CsvStreamer {
    path: String,
    batch_size: usize,
}

/// Generates random edge updates between `total_nodes` nodes, `batch_size` per tick.
pub struct SimulatorStreamer {
    pub total_nodes: usize,
    pub batch_size: usize,
}

/// The concatenation of a sequence of batches.
pub open spec fn flatten(b: Seq<Vec<Edge>>) -> Seq<Edge>
    decreases b.len(),
{
    if b.len() == 0 {
        Seq::empty()
    } else {
        flatten(b.drop_last()) + b.last()@
    }
}

impl CsvStreamer {
    /// The path, as characters.
    pub closed spec fn path_view(&self) -> Seq<char> {
        self.path@
    }

    /// The batch size.
    pub closed spec fn batch_size_view(&self) -> usize {
        self.batch_size
    }

    pub fn new(path: String, batch_size: usize) -> (r: Self)
        ensures
            r.path_view() == path@,
            r.batch_size_view() == batch_size,
    {
        CsvStreamer { path, batch_size }
    }

    /// The file the edges are read from.
    pub fn path(&self) -> (r: &String)
        ensures
            r@ == self.path_view(),
    {
        &self.path
    }

    /// Number of edges per forwarded batch.
    pub fn batch_size(&self) -> (r: usize)
        ensures
            r == self.batch_size_view(),
    {
        self.batch_size
    }

    /// Cuts the parsed edges into consecutive batches of `batch_size` edges; only
    /// the last batch may be shorter, and none is empty.
    pub fn into_batches(&self, edges: Vec<Edge>) -> (r: Vec<Vec<Edge>>)
        requires
            self.batch_size_view() > 0,
        ensures
            flatten(r@) == edges@,
            forall|k: int| 0 <= k < r@.len() ==> 0 < (#[trigger] r@[k])@.len() <= self.batch_size_view(),
            forall|k: int| 0 <= k < r@.len() - 1 ==> (#[trigger] r@[k])@.len() == self.batch_size_view(),
    {
        let n = edges.len();
        let size = self.batch_size;
        let mut batches: Vec<Vec<Edge>> = Vec::new();
        let mut current: Vec<Edge> = Vec::new();
        let mut i: usize = 0;
        while i < n
            invariant
                size == self.batch_size,
                size > 0,
                n == edges@.len(),
                0 <= i <= n,
                flatten(batches@) + current@ == edges@.subrange(0, i as int),
                current@.len() < size,
                forall|k: int| 0 <= k < batches@.len() ==> (#[trigger] batches@[k])@.len() == size,
            decreases n - i,
        {
            current.push(edges[i]);
            i = i + 1;
            assert(edges@.subrange(0, i as int) =~= edges@.subrange(0, i - 1).push(edges@[i - 1]));
            if current.len() == size {
                let ghost b0 = batches@;
                let mut full: Vec<Edge> = Vec::new();
                std::mem::swap(&mut current, &mut full);
                batches.push(full);
                assert(batches@.drop_last() == b0);
                assert(flatten(batches@) + current@ =~= flatten(b0) + full@);
            }
        }
        assert(edges@.subrange(0, n as int) =~= edges@);
        if current.len() > 0 {
            let ghost b0 = batches@;
            batches.push(current);
            assert(batches@.drop_last() == b0);
        } else {
            assert(flatten(batches@) =~= flatten(batches@) + current@);
        }
        batches
    }
}

} // verus!
