use vstd::prelude::*;

use std::collections::VecDeque;

use crate::csr::{lemma_source_iff_in_block, GraphCSR};
use crate::error::Error;
use crate::traits::{has_negative_cycle, in_graph, is_closed_walk, nonnegative_weights, GraphSolver};
use crate::types::{weight_sum, Edge, WeightedCycle};

verus! {

/// One step back from node `x` along its predecessor edge: the edge's source, or
/// the error met on the way (no predecessor, or an index past the edges).
pub open spec fn back_step(g: GraphCSR, pred: Seq<Option<usize>>, x: int) -> Result<int, Error> {
    match pred[x] {
        None => Err(Error::CycleReconstructionFailed),
        Some(i) => if i < g.edge_count() {
            Ok(g.edge_source_by_index@[i as int] as int)
        } else {
            Err(Error::InvalidGraph)
        },
    }
}

/// The node reached from `x` after `k` steps back along predecessor edges, or the
/// first error met on the way.
pub open spec fn back_walk(g: GraphCSR, pred: Seq<Option<usize>>, x: int, k: nat) -> Result<
    int,
    Error,
>
    decreases k,
{
    if k == 0 {
        Ok(x)
    } else {
        match back_walk(g, pred, x, (k - 1) as nat) {
            Ok(y) => back_step(g, pred, y),
            Err(e) => Err(e),
        }
    }
}

/// The node `k` steps back from `x`, where that walk succeeds.
pub open spec fn back_node(g: GraphCSR, pred: Seq<Option<usize>>, x: int, k: nat) -> int {
    back_walk(g, pred, x, k)->Ok_0
}

/// The predecessor edge recorded for node `x`.
pub open spec fn pred_edge(pred: Seq<Option<usize>>, x: int) -> int {
    pred[x]->Some_0 as int
}

/// `len` steps back from `c` lead to `c` again, and no fewer steps do.
pub open spec fn first_return(g: GraphCSR, pred: Seq<Option<usize>>, c: int, len: nat) -> bool {
    &&& len >= 1
    &&& back_walk(g, pred, c, len) == Ok::<int, Error>(c)
    &&& forall|k: nat| 1 <= k < len ==> #[trigger] back_walk(g, pred, c, k) != Ok::<int, Error>(c)
}

/// The edges of the predecessor cycle through `c` of length `len`, in forward
/// order: edge `j` is the predecessor edge of the node `len - 1 - j` steps back.
pub open spec fn cycle_path(g: GraphCSR, pred: Seq<Option<usize>>, c: int, len: nat) -> Seq<Edge> {
    Seq::new(
        len,
        |j: int| g.edge_at(pred_edge(pred, back_node(g, pred, c, (len - 1 - j) as nat))),
    )
}

/// The nodes met walking back from node `x` stay nodes of the graph.
pub open spec fn pred_in_range(g: GraphCSR, pred: Seq<Option<usize>>) -> bool {
    &&& pred.len() >= g.num_nodes
    &&& forall|i: int| 0 <= i < g.edge_count() ==> (#[trigger] g.edge_source_by_index@[i] as int) < g.num_nodes
}

proof fn lemma_back_walk_split(g: GraphCSR, pred: Seq<Option<usize>>, x: int, a: nat, b: nat)
    requires
        back_walk(g, pred, x, a) is Ok,
    ensures
        back_walk(g, pred, x, a + b) == back_walk(g, pred, back_node(g, pred, x, a), b),
    decreases b,
{
    if b > 0 {
        lemma_back_walk_split(g, pred, x, a, (b - 1) as nat);
        assert((a + b - 1) as nat == a + (b - 1) as nat);
    }
}

proof fn lemma_back_walk_prefix_ok(g: GraphCSR, pred: Seq<Option<usize>>, x: int, a: nat, b: nat)
    requires
        a <= b,
        back_walk(g, pred, x, b) is Ok,
    ensures
        back_walk(g, pred, x, a) is Ok,
    decreases b - a,
{
    if a < b {
        lemma_back_walk_prefix_ok(g, pred, x, a, (b - 1) as nat);
    }
}

proof fn lemma_back_walk_err(g: GraphCSR, pred: Seq<Option<usize>>, x: int, a: nat, b: nat)
    requires
        a <= b,
        back_walk(g, pred, x, a) is Err,
    ensures
        back_walk(g, pred, x, b) == back_walk(g, pred, x, a),
    decreases b - a,
{
    if a < b {
        lemma_back_walk_err(g, pred, x, a, (b - 1) as nat);
    }
}

proof fn lemma_back_walk_in_range(g: GraphCSR, pred: Seq<Option<usize>>, x: int, k: nat)
    requires
        pred_in_range(g, pred),
        0 <= x < g.num_nodes,
        back_walk(g, pred, x, k) is Ok,
    ensures
        0 <= back_node(g, pred, x, k) < g.num_nodes,
    decreases k,
{
    if k > 0 {
        lemma_back_walk_prefix_ok(g, pred, x, (k - 1) as nat, k);
        lemma_back_walk_in_range(g, pred, x, (k - 1) as nat);
    }
}

/// Among `n + 1` values below `n`, two are equal.
proof fn lemma_pigeonhole(s: Seq<int>, n: int) -> (r: (int, int))
    requires
        n >= 0,
        s.len() == n + 1,
        forall|i: int| 0 <= i < s.len() ==> 0 <= #[trigger] s[i] < n,
    ensures
        0 <= r.0 < r.1 < s.len(),
        s[r.0] == s[r.1],
    decreases n,
{
    let v = s[n];
    if exists|i: int| 0 <= i < n && s[i] == v {
        let i = choose|i: int| 0 <= i < n && s[i] == v;
        (i, n)
    } else {
        let t = Seq::new(n as nat, |i: int| if s[i] > v { s[i] - 1 } else { s[i] });
        assert forall|i: int| 0 <= i < t.len() implies 0 <= #[trigger] t[i] < n - 1 by {
            assert(s[i] != v);
        }
        let (a, b) = lemma_pigeonhole(t, n - 1);
        assert(s[a] != v && s[b] != v);
        (a, b)
    }
}

/// Walking back `n` steps from a node of an `n`-node graph ends on a cycle of
/// predecessor edges of length at most `n`.
proof fn lemma_walk_reaches_cycle(g: GraphCSR, pred: Seq<Option<usize>>, x: int) -> (p: nat)
    requires
        pred_in_range(g, pred),
        0 <= x < g.num_nodes,
        back_walk(g, pred, x, g.num_nodes as nat) is Ok,
    ensures
        1 <= p <= g.num_nodes,
        back_walk(g, pred, back_node(g, pred, x, g.num_nodes as nat), p) == Ok::<int, Error>(
            back_node(g, pred, x, g.num_nodes as nat),
        ),
{
    let n = g.num_nodes as int;
    let s = Seq::new((n + 1) as nat, |t: int| back_node(g, pred, x, t as nat));
    assert forall|t: int| 0 <= t < s.len() implies 0 <= #[trigger] s[t] < n by {
        lemma_back_walk_prefix_ok(g, pred, x, t as nat, n as nat);
        lemma_back_walk_in_range(g, pred, x, t as nat);
    }
    let (a, b) = lemma_pigeonhole(s, n);
    let p = (b - a) as nat;
    let c = back_node(g, pred, x, n as nat);
    lemma_back_walk_prefix_ok(g, pred, x, a as nat, n as nat);
    lemma_back_walk_prefix_ok(g, pred, x, b as nat, n as nat);
    // From the repeated node, walking n - a steps or n - a + p steps ends at the same place.
    let m = (n - a) as nat;
    lemma_back_walk_split(g, pred, x, a as nat, m);
    lemma_back_walk_split(g, pred, x, b as nat, m);
    assert(a as nat + m == n as nat);
    assert(b as nat + m == (n + p) as nat);
    lemma_back_walk_split(g, pred, x, n as nat, p);
    assert(n as nat + p == (n + p) as nat);
    p
}

/// Solver for profitable cycles by label-correcting shortest paths (SPFA) with a
/// per-node relaxation cap.
pub struct SPFASolver;

impl SPFASolver {
    /// Traces the cycle of predecessor edges through node `start`.
    ///
    /// It first walks `num_nodes` steps back from `start`, which ends on a cycle,
    /// then follows predecessor edges from that node until it comes back, and
    /// returns that cycle's edges in forward order with the sum of their weights.
    /// Fails with `InvalidGraph` when `start` is not a node or a predecessor index
    /// lies past the edges, and with `CycleReconstructionFailed` when a node on the
    /// way has no predecessor.
    pub fn reconstruct_cycle(
        &self,
        start: usize,
        pred_edge_idx: &[Option<usize>],
        graph: &GraphCSR,
    ) -> (r: Result<WeightedCycle, Error>)
        requires
            graph.wf(),
            pred_edge_idx@.len() >= graph.num_nodes,
        ensures
            start >= graph.num_nodes ==> r == Err::<WeightedCycle, Error>(Error::InvalidGraph),
            start < graph.num_nodes ==> match back_walk(
                *graph,
                pred_edge_idx@,
                start as int,
                graph.num_nodes as nat,
            ) {
                Err(e) => r == Err::<WeightedCycle, Error>(e),
                Ok(c) => match r {
                    Ok(cycle) => {
                        &&& cycle.path@.len() <= graph.num_nodes
                        &&& first_return(*graph, pred_edge_idx@, c, cycle.path@.len())
                        &&& cycle.path@ == cycle_path(*graph, pred_edge_idx@, c, cycle.path@.len())
                        &&& cycle.log_rate_sum == weight_sum(cycle.path@)
                    },
                    Err(_) => false,
                },
            },
    {
        let ghost g = *graph;
        let ghost pred = pred_edge_idx@;
        let num_nodes = graph.num_nodes;
        if start >= num_nodes {
            return Err(Error::InvalidGraph);
        }
        proof {
            assert forall|i: int| 0 <= i < g.edge_count() implies (#[trigger] g.edge_source_by_index@[i]
                as int) < g.num_nodes by {
                assert(g.edges()[i] == g.edge_at(i));
            }
        }
        let mut trace_node = start;
        let mut step: usize = 0;
        while step < num_nodes
            invariant
                g == *graph,
                pred == pred_edge_idx@,
                graph.wf(),
                pred_in_range(g, pred),
                num_nodes == g.num_nodes,
                start < num_nodes,
                0 <= step <= num_nodes,
                trace_node < num_nodes,
                back_walk(g, pred, start as int, step as nat) == Ok::<int, Error>(trace_node as int),
            decreases num_nodes - step,
        {
            let edge_idx = match pred_edge_idx[trace_node] {
                Some(i) => i,
                None => {
                    proof {
                        lemma_back_walk_err(g, pred, start as int, (step + 1) as nat, num_nodes as nat);
                    }
                    return Err(Error::CycleReconstructionFailed);
                },
            };
            trace_node = match graph.get_edge_source_node(edge_idx) {
                Ok(u) => u,
                Err(e) => {
                    proof {
                        lemma_back_walk_err(g, pred, start as int, (step + 1) as nat, num_nodes as nat);
                    }
                    return Err(e);
                },
            };
            step = step + 1;
        }
        let cycle_start_node = trace_node;
        let ghost c = cycle_start_node as int;
        let ghost p = lemma_walk_reaches_cycle(g, pred, start as int);

        let mut cycle_edge_indices: Vec<usize> = Vec::new();
        let mut current_node = cycle_start_node;
        let ghost mut k: nat = 0;
        loop
            invariant_except_break
                k < p,
                forall|t: nat| 1 <= t <= k ==> #[trigger] back_walk(g, pred, c, t) != Ok::<int, Error>(c),
            invariant
                g == *graph,
                pred == pred_edge_idx@,
                graph.wf(),
                pred_in_range(g, pred),
                num_nodes == g.num_nodes,
                c == cycle_start_node as int,
                0 <= c < num_nodes,
                1 <= p <= num_nodes,
                back_walk(g, pred, c, p) == Ok::<int, Error>(c),
                k <= p,
                cycle_edge_indices@.len() == k,
                back_walk(g, pred, c, k) == Ok::<int, Error>(current_node as int),
                forall|t: int|
                    0 <= t < k ==> #[trigger] cycle_edge_indices@[t] as int == pred_edge(
                        pred,
                        back_node(g, pred, c, t as nat),
                    ) && cycle_edge_indices@[t] < g.edge_count(),
            ensures
                first_return(g, pred, c, cycle_edge_indices@.len()),
                cycle_edge_indices@.len() <= num_nodes,
                forall|t: int|
                    0 <= t < cycle_edge_indices@.len() ==> #[trigger] cycle_edge_indices@[t] as int
                        == pred_edge(pred, back_node(g, pred, c, t as nat)) && cycle_edge_indices@[t]
                        < g.edge_count(),
            decreases p - k,
        {
            proof {
                lemma_back_walk_prefix_ok(g, pred, c, (k + 1) as nat, p);
                lemma_back_walk_in_range(g, pred, c, k);
            }
            let edge_idx = match pred_edge_idx[current_node] {
                Some(i) => i,
                None => {
                    proof {
                        assert(false);
                    }
                    return Err(Error::CycleReconstructionFailed);
                },
            };
            let ghost prev = current_node as int;
            cycle_edge_indices.push(edge_idx);
            current_node = graph.edge_source_by_index[edge_idx];
            proof {
                assert(back_step(g, pred, prev) == Ok::<int, Error>(current_node as int));
                assert(back_walk(g, pred, c, (k + 1) as nat) == Ok::<int, Error>(current_node as int));
                k = k + 1;
            }
            if current_node == cycle_start_node {
                break;
            }
            proof {
                assert(back_walk(g, pred, c, k) != Ok::<int, Error>(c));
            }
        }

        let len = cycle_edge_indices.len();
        let mut path: Vec<Edge> = Vec::new();
        let mut log_rate_sum: i128 = 0;
        let mut j: usize = 0;
        while j < len
            invariant
                g == *graph,
                graph.wf(),
                len == cycle_edge_indices@.len(),
                len <= num_nodes,
                num_nodes == g.num_nodes,
                0 <= j <= len,
                forall|t: int| 0 <= t < len ==> #[trigger] cycle_edge_indices@[t] < g.edge_count(),
                path@.len() == j,
                forall|t: int|
                    0 <= t < j ==> #[trigger] path@[t] == g.edge_at(
                        cycle_edge_indices@[len - 1 - t] as int,
                    ),
                log_rate_sum == weight_sum(path@),
                -(j as int) * 0x8000_0000_0000_0000 <= log_rate_sum <= (j as int) * 0x8000_0000_0000_0000,
            decreases len - j,
        {
            let edge_idx = cycle_edge_indices[len - 1 - j];
            let weight = graph.edge_weights[edge_idx];
            let v = graph.edge_targets[edge_idx];
            let u = graph.edge_source_by_index[edge_idx];
            let ghost before = path@;
            path.push((u, v, weight));
            assert(path@.drop_last() == before);
            log_rate_sum = log_rate_sum + weight as i128;
            j = j + 1;
        }
        proof {
            assert forall|t: int| 0 <= t < len implies #[trigger] path@[t] == cycle_path(g, pred, c, len as nat)[t] by {
                let x = back_node(g, pred, c, (len - 1 - t) as nat);
                assert(cycle_edge_indices@[len - 1 - t] as int == pred_edge(pred, x));
            }
            assert(path@ =~= cycle_path(g, pred, c, len as nat));
        }
        Ok(WeightedCycle { path, log_rate_sum })
    }
}

/// Sum of the labels in `s`.
pub open spec fn label_sum(s: Seq<i128>) -> int
    decreases s.len(),
{
    if s.len() == 0 {
        0
    } else {
        label_sum(s.drop_last()) + s.last()
    }
}

proof fn lemma_label_sum_update(s: Seq<i128>, i: int, v: i128)
    requires
        0 <= i < s.len(),
    ensures
        label_sum(s.update(i, v)) == label_sum(s) - s[i] + v,
    decreases s.len(),
{
    let t = s.update(i, v);
    if i == s.len() - 1 {
        assert(t.drop_last() =~= s.drop_last());
    } else {
        lemma_label_sum_update(s.drop_last(), i, v);
        assert(t.drop_last() =~= s.drop_last().update(i, v));
    }
}

proof fn lemma_label_sum_bound(s: Seq<i128>, c: int)
    requires
        forall|i: int| 0 <= i < s.len() ==> #[trigger] s[i] >= c,
    ensures
        label_sum(s) >= s.len() * c,
    decreases s.len(),
{
    if s.len() > 0 {
        lemma_label_sum_bound(s.drop_last(), c);
        assert(s.last() >= c);
        assert((s.len() - 1) * c + c == s.len() * c) by (nonlinear_arith);
    }
}

/// Labels `dist` under which no edge of `g` can be relaxed bound the weight of every
/// walk over the edges of `g` from below.
proof fn lemma_walk_potential(g: GraphCSR, dist: Seq<i128>, p: Seq<Edge>)
    requires
        g.wf(),
        dist.len() == g.num_nodes,
        forall|i: int|
            0 <= i < g.edge_count() ==> dist[#[trigger] g.edge_targets@[i] as int] <= dist[g.edge_source_by_index@[i] as int]
                + g.edge_weights@[i],
        p.len() >= 1,
        in_graph(g, p),
        forall|j: int| #![trigger p[j]] 0 <= j < p.len() - 1 ==> p[j].1 == p[j + 1].0,
    ensures
        weight_sum(p) >= dist[p.last().1 as int] - dist[p[0].0 as int],
    decreases p.len(),
{
    let e = p.last();
    assert(g.edges().contains(p[p.len() - 1]));
    let i = choose|i: int| 0 <= i < g.edges().len() && g.edges()[i] == e;
    assert(g.edge_at(i) == e);
    assert(dist[g.edge_targets@[i] as int] <= dist[g.edge_source_by_index@[i] as int] + g.edge_weights@[i]);
    if p.len() > 1 {
        let q = p.drop_last();
        assert forall|j: int| 0 <= j < q.len() implies g.edges().contains(#[trigger] q[j]) by {
            assert(q[j] == p[j]);
        }
        assert forall|j: int| #![trigger q[j]] 0 <= j < q.len() - 1 implies q[j].1 == q[j + 1].0 by {
            assert(q[j] == p[j]);
            assert(q[j + 1] == p[j + 1]);
        }
        lemma_walk_potential(g, dist, q);
        assert(q.last() == p[p.len() - 2]);
        assert(p[p.len() - 2].1 == p[p.len() - 1].0);
    } else {
        assert(weight_sum(p.drop_last()) == 0);
    }
}

/// Predecessor edges that end at their node.
pub open spec fn pred_consistent(g: GraphCSR, pred: Seq<Option<usize>>) -> bool {
    forall|v: int|
        0 <= v < g.num_nodes ==> (#[trigger] pred[v] is Some ==> pred_edge(pred, v) < g.edge_count()
            && g.edge_targets@[pred_edge(pred, v)] == v)
}

/// With consistent predecessors, the predecessor cycle through `c` is a closed walk
/// over the graph's edges.
proof fn lemma_pred_cycle_closed(g: GraphCSR, pred: Seq<Option<usize>>, c: int, len: nat)
    requires
        g.wf(),
        pred_in_range(g, pred),
        pred_consistent(g, pred),
        0 <= c < g.num_nodes,
        first_return(g, pred, c, len),
    ensures
        is_closed_walk(cycle_path(g, pred, c, len)),
        in_graph(g, cycle_path(g, pred, c, len)),
{
    let p = cycle_path(g, pred, c, len);
    // Node t steps back, its predecessor edge, and where that edge starts.
    assert forall|t: int| 0 <= t < len implies {
        let x = #[trigger] back_node(g, pred, c, t as nat);
        let e = pred_edge(pred, x);
        &&& 0 <= x < g.num_nodes
        &&& 0 <= e < g.edge_count()
        &&& g.edge_targets@[e] == x
        &&& g.edge_source_by_index@[e] as int == back_node(g, pred, c, (t + 1) as nat)
    } by {
        lemma_back_walk_prefix_ok(g, pred, c, (t + 1) as nat, len);
        lemma_back_walk_prefix_ok(g, pred, c, t as nat, len);
        lemma_back_walk_in_range(g, pred, c, t as nat);
        let x = back_node(g, pred, c, t as nat);
        assert(pred[x] is Some);
    }
    assert forall|j: int| #![trigger p[j]] 0 <= j < p.len() - 1 implies p[j].1 == p[j + 1].0 by {
        let t = len - 1 - j;
        assert(back_node(g, pred, c, (t - 1) as nat) == back_node(g, pred, c, (len - 1 - (j + 1)) as nat));
        assert(((t - 1) + 1) as nat == t as nat);
    }
    assert(back_node(g, pred, c, len) == c);
    assert(back_node(g, pred, c, 0) == c);
    assert(((len - 1) + 1) as nat == len);
    assert(p[0] == g.edge_at(pred_edge(pred, back_node(g, pred, c, (len - 1) as nat))));
    assert(p.last() == g.edge_at(pred_edge(pred, back_node(g, pred, c, 0))));
    assert forall|j: int| 0 <= j < p.len() implies g.edges().contains(#[trigger] p[j]) by {
        let x = back_node(g, pred, c, (len - 1 - j) as nat);
        let e = pred_edge(pred, x);
        assert(g.edges()[e] == p[j]);
    }
}

/// Sum of the weights of the predecessor edges met in the first `k` steps back
/// from `x`.
pub open spec fn walk_weight(g: GraphCSR, pred: Seq<Option<usize>>, x: int, k: nat) -> int
    decreases k,
{
    if k == 0 {
        0
    } else {
        walk_weight(g, pred, x, (k - 1) as nat) + g.edge_weights@[pred_edge(
            pred,
            back_node(g, pred, x, (k - 1) as nat),
        )]
    }
}

/// Every closed walk along predecessor edges has a negative weight.
#[verifier::opaque]
pub open spec fn pred_cycles_negative(g: GraphCSR, pred: Seq<Option<usize>>) -> bool {
    forall|x: int, k: nat|
        0 <= x < g.num_nodes && k >= 1 && #[trigger] back_walk(g, pred, x, k) == Ok::<int, Error>(x)
            ==> walk_weight(g, pred, x, k) < 0
}

proof fn lemma_walk_weight_split(g: GraphCSR, pred: Seq<Option<usize>>, x: int, a: nat, b: nat)
    requires
        back_walk(g, pred, x, a) is Ok,
    ensures
        walk_weight(g, pred, x, a + b) == walk_weight(g, pred, x, a) + walk_weight(
            g,
            pred,
            back_node(g, pred, x, a),
            b,
        ),
    decreases b,
{
    if b > 0 {
        lemma_walk_weight_split(g, pred, x, a, (b - 1) as nat);
        lemma_back_walk_split(g, pred, x, a, (b - 1) as nat);
        assert((a + b - 1) as nat == a + (b - 1) as nat);
    }
}

/// A closed walk read from any node on it has the same length and weight.
proof fn lemma_rotate(g: GraphCSR, pred: Seq<Option<usize>>, x: int, k: nat, t: nat)
    requires
        t <= k,
        back_walk(g, pred, x, k) == Ok::<int, Error>(x),
    ensures
        back_walk(g, pred, back_node(g, pred, x, t), k) == Ok::<int, Error>(back_node(g, pred, x, t)),
        walk_weight(g, pred, back_node(g, pred, x, t), k) == walk_weight(g, pred, x, k),
{
    let y = back_node(g, pred, x, t);
    let r = (k - t) as nat;
    lemma_back_walk_prefix_ok(g, pred, x, t, k);
    lemma_back_walk_split(g, pred, x, t, r);
    lemma_walk_weight_split(g, pred, x, t, r);
    assert(t + r == k);
    lemma_back_walk_split(g, pred, y, r, t);
    lemma_walk_weight_split(g, pred, y, r, t);
    assert(r + t == k);
}

/// Walks that never leave from `v` see the same predecessors before and after
/// `v`'s predecessor changes.
proof fn lemma_walk_agree(
    g: GraphCSR,
    pred: Seq<Option<usize>>,
    new_pred: Seq<Option<usize>>,
    v: int,
    x: int,
    k: nat,
)
    requires
        pred_in_range(g, new_pred),
        0 <= x < g.num_nodes,
        0 <= v < pred.len(),
        new_pred.len() == pred.len(),
        forall|y: int| 0 <= y < pred.len() && y != v ==> new_pred[y] == pred[y],
        back_walk(g, new_pred, x, k) is Ok,
        forall|t: nat| t < k ==> #[trigger] back_node(g, new_pred, x, t) != v,
    ensures
        back_walk(g, pred, x, k) == back_walk(g, new_pred, x, k),
        walk_weight(g, pred, x, k) == walk_weight(g, new_pred, x, k),
    decreases k,
{
    if k > 0 {
        let k1 = (k - 1) as nat;
        lemma_back_walk_prefix_ok(g, new_pred, x, k1, k);
        lemma_walk_agree(g, pred, new_pred, v, x, k1);
        lemma_back_walk_in_range(g, new_pred, x, k1);
        let y = back_node(g, new_pred, x, k1);
        assert(y != v);
        assert(new_pred[y] == pred[y]);
        assert(back_step(g, new_pred, y) == back_step(g, pred, y));
        assert(pred_edge(new_pred, y) == pred_edge(pred, y));
    }
}

/// Labels never fall below the label of the node `k` steps back plus the weight
/// of the walk in between.
proof fn lemma_walk_labels(g: GraphCSR, pred: Seq<Option<usize>>, dist: Seq<i128>, x: int, k: nat)
    requires
        pred_in_range(g, pred),
        0 <= x < g.num_nodes,
        dist.len() == g.num_nodes,
        back_walk(g, pred, x, k) is Ok,
        forall|y: int|
            0 <= y < g.num_nodes && #[trigger] pred[y] is Some ==> dist[y] >= dist[g.edge_source_by_index@[pred_edge(
                pred,
                y,
            )] as int] + g.edge_weights@[pred_edge(pred, y)],
    ensures
        dist[x] >= dist[back_node(g, pred, x, k)] + walk_weight(g, pred, x, k),
    decreases k,
{
    if k > 0 {
        let k1 = (k - 1) as nat;
        lemma_back_walk_prefix_ok(g, pred, x, k1, k);
        lemma_walk_labels(g, pred, dist, x, k1);
        lemma_back_walk_in_range(g, pred, x, k1);
        let y = back_node(g, pred, x, k1);
        assert(pred[y] is Some);
    }
}

/// The first node at or after `s` steps back from `u` that is `v`.
proof fn lemma_first_hit(g: GraphCSR, pred: Seq<Option<usize>>, u: int, v: int, s: nat, bound: nat) -> (j: nat)
    requires
        s <= bound,
        back_node(g, pred, u, bound) == v,
        forall|t: nat| t < s ==> #[trigger] back_node(g, pred, u, t) != v,
    ensures
        s <= j <= bound,
        back_node(g, pred, u, j) == v,
        forall|t: nat| t < j ==> #[trigger] back_node(g, pred, u, t) != v,
    decreases bound - s,
{
    if back_node(g, pred, u, s) == v {
        s
    } else {
        assert forall|t: nat| t < s + 1 implies #[trigger] back_node(g, pred, u, t) != v by {}
        lemma_first_hit(g, pred, u, v, s + 1, bound)
    }
}

/// What a relaxation of edge `i` from `u` to `v` knows: the old predecessors'
/// cycles are negative, the old labels bound the old predecessor edges, the edge
/// strictly improves `v`, and `v` takes it as its new predecessor.
spec fn relax_step(
    g: GraphCSR,
    pred: Seq<Option<usize>>,
    new_pred: Seq<Option<usize>>,
    dist: Seq<i128>,
    u: int,
    v: int,
    i: int,
) -> bool {
    &&& g.wf()
    &&& pred_in_range(g, pred)
    &&& pred_cycles_negative(g, pred)
    &&& dist.len() == g.num_nodes
    &&& forall|y: int|
        0 <= y < g.num_nodes && #[trigger] pred[y] is Some ==> dist[y] >= dist[g.edge_source_by_index@[pred_edge(
            pred,
            y,
        )] as int] + g.edge_weights@[pred_edge(pred, y)]
    &&& 0 <= i < g.edge_count()
    &&& g.edge_source_by_index@[i] == u
    &&& g.edge_targets@[i] == v
    &&& 0 <= u < g.num_nodes
    &&& 0 <= v < g.num_nodes
    &&& new_pred == pred.update(v, Some(i as usize))
    &&& dist[u] + g.edge_weights@[i] < dist[v]
}

/// The walk from `v` that first takes the new edge back to `u` and returns to `v`
/// after `j` old predecessor steps has negative weight.
proof fn lemma_new_segment_negative(
    g: GraphCSR,
    pred: Seq<Option<usize>>,
    new_pred: Seq<Option<usize>>,
    dist: Seq<i128>,
    u: int,
    v: int,
    i: int,
    j: nat,
)
    requires
        relax_step(g, pred, new_pred, dist, u, v, i),
        back_walk(g, new_pred, u, j) == Ok::<int, Error>(v),
        forall|t: nat| t < j ==> #[trigger] back_node(g, new_pred, u, t) != v,
    ensures
        back_walk(g, new_pred, v, j + 1) == Ok::<int, Error>(v),
        walk_weight(g, new_pred, v, j + 1) < 0,
{
    assert(pred_in_range(g, new_pred));
    assert(new_pred[v] == Some(i as usize));
    assert(back_walk(g, new_pred, v, 0) == Ok::<int, Error>(v));
    assert(back_walk(g, new_pred, v, 1) == Ok::<int, Error>(u));
    assert(walk_weight(g, new_pred, v, 0) == 0);
    assert(walk_weight(g, new_pred, v, 1) == g.edge_weights@[i]);
    lemma_walk_agree(g, pred, new_pred, v, u, j);
    lemma_walk_labels(g, pred, dist, u, j);
    lemma_back_walk_split(g, new_pred, v, 1, j);
    lemma_walk_weight_split(g, new_pred, v, 1, j);
    assert(1 + j == j + 1);
}

/// Every closed predecessor walk from `v` after the relaxation is negative.
proof fn lemma_cycles_from_v_negative(
    g: GraphCSR,
    pred: Seq<Option<usize>>,
    new_pred: Seq<Option<usize>>,
    dist: Seq<i128>,
    u: int,
    v: int,
    i: int,
    k: nat,
)
    requires
        relax_step(g, pred, new_pred, dist, u, v, i),
        k >= 1,
        back_walk(g, new_pred, v, k) == Ok::<int, Error>(v),
    ensures
        walk_weight(g, new_pred, v, k) < 0,
    decreases k,
{
    assert(new_pred[v] == Some(i as usize));
    assert(back_walk(g, new_pred, v, 0) == Ok::<int, Error>(v));
    assert(back_walk(g, new_pred, v, 1) == Ok::<int, Error>(u));
    lemma_back_walk_split(g, new_pred, v, 1, (k - 1) as nat);
    assert(1 + (k - 1) as nat == k);
    let j = lemma_first_hit(g, new_pred, u, v, 0, (k - 1) as nat);
    lemma_back_walk_prefix_ok(g, new_pred, u, j, (k - 1) as nat);
    lemma_new_segment_negative(g, pred, new_pred, dist, u, v, i, j);
    let rest = (k - (j + 1)) as nat;
    if rest > 0 {
        lemma_back_walk_split(g, new_pred, v, j + 1, rest);
        lemma_walk_weight_split(g, new_pred, v, j + 1, rest);
        assert(j + 1 + rest == k);
        lemma_cycles_from_v_negative(g, pred, new_pred, dist, u, v, i, rest);
    } else {
        assert(j + 1 == k);
    }
}

/// Giving `v` the predecessor edge `i` from `u` on a strict improvement keeps
/// every predecessor cycle negative: a new cycle runs through `i` and back to `u`
/// along old predecessors, whose weight the labels bound.
proof fn lemma_relax_keeps_cycles_negative(
    g: GraphCSR,
    pred: Seq<Option<usize>>,
    new_pred: Seq<Option<usize>>,
    dist: Seq<i128>,
    u: int,
    v: int,
    i: int,
)
    requires
        relax_step(g, pred, new_pred, dist, u, v, i),
    ensures
        pred_cycles_negative(g, new_pred),
{
    reveal(pred_cycles_negative);
    assert(pred_in_range(g, new_pred));
    assert forall|x: int, k: nat|
        0 <= x < g.num_nodes && k >= 1 && #[trigger] back_walk(g, new_pred, x, k) == Ok::<int, Error>(x)
            implies walk_weight(g, new_pred, x, k) < 0 by {
        if forall|t: nat| t < k ==> #[trigger] back_node(g, new_pred, x, t) != v {
            lemma_walk_agree(g, pred, new_pred, v, x, k);
        } else {
            let t = choose|t: nat| t < k && #[trigger] back_node(g, new_pred, x, t) == v;
            lemma_rotate(g, new_pred, x, k, t);
            lemma_cycles_from_v_negative(g, pred, new_pred, dist, u, v, i, k);
        }
    }
}

/// The reconstructed path's weight is the weight of the predecessor walk it came from.
proof fn lemma_cycle_path_weight(g: GraphCSR, pred: Seq<Option<usize>>, c: int, len: nat, k: nat)
    requires
        k <= len,
    ensures
        weight_sum(cycle_path(g, pred, c, len).subrange(0, k as int)) == walk_weight(g, pred, c, len)
            - walk_weight(g, pred, c, (len - k) as nat),
    decreases k,
{
    let p = cycle_path(g, pred, c, len);
    if k > 0 {
        lemma_cycle_path_weight(g, pred, c, len, (k - 1) as nat);
        assert(p.subrange(0, k as int).drop_last() =~= p.subrange(0, k - 1));
        assert(((len - k) + 1) as nat == (len - (k - 1)) as nat);
    } else {
        assert(p.subrange(0, 0) =~= Seq::<Edge>::empty());
    }
}

/// No node starts a walk of `num_nodes` steps back along predecessor edges: the
/// predecessor edges form no cycle.
#[verifier::opaque]
pub open spec fn pred_acyclic(g: GraphCSR, pred: Seq<Option<usize>>) -> bool {
    forall|x: int| 0 <= x < g.num_nodes ==> #[trigger] back_walk(g, pred, x, g.num_nodes as nat) is Err
}

/// From a node on a predecessor cycle, walks of every length succeed.
proof fn lemma_cycle_walks_on(g: GraphCSR, pred: Seq<Option<usize>>, c: int, p: nat, k: nat)
    requires
        p >= 1,
        back_walk(g, pred, c, p) == Ok::<int, Error>(c),
    ensures
        back_walk(g, pred, c, k) is Ok,
    decreases k,
{
    if k < p {
        lemma_back_walk_prefix_ok(g, pred, c, k, p);
    } else {
        let r = (k - p) as nat;
        lemma_back_walk_split(g, pred, c, p, r);
        lemma_cycle_walks_on(g, pred, c, p, r);
        assert(p + r == k);
    }
}

/// The last step `j < k` at which a failing walk back from `x` still stands on a node.
proof fn lemma_walk_root(g: GraphCSR, pred: Seq<Option<usize>>, x: int, k: nat) -> (j: nat)
    requires
        back_walk(g, pred, x, k) is Err,
    ensures
        j < k,
        back_walk(g, pred, x, j) is Ok,
        back_walk(g, pred, x, j + 1) is Err,
    decreases k,
{
    let k1 = (k - 1) as nat;
    if back_walk(g, pred, x, k1) is Ok {
        k1
    } else {
        lemma_walk_root(g, pred, x, k1)
    }
}

/// Each predecessor step adds a weight of at least `i64::MIN`.
proof fn lemma_walk_weight_floor(g: GraphCSR, pred: Seq<Option<usize>>, x: int, k: nat)
    ensures
        walk_weight(g, pred, x, k) >= -(k * 0x8000_0000_0000_0000),
    decreases k,
{
    if k > 0 {
        lemma_walk_weight_floor(g, pred, x, (k - 1) as nat);
    }
}

/// Lowest label a search over `n` nodes can reach while its predecessor edges form
/// no cycle: the weight of `n - 1` edges of weight `i64::MIN`.
pub open spec fn distance_floor(n: int) -> int {
    -((n - 1) * 0x8000_0000_0000_0000)
}

/// Without predecessor cycles every walk back ends at a node that was never
/// improved, whose label is zero; so every label is at least `distance_floor`.
proof fn lemma_labels_floor(g: GraphCSR, pred: Seq<Option<usize>>, dist: Seq<i128>)
    requires
        pred_in_range(g, pred),
        pred_consistent(g, pred),
        pred_acyclic(g, pred),
        dist.len() == g.num_nodes,
        forall|y: int| 0 <= y < g.num_nodes && #[trigger] pred[y] is None ==> dist[y] == 0,
        forall|y: int|
            0 <= y < g.num_nodes && #[trigger] pred[y] is Some ==> dist[y] >= dist[g.edge_source_by_index@[pred_edge(
                pred,
                y,
            )] as int] + g.edge_weights@[pred_edge(pred, y)],
    ensures
        forall|y: int| 0 <= y < g.num_nodes ==> #[trigger] dist[y] >= distance_floor(g.num_nodes as int),
{
    reveal(pred_acyclic);
    assert forall|y: int| 0 <= y < g.num_nodes implies #[trigger] dist[y] >= distance_floor(
        g.num_nodes as int,
    ) by {
        assert(back_walk(g, pred, y, g.num_nodes as nat) is Err);
        let j = lemma_walk_root(g, pred, y, g.num_nodes as nat);
        lemma_back_walk_in_range(g, pred, y, j);
        let r = back_node(g, pred, y, j);
        assert(pred[r] is Some ==> pred_edge(pred, r) < g.edge_count());
        lemma_walk_labels(g, pred, dist, y, j);
        lemma_walk_weight_floor(g, pred, y, j);
        assert(j * 0x8000_0000_0000_0000 <= (g.num_nodes - 1) * 0x8000_0000_0000_0000);
    }
}

/// No predecessor cycle runs through `v` when the walk back from `u` ends before
/// it meets `v`.
proof fn lemma_no_cycle_through_v(
    g: GraphCSR,
    pred: Seq<Option<usize>>,
    new_pred: Seq<Option<usize>>,
    u: int,
    v: int,
    i: int,
    s: nat,
    p: nat,
)
    requires
        g.wf(),
        pred_in_range(g, pred),
        0 <= i < g.edge_count(),
        g.edge_source_by_index@[i] == u,
        0 <= u < g.num_nodes,
        0 <= v < g.num_nodes,
        new_pred == pred.update(v, Some(i as usize)),
        back_walk(g, new_pred, u, s + 1) is Err,
        forall|t: nat| t <= s ==> #[trigger] back_node(g, new_pred, u, t) != v,
        p >= 1,
    ensures
        back_walk(g, new_pred, v, p) != Ok::<int, Error>(v),
{
    assert(new_pred[v] == Some(i as usize));
    assert(back_walk(g, new_pred, v, 0) == Ok::<int, Error>(v));
    assert(back_step(g, new_pred, v) == Ok::<int, Error>(u));
    assert(back_walk(g, new_pred, v, 1) == Ok::<int, Error>(u));
    lemma_back_walk_split(g, new_pred, v, 1, (p - 1) as nat);
    assert(1 + (p - 1) as nat == p);
    let q = (p - 1) as nat;
    if back_walk(g, new_pred, v, p) == Ok::<int, Error>(v) {
        if q <= s {
            assert(back_node(g, new_pred, u, q) == v);
        } else {
            lemma_back_walk_err(g, new_pred, u, s + 1, q);
        }
    }
}

/// Giving `v` a predecessor edge from `u` creates no cycle when the walk back from
/// `u` ends at a node without predecessor before it meets `v`.
proof fn lemma_no_new_cycle(
    g: GraphCSR,
    pred: Seq<Option<usize>>,
    new_pred: Seq<Option<usize>>,
    u: int,
    v: int,
    i: int,
    s: nat,
)
    requires
        g.wf(),
        pred_in_range(g, pred),
        pred_acyclic(g, pred),
        0 <= i < g.edge_count(),
        g.edge_source_by_index@[i] == u,
        0 <= u < g.num_nodes,
        0 <= v < g.num_nodes,
        new_pred == pred.update(v, Some(i as usize)),
        back_walk(g, new_pred, u, s + 1) is Err,
        forall|t: nat| t <= s ==> #[trigger] back_node(g, new_pred, u, t) != v,
    ensures
        pred_acyclic(g, new_pred),
{
    reveal(pred_acyclic);
    let n = g.num_nodes as nat;
    assert(pred_in_range(g, new_pred));
    assert forall|x: int| 0 <= x < g.num_nodes implies #[trigger] back_walk(g, new_pred, x, n) is Err by {
        if back_walk(g, new_pred, x, n) is Ok {
            let p = lemma_walk_reaches_cycle(g, new_pred, x);
            lemma_back_walk_in_range(g, new_pred, x, n);
            let c = back_node(g, new_pred, x, n);
            if forall|t: nat| t < p ==> #[trigger] back_node(g, new_pred, c, t) != v {
                lemma_walk_agree(g, pred, new_pred, v, c, p);
                lemma_cycle_walks_on(g, pred, c, p, n);
                assert(back_walk(g, pred, c, n) is Err);
            } else {
                let t = choose|t: nat| t < p && #[trigger] back_node(g, new_pred, c, t) == v;
                lemma_rotate(g, new_pred, c, p, t);
                lemma_no_cycle_through_v(g, pred, new_pred, u, v, i, s, p);
            }
        }
    }
}

/// Distinct steps of a first-return walk stand on distinct nodes.
proof fn lemma_first_return_distinct(g: GraphCSR, pred: Seq<Option<usize>>, c: int, len: nat, a: nat, b: nat)
    requires
        first_return(g, pred, c, len),
        a < b < len,
    ensures
        back_node(g, pred, c, a) != back_node(g, pred, c, b),
{
    let r = (len - b) as nat;
    lemma_back_walk_prefix_ok(g, pred, c, a, len);
    lemma_back_walk_prefix_ok(g, pred, c, b, len);
    lemma_back_walk_split(g, pred, c, a, r);
    lemma_back_walk_split(g, pred, c, b, r);
    assert(b + r == len);
    if back_node(g, pred, c, a) == back_node(g, pred, c, b) {
        assert(back_walk(g, pred, c, a + r) == Ok::<int, Error>(c));
        assert(1 <= a + r < len);
    }
}

/// The edges of a reconstructed predecessor cycle end at distinct nodes, so no
/// edge occurs twice.
proof fn lemma_cycle_path_distinct(g: GraphCSR, pred: Seq<Option<usize>>, c: int, len: nat)
    requires
        g.wf(),
        pred_in_range(g, pred),
        pred_consistent(g, pred),
        0 <= c < g.num_nodes,
        first_return(g, pred, c, len),
    ensures
        forall|a: int, b: int|
            0 <= a < b < len ==> (#[trigger] cycle_path(g, pred, c, len)[a]).1 != (#[trigger] cycle_path(
                g,
                pred,
                c,
                len,
            )[b]).1,
{
    let p = cycle_path(g, pred, c, len);
    assert forall|a: int, b: int| 0 <= a < b < len implies (#[trigger] p[a]).1 != (#[trigger] p[b]).1 by {
        lemma_cycle_path_target(g, pred, c, len, a);
        lemma_cycle_path_target(g, pred, c, len, b);
        lemma_first_return_distinct(g, pred, c, len, (len - 1 - b) as nat, (len - 1 - a) as nat);
    }
}

/// Edge `j` of a reconstructed predecessor cycle ends at the node `len - 1 - j`
/// steps back.
proof fn lemma_cycle_path_target(g: GraphCSR, pred: Seq<Option<usize>>, c: int, len: nat, j: int)
    requires
        g.wf(),
        pred_in_range(g, pred),
        pred_consistent(g, pred),
        0 <= c < g.num_nodes,
        first_return(g, pred, c, len),
        0 <= j < len,
    ensures
        cycle_path(g, pred, c, len)[j].1 as int == back_node(g, pred, c, (len - 1 - j) as nat),
{
    let t = (len - 1 - j) as nat;
    lemma_back_walk_prefix_ok(g, pred, c, t, len);
    lemma_back_walk_prefix_ok(g, pred, c, t + 1, len);
    lemma_back_walk_in_range(g, pred, c, t);
    let x = back_node(g, pred, c, t);
    assert(pred[x] is Some);
}

/// A well-formed graph whose edges name nodes of the graph.
spec fn graph_facts(g: GraphCSR) -> bool {
    &&& g.wf()
    &&& forall|i: int|
        0 <= i < g.edge_count() ==> (#[trigger] g.edge_source_by_index@[i] as int) < g.num_nodes && (
        g.edge_targets@[i] as int) < g.num_nodes
}

/// The invariants of the labels and predecessor edges of a search over `g`.
spec fn labels_ok(g: GraphCSR, dist: Seq<i128>, pred: Seq<Option<usize>>) -> bool {
    let n = g.num_nodes as int;
    &&& dist.len() == n
    &&& pred.len() == n
    &&& forall|v: int| 0 <= v < n ==> distance_floor(n) <= #[trigger] dist[v] <= 0
    &&& forall|v: int| 0 <= v < n && #[trigger] pred[v] is None ==> dist[v] == 0
    &&& pred_consistent(g, pred)
    &&& pred_acyclic(g, pred)
    &&& pred_cycles_negative(g, pred)
    &&& nonnegative_weights(g) ==> forall|v: int| 0 <= v < n ==> #[trigger] dist[v] == 0
    &&& forall|v: int|
        0 <= v < n && #[trigger] pred[v] is Some ==> dist[v] >= dist[g.edge_source_by_index@[pred_edge(
            pred,
            v,
        )] as int] + g.edge_weights@[pred_edge(pred, v)]
}

/// Lowering `v`'s label to `cand` through edge `i` from `u` keeps the labels'
/// invariants, once the new predecessor edge is known to close no cycle.
proof fn lemma_improved_labels(
    g: GraphCSR,
    dist: Seq<i128>,
    pred: Seq<Option<usize>>,
    u: int,
    v: int,
    i: int,
    cand: i128,
)
    requires
        graph_facts(g),
        labels_ok(g, dist, pred),
        0 <= i < g.edge_count(),
        g.edge_source_by_index@[i] == u,
        g.edge_targets@[i] == v,
        0 <= u < g.num_nodes,
        cand == dist[u] + g.edge_weights@[i],
        cand < dist[v],
    ensures
        ({
            let nd = dist.update(v, cand);
            let np = pred.update(v, Some(i as usize));
            &&& walk_setting(g, pred, np, u, v, i)
            &&& pred_cycles_negative(g, np)
            &&& pred_acyclic(g, np) ==> labels_ok(g, nd, np)
            &&& !nonnegative_weights(g)
            &&& label_sum(nd) < label_sum(dist)
        }),
{
    let nd = dist.update(v, cand);
    let np = pred.update(v, Some(i as usize));
    let n = g.num_nodes as int;
    if nonnegative_weights(g) {
        assert(g.edge_weights@[i] >= 0);
    }
    lemma_label_sum_update(dist, v, cand);
    assert(pred_in_range(g, pred));
    lemma_relax_keeps_cycles_negative(g, pred, np, dist, u, v, i);
    assert(pred_consistent(g, np));
    if pred_acyclic(g, np) {
        assert forall|y: int|
            0 <= y < n && #[trigger] np[y] is Some implies nd[y] >= nd[g.edge_source_by_index@[pred_edge(
                np,
                y,
            )] as int] + g.edge_weights@[pred_edge(np, y)] by {
            if y != v {
                assert(pred[y] is Some);
            }
        }
        assert forall|y: int| 0 <= y < n && #[trigger] np[y] is None implies nd[y] == 0 by {
            assert(pred[y] is None);
        }
        lemma_labels_floor(g, np, nd);
        assert forall|y: int| 0 <= y < n implies #[trigger] nd[y] <= 0 by {}
    }
}

/// The labels of a running search: tentative distances, queue membership,
/// predecessor edges and the FIFO queue itself.
struct SearchState {
    distance: Vec<i128>,
    in_queue: Vec<bool>,
    pred_edge_idx: Vec<Option<usize>>,
    queue: VecDeque<usize>,
}

impl SearchState {
    /// Edge `e` cannot relax its target, or its source still waits in the queue.
    spec fn settled(&self, g: GraphCSR, e: int) -> bool {
        let s = g.edge_source_by_index@[e] as int;
        let t = g.edge_targets@[e] as int;
        self.in_queue@[s] || self.distance@[t] <= self.distance@[s] + g.edge_weights@[e]
    }

    /// The invariants of the search over `g`.
    spec fn inv(&self, g: GraphCSR) -> bool {
        let n = g.num_nodes as int;
        &&& graph_facts(g)
        &&& self.in_queue@.len() == n
        &&& forall|q: int| 0 <= q < self.queue@.len() ==> #[trigger] self.queue@[q] < n
        &&& forall|v: int| 0 <= v < n && #[trigger] self.in_queue@[v] ==> self.queue@.contains(v as usize)
        &&& labels_ok(g, self.distance@, self.pred_edge_idx@)
    }

    /// Every edge outside `lo..hi` is settled.
    spec fn settled_outside(&self, g: GraphCSR, lo: int, hi: int) -> bool {
        forall|e: int| 0 <= e < g.edge_count() && (e < lo || e >= hi) ==> #[trigger] self.settled(g, e)
    }

    /// Offers edge `i` out of `u` to its target `v`. On a strict improvement `v`
    /// takes the new distance and predecessor; if that predecessor edge closes a
    /// cycle of predecessor edges through `u`, returns `true` at once. Otherwise `v`
    /// joins the queue unless it waits there already.
    #[verifier::spinoff_prover]
    #[verifier::rlimit(60)]
    fn relax(&mut self, graph: &GraphCSR, u: usize, i: usize, end: usize) -> (closed: bool)
        requires
            old(self).inv(*graph),
            u < graph.num_nodes,
            graph.node_pointers@[u as int] <= i < end,
            end == graph.node_pointers@[u + 1],
            old(self).settled_outside(*graph, i as int, end as int),
        ensures
            pred_consistent(*graph, final(self).pred_edge_idx@),
            pred_cycles_negative(*graph, final(self).pred_edge_idx@),
            final(self).pred_edge_idx@.len() == graph.num_nodes,
            closed ==> exists|p: nat|
                p >= 1 && back_walk(*graph, final(self).pred_edge_idx@, u as int, p) == Ok::<int, Error>(
                    u as int,
                ),
            closed ==> !nonnegative_weights(*graph),
            !closed ==> final(self).inv(*graph),
            !closed ==> final(self).settled_outside(*graph, i + 1, end as int),
            !closed ==> label_sum(final(self).distance@) + final(self).queue@.len() <= label_sum(
                old(self).distance@,
            ) + old(self).queue@.len(),
    {
        let ghost g = *graph;
        let n = graph.num_nodes;
        proof {
            lemma_source_iff_in_block(graph, i as int, u as int);
            assert(g.node_pointers@[u + 1] <= g.node_pointers@[n as int]);
        }
        let v = graph.edge_targets[i];
        let weight = graph.edge_weights[i];
        let candidate = self.distance[u] + weight as i128;
        if candidate < self.distance[v] {
            let ghost old_state = *self;
            self.distance.set(v, candidate);
            self.pred_edge_idx.set(v, Some(i));
            proof {
                lemma_improved_labels(
                    g,
                    old_state.distance@,
                    old_state.pred_edge_idx@,
                    u as int,
                    v as int,
                    i as int,
                    candidate,
                );
            }
            if closes_cycle(
                &self.pred_edge_idx,
                graph,
                u,
                v,
                Ghost(old_state.pred_edge_idx@),
                Ghost(i as int),
            ) {
                return true;
            }
            if !self.in_queue[v] {
                self.queue.push_back(v);
                self.in_queue.set(v, true);
            }
            proof {
                assert forall|v2: int| 0 <= v2 < n && #[trigger] self.in_queue@[v2] implies self.queue@.contains(
                    v2 as usize,
                ) by {
                    if old_state.in_queue@[v2] {
                        let q = choose|q: int| 0 <= q < old_state.queue@.len() && old_state.queue@[q] == v2 as usize;
                        assert(self.queue@[q] == old_state.queue@[q]);
                    } else {
                        assert(v2 == v);
                        assert(self.queue@[self.queue@.len() - 1] == v);
                    }
                }
                assert forall|e: int| 0 <= e < g.edge_count() && (e < i + 1 || e >= end) implies #[trigger] self.settled(g, e) by {
                    assert(old_state.settled(g, e) || e == i);
                }
            }
            false
        } else {
            false
        }
    }
}

/// The setting of the walk in `closes_cycle`: before `v` took edge `i` from `u`
/// the predecessor edges formed no cycle.
spec fn walk_setting(
    g: GraphCSR,
    old_pred: Seq<Option<usize>>,
    pred: Seq<Option<usize>>,
    u: int,
    v: int,
    i: int,
) -> bool {
    &&& g.wf()
    &&& pred_in_range(g, old_pred)
    &&& pred_in_range(g, pred)
    &&& pred_consistent(g, pred)
    &&& pred_acyclic(g, old_pred)
    &&& 0 <= i < g.edge_count()
    &&& g.edge_source_by_index@[i] == u
    &&& 0 <= u < g.num_nodes
    &&& 0 <= v < g.num_nodes
    &&& pred == old_pred.update(v, Some(i as usize))
}

/// What the walk back from `u` in `closes_cycle` knows after `steps` steps.
spec fn walk_so_far(
    g: GraphCSR,
    old_pred: Seq<Option<usize>>,
    pred: Seq<Option<usize>>,
    u: int,
    v: int,
    i: int,
    steps: nat,
) -> bool {
    &&& walk_setting(g, old_pred, pred, u, v, i)
    &&& back_walk(g, pred, u, steps) is Ok
    &&& 0 <= back_node(g, pred, u, steps) < g.num_nodes
    &&& back_node(g, pred, u, steps) != v
    &&& forall|t: nat| t < steps ==> #[trigger] back_node(g, pred, u, t) != v
}

/// One more step back from a node other than `v` along an existing predecessor
/// edge stays within `num_nodes` steps.
proof fn lemma_walk_back_step(
    g: GraphCSR,
    old_pred: Seq<Option<usize>>,
    pred: Seq<Option<usize>>,
    u: int,
    v: int,
    i: int,
    steps: nat,
)
    requires
        walk_so_far(g, old_pred, pred, u, v, i, steps),
        pred[back_node(g, pred, u, steps)] is Some,
    ensures
        back_walk(g, pred, u, steps + 1) == Ok::<int, Error>(
            g.edge_source_by_index@[pred_edge(pred, back_node(g, pred, u, steps))] as int,
        ),
        forall|t: nat| t < steps + 1 ==> #[trigger] back_node(g, pred, u, t) != v,
        steps + 1 < g.num_nodes,
{
    reveal(pred_acyclic);
    let x = back_node(g, pred, u, steps);
    assert(pred_edge(pred, x) < g.edge_count());
    assert forall|t: nat| t < steps + 1 implies #[trigger] back_node(g, pred, u, t) != v by {}
    assert(back_walk(g, pred, u, steps + 1) is Ok);
    lemma_walk_agree(g, old_pred, pred, v, u, steps + 1);
    if steps + 1 >= g.num_nodes {
        lemma_back_walk_prefix_ok(g, old_pred, u, g.num_nodes as nat, steps + 1);
        assert(back_walk(g, old_pred, u, g.num_nodes as nat) is Err);
    }
}

/// A walk back from `u` that reaches a node without predecessor before `v`
/// leaves the predecessor edges without cycles.
proof fn lemma_walk_back_end(
    g: GraphCSR,
    old_pred: Seq<Option<usize>>,
    pred: Seq<Option<usize>>,
    u: int,
    v: int,
    i: int,
    steps: nat,
)
    requires
        walk_so_far(g, old_pred, pred, u, v, i, steps),
        pred[back_node(g, pred, u, steps)] is None,
    ensures
        pred_acyclic(g, pred),
{
    assert(back_walk(g, pred, u, steps + 1) is Err);
    assert forall|t: nat| t <= steps implies #[trigger] back_node(g, pred, u, t) != v by {}
    lemma_no_new_cycle(g, old_pred, pred, u, v, i, steps);
}

/// Whether the predecessor edge just given to `v`, from `u`, closes a cycle: walks
/// back from `u` until it meets `v` or a node without predecessor. Before the
/// change (`old_pred`) the predecessor edges formed no cycle, so the walk ends
/// within `num_nodes` steps.
#[verifier::spinoff_prover]
fn closes_cycle(
    pred_edge_idx: &Vec<Option<usize>>,
    graph: &GraphCSR,
    u: usize,
    v: usize,
    Ghost(old_pred): Ghost<Seq<Option<usize>>>,
    Ghost(i): Ghost<int>,
) -> (closed: bool)
    requires
        walk_setting(*graph, old_pred, pred_edge_idx@, u as int, v as int, i),
    ensures
        closed ==> exists|p: nat|
            p >= 1 && back_walk(*graph, pred_edge_idx@, u as int, p) == Ok::<int, Error>(u as int),
        !closed ==> pred_acyclic(*graph, pred_edge_idx@),
{
    let ghost g = *graph;
    let ghost pred = pred_edge_idx@;
    let n = graph.num_nodes;
    let mut x = u;
    let ghost mut steps: nat = 0;
    loop
        invariant
            g == *graph,
            pred == pred_edge_idx@,
            n == g.num_nodes,
            walk_setting(g, old_pred, pred, u as int, v as int, i),
            x < n,
            steps < n,
            back_walk(g, pred, u as int, steps) == Ok::<int, Error>(x as int),
            forall|t: nat| t < steps ==> #[trigger] back_node(g, pred, u as int, t) != v,
        decreases n - steps,
    {
        if x == v {
            proof {
                assert(pred[v as int] == Some(i as usize));
                assert(back_walk(g, pred, u as int, steps + 1) == Ok::<int, Error>(u as int));
            }
            return true;
        }
        proof {
            assert(walk_so_far(g, old_pred, pred, u as int, v as int, i, steps));
        }
        match pred_edge_idx[x] {
            None => {
                proof {
                    lemma_walk_back_end(g, old_pred, pred, u as int, v as int, i, steps);
                }
                return false;
            },
            Some(e) => {
                proof {
                    lemma_walk_back_step(g, old_pred, pred, u as int, v as int, i, steps);
                }
                x = graph.edge_source_by_index[e];
                proof {
                    steps = steps + 1;
                }
            },
        }
    }
}

impl GraphSolver for SPFASolver {
    /// Label-correcting search seeded from every node at distance zero, as if a
    /// virtual source reached each node by a zero-weight edge, so that cycles in
    /// components that `source` cannot reach are found as well. Nodes wait in a FIFO
    /// queue and an edge relaxes its target on a strict improvement. A negative
    /// cycle is reported as soon as a new predecessor edge closes a cycle of
    /// predecessor edges, which is then reconstructed. Detection is exact, so the
    /// relaxation cap `hop_cap` is not needed to decide; it is accepted for callers
    /// of the capped search.
    fn find_profitable_cycle(&self, graph: &GraphCSR, source: usize, hop_cap: usize) -> (r: Result<
        Option<WeightedCycle>,
        Error,
    >) {
        if source >= graph.num_nodes {
            return Err(Error::NodeIndexOutOfBounds(source));
        }
        let ghost g = *graph;
        let num_nodes = graph.num_nodes;
        let mut queue: VecDeque<usize> = VecDeque::new();
        let mut i: usize = 0;
        while i < num_nodes
            invariant
                0 <= i <= num_nodes,
                queue@.len() == i,
                forall|j: int| 0 <= j < i ==> #[trigger] queue@[j] == j,
            decreases num_nodes - i,
        {
            queue.push_back(i);
            i = i + 1;
        }
        let mut state = SearchState {
            distance: vec![0; num_nodes],
            in_queue: vec![true; num_nodes],
            pred_edge_idx: vec![None; num_nodes],
            queue,
        };
        proof {
            assert forall|i: int| 0 <= i < g.edge_count() implies (#[trigger] g.edge_source_by_index@[i] as int)
                < g.num_nodes && (g.edge_targets@[i] as int) < g.num_nodes by {
                assert(g.edges()[i] == g.edge_at(i));
            }
            assert forall|v: int| 0 <= v < num_nodes && #[trigger] state.in_queue@[v] implies state.queue@.contains(
                v as usize,
            ) by {
                assert(state.queue@[v] == v);
            }
            let pred = state.pred_edge_idx@;
            reveal(pred_acyclic);
            assert forall|x: int| 0 <= x < num_nodes implies #[trigger] back_walk(g, pred, x, num_nodes as nat) is Err by {
                assert(back_walk(g, pred, x, 0) == Ok::<int, Error>(x));
                assert(back_walk(g, pred, x, 1) is Err);
                lemma_back_walk_err(g, pred, x, 1, num_nodes as nat);
            }
            reveal(pred_cycles_negative);
            assert forall|x: int, k: nat|
                0 <= x < num_nodes && k >= 1 && #[trigger] back_walk(g, pred, x, k) == Ok::<int, Error>(x)
                    implies walk_weight(g, pred, x, k) < 0 by {
                assert(back_walk(g, pred, x, 0) == Ok::<int, Error>(x));
                assert(back_walk(g, pred, x, 1) is Err);
                lemma_back_walk_err(g, pred, x, 1, k);
            }
        }
        // Every label stays above `distance_floor`, so their sum bounds how often
        // labels can still improve.
        let ghost bound = (num_nodes as int) * (num_nodes as int) * 0x8000_0000_0000_0000;
        loop
            invariant
                g == *graph,
                source < num_nodes,
                num_nodes == g.num_nodes,
                bound == (num_nodes as int) * (num_nodes as int) * 0x8000_0000_0000_0000,
                state.inv(g),
                state.settled_outside(g, 0, 0),
            ensures
                state.queue@.len() == 0,
            decreases label_sum(state.distance@) + bound + state.queue@.len(),
        {
            proof {
                lemma_label_sum_bound(state.distance@, distance_floor(num_nodes as int));
                assert((num_nodes as int) * distance_floor(num_nodes as int) >= -bound) by (nonlinear_arith)
                    requires
                        num_nodes >= 1,
                        bound == (num_nodes as int) * (num_nodes as int) * 0x8000_0000_0000_0000,
                ;
            }
            let ghost s0 = state;
            let ghost q0 = state.queue@;
            let u = match state.queue.pop_front() {
                Some(u) => u,
                None => {
                    proof {
                        assert forall|e: int| 0 <= e < g.edge_count() && (e < 0 || e >= 0) implies #[trigger] state.settled(
                            g,
                            e,
                        ) by {
                            assert(s0.settled(g, e));
                        }
                    }
                    break;
                },
            };
            state.in_queue.set(u, false);
            let start = graph.node_pointers[u];
            let end = graph.node_pointers[u + 1];
            proof {
                assert(g.node_pointers@[u + 1] <= g.node_pointers@[num_nodes as int]);
                assert forall|v: int| 0 <= v < num_nodes && #[trigger] state.in_queue@[v] implies state.queue@.contains(
                    v as usize,
                ) by {
                    let q = choose|q: int| 0 <= q < q0.len() && q0[q] == v as usize;
                    assert(q != 0);
                    assert(state.queue@[q - 1] == q0[q]);
                }
                assert forall|e: int| 0 <= e < g.edge_count() && (e < start || e >= end) implies #[trigger] state.settled(g, e) by {
                    assert(s0.settled(g, e));
                    let s = g.edge_source_by_index@[e] as int;
                    if s == u {
                        lemma_source_iff_in_block(graph, e, u as int);
                    }
                }
            }
            let ghost m0 = label_sum(state.distance@) + state.queue@.len();
            let mut i = start;
            while i < end
                invariant
                    g == *graph,
                    source < num_nodes,
                    num_nodes == g.num_nodes,
                    u < num_nodes,
                    start == g.node_pointers@[u as int],
                    end == g.node_pointers@[u + 1],
                    start <= i <= end,
                    state.inv(g),
                    state.settled_outside(g, i as int, end as int),
                    label_sum(state.distance@) + state.queue@.len() <= m0,
                decreases end - i,
            {
                if state.relax(graph, u, i, end) {
                    let ghost pred = state.pred_edge_idx@;
                    proof {
                        assert forall|e: int| 0 <= e < g.edge_count() implies (#[trigger] g.edge_source_by_index@[e]
                            as int) < g.num_nodes by {
                            assert(g.edges()[e] == g.edge_at(e));
                        }
                        let p = choose|p: nat| p >= 1 && back_walk(g, pred, u as int, p) == Ok::<int, Error>(u as int);
                        lemma_cycle_walks_on(g, pred, u as int, p, num_nodes as nat);
                    }
                    let result = self.reconstruct_cycle(u, state.pred_edge_idx.as_slice(), graph);
                    return match result {
                        Ok(cycle) => {
                            proof {
                                let c = back_node(g, pred, u as int, num_nodes as nat);
                                lemma_back_walk_in_range(g, pred, u as int, num_nodes as nat);
                                let len = cycle.path@.len();
                                lemma_pred_cycle_closed(g, pred, c, len);
                                reveal(pred_cycles_negative);
                                lemma_cycle_path_weight(g, pred, c, len, len);
                                assert(cycle.path@.subrange(0, len as int) =~= cycle.path@);
                                assert(walk_weight(g, pred, c, 0) == 0);
                                lemma_cycle_path_distinct(g, pred, c, len);
                            }
                            Ok(Some(cycle))
                        },
                        Err(e) => {
                            proof {
                                assert(false);
                            }
                            Err(e)
                        },
                    };
                }
                i = i + 1;
            }
            proof {
                lemma_label_sum_bound(state.distance@, distance_floor(num_nodes as int));
                assert((num_nodes as int) * distance_floor(num_nodes as int) >= -bound) by (nonlinear_arith)
                    requires
                        num_nodes >= 1,
                        bound == (num_nodes as int) * (num_nodes as int) * 0x8000_0000_0000_0000,
                ;
            }
        }
        proof {
            assert forall|e: int| 0 <= e < g.edge_count() implies state.distance@[#[trigger] g.edge_targets@[e] as int]
                <= state.distance@[g.edge_source_by_index@[e] as int] + g.edge_weights@[e] by {
                assert(state.settled(g, e));
                let s = g.edge_source_by_index@[e] as int;
                if state.in_queue@[s] {
                    assert(state.queue@.contains(s as usize));
                }
            }
            if has_negative_cycle(g) {
                let p = choose|p: Seq<Edge>| is_closed_walk(p) && in_graph(g, p) && weight_sum(p) < 0;
                lemma_walk_potential(g, state.distance@, p);
            }
        }
        Ok(None)
    }
}

} // verus!
