use vstd::prelude::*;

use crate::error::Error;
use crate::types::{key, Edge};

verus! {

/// Number of edges of `s` whose source node is below `u`.
pub open spec fn count_below(s: Seq<Edge>, u: int) -> nat
    decreases s.len(),
{
    if s.len() == 0 {
        0
    } else {
        count_below(s.drop_last(), u) + if (s.last().0 as int) < u {
            1nat
        } else {
            0nat
        }
    }
}

/// The edges of `s` that leave node `u`, in their order in `s`.
pub open spec fn out_edges(s: Seq<Edge>, u: int) -> Seq<Edge>
    decreases s.len(),
{
    if s.len() == 0 {
        Seq::empty()
    } else if s.last().0 as int == u {
        out_edges(s.drop_last(), u).push(s.last())
    } else {
        out_edges(s.drop_last(), u)
    }
}

/// Every endpoint of every edge of `s` is a node below `n`.
pub open spec fn nodes_below(s: Seq<Edge>, n: int) -> bool {
    forall|i: int| 0 <= i < s.len() ==> (s[i].0 as int) < n && (s[i].1 as int) < n
}

/// No two edges of `s` share a `(from, to)` pair.
pub open spec fn unique_keys(s: Seq<Edge>) -> bool {
    forall|i: int, j: int| 0 <= i < j < s.len() ==> key(s[i]) != key(s[j])
}

/// The four CSR arrays over `n` nodes hold the edges of `s` grouped by source:
/// node `u`'s edges are `out_edges(s, u)`, in that order, starting at `np[u]`.
pub open spec fn is_layout(
    n: nat,
    np: Seq<usize>,
    tgt: Seq<usize>,
    w: Seq<i64>,
    srcs: Seq<usize>,
    s: Seq<Edge>,
) -> bool {
    &&& np.len() == n + 1
    &&& tgt.len() == s.len()
    &&& w.len() == s.len()
    &&& srcs.len() == s.len()
    &&& forall|u: int| 0 <= u <= n ==> np[u] as int == count_below(s, u)
    &&& forall|u: int, k: int|
        0 <= u < n && 0 <= k < out_edges(s, u).len() ==> {
            let i = np[u] + k;
            (srcs[i], tgt[i], w[i]) == #[trigger] out_edges(s, u)[k]
        }
}

proof fn lemma_out_edges_len(s: Seq<Edge>, u: int)
    ensures
        out_edges(s, u).len() <= s.len(),
        count_below(s, u) <= s.len(),
        count_below(s, u + 1) == count_below(s, u) + out_edges(s, u).len(),
        forall|k: int| 0 <= k < out_edges(s, u).len() ==> out_edges(s, u)[k].0 as int == u,
    decreases s.len(),
{
    if s.len() > 0 {
        lemma_out_edges_len(s.drop_last(), u);
    }
}

proof fn lemma_count_below_mono(s: Seq<Edge>, u: int, v: int)
    requires
        u <= v,
    ensures
        count_below(s, u) <= count_below(s, v),
    decreases s.len(),
{
    if s.len() > 0 {
        lemma_count_below_mono(s.drop_last(), u, v);
    }
}

proof fn lemma_count_below_bounds(s: Seq<Edge>, n: int)
    requires
        forall|i: int| 0 <= i < s.len() ==> (s[i].0 as int) < n,
    ensures
        count_below(s, n) == s.len(),
        count_below(s, 0) == 0,
    decreases s.len(),
{
    if s.len() > 0 {
        lemma_count_below_bounds(s.drop_last(), n);
    }
}

proof fn lemma_out_edges_append(a: Seq<Edge>, b: Seq<Edge>, u: int)
    ensures
        out_edges(a + b, u) == out_edges(a, u) + out_edges(b, u),
    decreases b.len(),
{
    if b.len() == 0 {
        assert(a + b =~= a);
        assert(out_edges(b, u) =~= Seq::<Edge>::empty());
        assert(out_edges(a, u) + out_edges(b, u) =~= out_edges(a, u));
    } else {
        lemma_out_edges_append(a, b.drop_last(), u);
        assert((a + b).drop_last() =~= a + b.drop_last());
        if b.last().0 as int == u {
            assert(out_edges(a, u) + out_edges(b.drop_last(), u).push(b.last()) =~= (out_edges(a, u)
                + out_edges(b.drop_last(), u)).push(b.last()));
        }
    }
}

/// Unfolds `out_edges` on the prefix of `s` one element longer than `j`.
proof fn lemma_out_edges_step(s: Seq<Edge>, j: int, u: int)
    requires
        0 <= j < s.len(),
    ensures
        out_edges(s.subrange(0, j + 1), u) == if s[j].0 as int == u {
            out_edges(s.subrange(0, j), u).push(s[j])
        } else {
            out_edges(s.subrange(0, j), u)
        },
        count_below(s.subrange(0, j + 1), u) == count_below(s.subrange(0, j), u) + if (s[j].0 as int)
            < u {
            1nat
        } else {
            0nat
        },
{
    assert(s.subrange(0, j + 1).drop_last() =~= s.subrange(0, j));
}

/// A node whose out-edges in `s` are not exhausted by the prefix `s[..j]` still
/// has room in its block.
proof fn lemma_out_edges_prefix_room(s: Seq<Edge>, j: int)
    requires
        0 <= j < s.len(),
    ensures
        out_edges(s.subrange(0, j), s[j].0 as int).len() < out_edges(s, s[j].0 as int).len(),
        forall|u: int| out_edges(s.subrange(0, j), u).len() <= out_edges(s, u).len(),
{
    let u = s[j].0 as int;
    assert(s =~= s.subrange(0, j) + s.subrange(j, s.len() as int));
    let rest = s.subrange(j, s.len() as int);
    assert(rest =~= seq![s[j]] + rest.subrange(1, rest.len() as int));
    lemma_out_edges_append(s.subrange(0, j), rest, u);
    lemma_out_edges_append(seq![s[j]], rest.subrange(1, rest.len() as int), u);
    assert(seq![s[j]].drop_last() =~= Seq::<Edge>::empty());
    assert forall|v: int| out_edges(s.subrange(0, j), v).len() <= out_edges(s, v).len() by {
        lemma_out_edges_append(s.subrange(0, j), rest, v);
    }
}

/// Builds the CSR arrays for the edges `s` over `n` nodes by a two-pass counting
/// sort: out-degrees, prefix sums, then a per-source cursor places each edge.
fn build_csr_from_edges(n: usize, edges: &[Edge]) -> (r: (Vec<usize>, Vec<usize>, Vec<i64>, Vec<usize>))
    requires
        n < usize::MAX,
        nodes_below(edges@, n as int),
    ensures
        is_layout(n as nat, r.0@, r.1@, r.2@, r.3@, edges@),
{
    let ghost s = edges@;
    let m = edges.len();
    let mut node_pointers: Vec<usize> = vec![0; n + 1];

    let mut j: usize = 0;
    while j < m
        invariant
            s == edges@,
            m == s.len(),
            0 <= j <= m,
            n < usize::MAX,
            nodes_below(s, n as int),
            node_pointers@.len() == n + 1,
            node_pointers@[0] == 0,
            forall|u: int|
                0 <= u < n ==> node_pointers@[u + 1] as int == out_edges(s.subrange(0, j as int), u).len(),
        decreases m - j,
    {
        let u = edges[j].0;
        proof {
            lemma_out_edges_len(s.subrange(0, j as int), u as int);
        }
        let c = node_pointers[u + 1];
        node_pointers.set(u + 1, c + 1);
        proof {
            assert forall|v: int| 0 <= v < n implies #[trigger] node_pointers@[v + 1] as int == out_edges(
                s.subrange(0, j + 1),
                v,
            ).len() by {
                lemma_out_edges_step(s, j as int, v);
            }
        }
        j = j + 1;
    }
    assert(s.subrange(0, m as int) =~= s);
    proof {
        lemma_count_below_bounds(s, n as int);
    }

    let mut i: usize = 1;
    while i <= n
        invariant
            s == edges@,
            m == s.len(),
            1 <= i <= n + 1,
            n < usize::MAX,
            nodes_below(s, n as int),
            node_pointers@.len() == n + 1,
            forall|v: int| 0 <= v < i ==> node_pointers@[v] as int == count_below(s, v),
            forall|v: int| i <= v <= n ==> node_pointers@[v] as int == out_edges(s, v - 1).len(),
        decreases n + 1 - i,
    {
        proof {
            lemma_out_edges_len(s, i - 1);
            lemma_out_edges_len(s, i as int);
            if i == 1 {
                lemma_count_below_bounds(s, n as int);
            }
        }
        let a = node_pointers[i];
        let b = node_pointers[i - 1];
        node_pointers.set(i, a + b);
        i = i + 1;
    }
    proof {
        lemma_count_below_bounds(s, n as int);
        assert forall|u: int, v: int| 0 <= u <= v <= n implies node_pointers@[u] <= node_pointers@[v] by {
            lemma_count_below_mono(s, u, v);
        }
    }

    let mut edge_targets: Vec<usize> = vec![0; m];
    let mut edge_weights: Vec<i64> = vec![0; m];
    let mut edge_source_by_index: Vec<usize> = vec![0; m];
    let mut cursor = node_pointers.clone();
    assert(cursor@ =~= node_pointers@);

    let mut j: usize = 0;
    while j < m
        invariant
            s == edges@,
            m == s.len(),
            0 <= j <= m,
            nodes_below(s, n as int),
            node_pointers@.len() == n + 1,
            cursor@.len() == n + 1,
            edge_targets@.len() == m,
            edge_weights@.len() == m,
            edge_source_by_index@.len() == m,
            forall|v: int| 0 <= v <= n ==> node_pointers@[v] as int == count_below(s, v),
            forall|u: int, v: int| 0 <= u <= v <= n ==> node_pointers@[u] <= node_pointers@[v],
            node_pointers@[n as int] == m,
            forall|u: int|
                0 <= u < n ==> cursor@[u] == node_pointers@[u] + out_edges(s.subrange(0, j as int), u).len(),
            forall|u: int, k: int|
                0 <= u < n && 0 <= k < out_edges(s.subrange(0, j as int), u).len() ==> {
                    let p = node_pointers@[u] + k;
                    (edge_source_by_index@[p], edge_targets@[p], edge_weights@[p]) == #[trigger] out_edges(
                        s.subrange(0, j as int),
                        u,
                    )[k]
                },
        decreases m - j,
    {
        let (u, v, w) = edges[j];
        proof {
            lemma_out_edges_prefix_room(s, j as int);
            lemma_out_edges_len(s, u as int);
            assert forall|x: int| 0 <= x < n implies out_edges(s.subrange(0, j + 1), x) == if x == u as int {
                out_edges(s.subrange(0, j as int), x).push(s[j as int])
            } else {
                out_edges(s.subrange(0, j as int), x)
            } by {
                lemma_out_edges_step(s, j as int, x);
            }
        }
        let pos = cursor[u];
        edge_targets.set(pos, v);
        edge_weights.set(pos, w);
        edge_source_by_index.set(pos, u);
        cursor.set(u, pos + 1);
        proof {
            assert forall|x: int, k: int|
                0 <= x < n && 0 <= k < out_edges(s.subrange(0, j + 1), x).len() implies {
                let p = node_pointers@[x] + k;
                (edge_source_by_index@[p], edge_targets@[p], edge_weights@[p]) == #[trigger] out_edges(
                    s.subrange(0, j + 1),
                    x,
                )[k]
            } by {
                lemma_out_edges_len(s, x);
                if x < u {
                    assert(node_pointers@[x + 1] <= node_pointers@[u as int]);
                } else if x > u {
                    assert(node_pointers@[u + 1] <= node_pointers@[x]);
                }
            }
        }
        j = j + 1;
    }
    assert(s.subrange(0, m as int) =~= s);
    (node_pointers, edge_targets, edge_weights, edge_source_by_index)
}

/// Every element of `out_edges(s, u)` is an element of `s`, and every element of
/// `s` occurs in the out-edges of its own source.
proof fn lemma_out_edges_members(s: Seq<Edge>, u: int)
    ensures
        forall|k: int|
            0 <= k < out_edges(s, u).len() ==> exists|i: int|
                0 <= i < s.len() && #[trigger] out_edges(s, u)[k] == s[i],
        forall|i: int|
            0 <= i < s.len() && s[i].0 as int == u ==> exists|k: int|
                0 <= k < out_edges(s, u).len() && out_edges(s, u)[k] == #[trigger] s[i],
    decreases s.len(),
{
    if s.len() > 0 {
        let t = s.drop_last();
        lemma_out_edges_members(t, u);
        assert forall|k: int| 0 <= k < out_edges(s, u).len() implies exists|i: int|
            0 <= i < s.len() && #[trigger] out_edges(s, u)[k] == s[i] by {
            if k == out_edges(t, u).len() {
                assert(out_edges(s, u)[k] == s[s.len() - 1]);
            } else {
                let i = choose|i: int| 0 <= i < t.len() && out_edges(t, u)[k] == t[i];
                assert(out_edges(s, u)[k] == s[i]);
            }
        }
        assert forall|i: int| 0 <= i < s.len() && s[i].0 as int == u implies exists|k: int|
            0 <= k < out_edges(s, u).len() && out_edges(s, u)[k] == #[trigger] s[i] by {
            if i == s.len() - 1 {
                assert(out_edges(s, u)[out_edges(t, u).len() as int] == s[i]);
            } else {
                assert(t[i] == s[i]);
                let k = choose|k: int| 0 <= k < out_edges(t, u).len() && out_edges(t, u)[k] == t[i];
                assert(out_edges(s, u)[k] == s[i]);
            }
        }
    }
}

/// The out-edges of one node inherit distinct keys from `s`.
proof fn lemma_out_edges_unique(s: Seq<Edge>, u: int)
    requires
        unique_keys(s),
    ensures
        unique_keys(out_edges(s, u)),
    decreases s.len(),
{
    if s.len() > 0 {
        let t = s.drop_last();
        lemma_out_edges_unique(t, u);
        if s.last().0 as int == u {
            lemma_out_edges_members(t, u);
            let o = out_edges(s, u);
            assert forall|a: int, b: int| 0 <= a < b < o.len() implies key(o[a]) != key(o[b]) by {
                if b == o.len() - 1 {
                    let i = choose|i: int| 0 <= i < t.len() && out_edges(t, u)[a] == t[i];
                    assert(s[i] == t[i]);
                } else {
                    assert(o[a] == out_edges(t, u)[a]);
                    assert(o[b] == out_edges(t, u)[b]);
                }
            }
        }
    }
}

/// In a monotone pointer array running from `np[0]` to `np[e]`, every index in
/// between lies in the block of some node.
proof fn lemma_block_of(np: Seq<usize>, e: int, i: int) -> (u: int)
    requires
        0 <= e < np.len(),
        np[0] <= i < np[e],
    ensures
        0 <= u < e,
        np[u] <= i < np[u + 1],
    decreases e,
{
    if np[e - 1] <= i {
        e - 1
    } else {
        lemma_block_of(np, e - 1, i)
    }
}

/// Edges sorted by source.
pub open spec fn sorted_by_source(s: Seq<Edge>) -> bool {
    forall|a: int, b: int| 0 <= a <= b < s.len() ==> s[a].0 <= s[b].0
}

/// In a sequence sorted by source, a node's out-edges are one contiguous run.
proof fn lemma_sorted_out_edges(s: Seq<Edge>, u: int)
    requires
        sorted_by_source(s),
    ensures
        out_edges(s, u) == s.subrange(count_below(s, u) as int, count_below(s, u + 1) as int),
    decreases s.len(),
{
    if s.len() > 0 {
        let t = s.drop_last();
        let l = s.last().0 as int;
        assert(sorted_by_source(t));
        assert forall|i: int| 0 <= i < t.len() implies (t[i].0 as int) <= l by {
            assert(s[i] == t[i]);
        }
        lemma_sorted_out_edges(t, u);
        lemma_out_edges_len(t, u);
        lemma_out_edges_len(s, u);
        if l == u {
            lemma_count_below_bounds(t, u + 1);
            assert(count_below(s, u) == count_below(t, u));
            assert(count_below(s, u + 1) == t.len() + 1);
            assert(out_edges(s, u) == out_edges(t, u).push(s.last()));
            let a = count_below(t, u) as int;
            assert(count_below(t, u + 1) == t.len());
            assert(out_edges(t, u) == t.subrange(a, t.len() as int));
            assert(s.subrange(a, s.len() as int) =~= t.subrange(a, t.len() as int).push(s.last()));
            assert(out_edges(s, u) =~= s.subrange(count_below(s, u) as int, count_below(s, u + 1) as int));
        } else if l > u {
            lemma_out_edges_len(t, u + 1);
            assert(count_below(s, u) == count_below(t, u));
            assert(count_below(s, u + 1) == count_below(t, u + 1));
            assert(out_edges(s, u) == out_edges(t, u));
            assert(s.subrange(count_below(t, u) as int, count_below(t, u + 1) as int) =~= t.subrange(
                count_below(t, u) as int,
                count_below(t, u + 1) as int,
            ));
            assert(out_edges(s, u) =~= s.subrange(count_below(s, u) as int, count_below(s, u + 1) as int));
        } else {
            lemma_count_below_bounds(s, u);
            lemma_count_below_bounds(s, u + 1);
            assert(out_edges(s, u) =~= s.subrange(count_below(s, u) as int, count_below(s, u + 1) as int));
        }
    } else {
        assert(out_edges(s, u) =~= s.subrange(count_below(s, u) as int, count_below(s, u + 1) as int));
    }
}

/// Some edge of `s` has the `(from, to)` pair `k`.
pub open spec fn has_key(s: Seq<Edge>, k: (usize, usize)) -> bool {
    exists|j: int| 0 <= j < s.len() && key(s[j]) == k
}

/// No later edge of `s` has the same `(from, to)` pair as `s[i]`.
pub open spec fn is_last_of_key(s: Seq<Edge>, i: int) -> bool {
    !has_key(s.subrange(i + 1, s.len() as int), key(s[i]))
}

/// The edges of `s[..j]` that no later edge of `s` overrides, in their order.
pub open spec fn kept_prefix(s: Seq<Edge>, j: int) -> Seq<Edge>
    decreases j,
{
    if j <= 0 {
        Seq::empty()
    } else if is_last_of_key(s, j - 1) {
        kept_prefix(s, j - 1).push(s[j - 1])
    } else {
        kept_prefix(s, j - 1)
    }
}

/// `s` with every edge dropped that a later edge with the same `(from, to)` pair
/// overrides: the last upsert of each pair wins and keeps its place.
pub open spec fn dedup_last_wins(s: Seq<Edge>) -> Seq<Edge> {
    kept_prefix(s, s.len() as int)
}

/// `e` is an edge of `s[..j]` that no later edge of `s` overrides.
pub open spec fn kept_edge(s: Seq<Edge>, j: int, e: Edge) -> bool {
    exists|i: int| 0 <= i < j && e == s[i] && is_last_of_key(s, i)
}

proof fn lemma_kept_prefix(s: Seq<Edge>, j: int)
    requires
        0 <= j <= s.len(),
    ensures
        forall|k: int| 0 <= k < kept_prefix(s, j).len() ==> kept_edge(s, j, #[trigger] kept_prefix(s, j)[k]),
        unique_keys(kept_prefix(s, j)),
        sorted_by_source(s) ==> sorted_by_source(kept_prefix(s, j)),
    decreases j,
{
    if j > 0 {
        lemma_kept_prefix(s, j - 1);
        let p = kept_prefix(s, j - 1);
        let q = kept_prefix(s, j);
        if is_last_of_key(s, j - 1) {
            assert forall|k: int| 0 <= k < q.len() implies kept_edge(s, j, #[trigger] q[k]) by {
                if k < p.len() {
                    assert(q[k] == p[k]);
                    let i = choose|i: int| 0 <= i < j - 1 && #[trigger] p[k] == s[i] && is_last_of_key(s, i);
                    assert(q[k] == s[i]);
                } else {
                    assert(q[k] == s[j - 1]);
                }
            }
            assert forall|a: int, b: int| 0 <= a < b < q.len() implies key(q[a]) != key(q[b]) by {
                if b == p.len() {
                    assert(q[a] == p[a]);
                    let i = choose|i: int| 0 <= i < j - 1 && #[trigger] p[a] == s[i] && is_last_of_key(s, i);
                    let t = s.subrange(i + 1, s.len() as int);
                    assert(t[j - 1 - (i + 1)] == s[j - 1]);
                } else {
                    assert(q[a] == p[a]);
                    assert(q[b] == p[b]);
                }
            }
            if sorted_by_source(s) {
                assert forall|a: int, b: int| 0 <= a <= b < q.len() implies q[a].0 <= q[b].0 by {
                    if b == p.len() && a < b {
                        assert(q[a] == p[a]);
                        let i = choose|i: int| 0 <= i < j - 1 && #[trigger] p[a] == s[i] && is_last_of_key(s, i);
                    } else if b < p.len() {
                        assert(q[a] == p[a]);
                        assert(q[b] == p[b]);
                    }
                }
            }
        } else {
            assert forall|k: int| 0 <= k < q.len() implies kept_edge(s, j, #[trigger] q[k]) by {
                let i = choose|i: int| 0 <= i < j - 1 && #[trigger] p[k] == s[i] && is_last_of_key(s, i);
                assert(q[k] == s[i]);
            }
        }
    } else {
        assert(kept_prefix(s, j).len() == 0);
    }
}

/// The last upserts of a source-sorted sequence of edges, in order. Edges with
/// equal pairs share a source, so the search for a later duplicate stops at the
/// end of the source's run.
fn dedup_sorted(edges: &[Edge]) -> (r: Vec<Edge>)
    requires
        sorted_by_source(edges@),
    ensures
        r@ == dedup_last_wins(edges@),
{
    let ghost s = edges@;
    let n = edges.len();
    let mut out: Vec<Edge> = Vec::new();
    let mut i: usize = 0;
    while i < n
        invariant
            s == edges@,
            n == s.len(),
            0 <= i <= n,
            sorted_by_source(s),
            out@ == kept_prefix(s, i as int),
        decreases n - i,
    {
        let e = edges[i];
        let mut overridden = false;
        let mut j: usize = i + 1;
        while j < n && !overridden && edges[j].0 == e.0
            invariant
                s == edges@,
                n == s.len(),
                0 <= i < n,
                i + 1 <= j <= n,
                e == s[i as int],
                overridden ==> has_key(s.subrange(i + 1, n as int), key(e)),
                !overridden ==> !has_key(s.subrange(i + 1, j as int), key(e)),
            decreases n - j,
        {
            if edges[j].1 == e.1 {
                overridden = true;
                assert(s.subrange(i + 1, n as int)[j - (i + 1)] == s[j as int]);
                j = j + 1;
            } else {
                proof {
                    assert forall|x: int| 0 <= x < j + 1 - (i + 1) implies key(
                        #[trigger] s.subrange(i + 1, j + 1)[x],
                    ) != key(e) by {
                        if x < j - (i + 1) {
                            assert(s.subrange(i + 1, j + 1)[x] == s.subrange(i + 1, j as int)[x]);
                        }
                    }
                }
                j = j + 1;
            }
        }
        proof {
            if !overridden {
                let t = s.subrange(i + 1, n as int);
                assert forall|x: int| 0 <= x < t.len() implies key(t[x]) != key(e) by {
                    if x < j - (i + 1) {
                        assert(t[x] == s.subrange(i + 1, j as int)[x]);
                    } else {
                        assert(t[x] == s[i + 1 + x]);
                        assert(s[j as int].0 <= s[i + 1 + x].0);
                        assert(s[i as int].0 <= s[j as int].0);
                    }
                }
            }
        }
        if !overridden {
            out.push(e);
        }
        i = i + 1;
    }
    out
}

/// Relies on `slice::sort_by_key`, a stable sort: the edges end up ordered by
/// source, and the edges of each source keep their relative order.
#[verifier::external_body]
fn sort_by_source(edges: &mut [Edge])
    ensures
        final(edges)@.len() == old(edges)@.len(),
        sorted_by_source(final(edges)@),
        forall|u: int| #[trigger] out_edges(final(edges)@, u) == out_edges(old(edges)@, u),
{
    edges.sort_by_key(|e| e.0);
}

/// The map from each `(from, to)` pair of `s` to the weight of its last upsert.
pub open spec fn last_wins(s: Seq<Edge>) -> Map<(usize, usize), i64>
    decreases s.len(),
{
    if s.len() == 0 {
        Map::empty()
    } else {
        last_wins(s.drop_last()).insert(key(s.last()), s.last().2)
    }
}

/// Strict order on `(from, to)` pairs: by source, then by target.
pub open spec fn key_lt(a: (usize, usize), b: (usize, usize)) -> bool {
    a.0 < b.0 || (a.0 == b.0 && a.1 < b.1)
}

/// The `(from, to)` pairs of `s` strictly decrease.
pub open spec fn keys_descending(s: Seq<Edge>) -> bool {
    forall|a: int, b: int| 0 <= a < b < s.len() ==> key_lt(key(s[b]), key(s[a]))
}

/// Order on `(from, to, position)` triples: lexicographic, as std orders tuples.
pub open spec fn triple_le(a: (usize, usize, usize), b: (usize, usize, usize)) -> bool {
    a.0 < b.0 || (a.0 == b.0 && (a.1 < b.1 || (a.1 == b.1 && a.2 <= b.2)))
}

/// `n` is one more than the largest node named by an edge of `s`, or zero when `s`
/// is empty.
pub open spec fn is_node_bound(s: Seq<Edge>, n: int) -> bool {
    &&& nodes_below(s, n)
    &&& (n == 0 || exists|i: int| 0 <= i < s.len() && (s[i].0 == n - 1 || s[i].1 == n - 1))
}

/// `last_wins` holds exactly the pairs of `s`, each with its last upsert's weight.
proof fn lemma_last_wins(s: Seq<Edge>)
    ensures
        forall|k: (usize, usize)| #[trigger] last_wins(s).contains_key(k) <==> has_key(s, k),
        forall|i: int|
            0 <= i < s.len() && is_last_of_key(s, i) ==> #[trigger] last_wins(s)[key(s[i])] == s[i].2,
    decreases s.len(),
{
    if s.len() > 0 {
        let t = s.drop_last();
        let kl = key(s.last());
        lemma_last_wins(t);
        assert(last_wins(s) == last_wins(t).insert(kl, s.last().2));
        assert forall|k: (usize, usize)| #[trigger] last_wins(s).contains_key(k) <==> has_key(s, k) by {
            if has_key(s, k) {
                let j = choose|j: int| 0 <= j < s.len() && key(s[j]) == k;
                if j < s.len() - 1 {
                    assert(t[j] == s[j]);
                    assert(has_key(t, k));
                }
            }
            if has_key(t, k) {
                let j = choose|j: int| 0 <= j < t.len() && key(t[j]) == k;
                assert(t[j] == s[j]);
                assert(has_key(s, k));
            }
            if k == kl {
                assert(key(s[s.len() - 1]) == k);
                assert(has_key(s, k));
            }
        }
        assert forall|i: int| 0 <= i < s.len() && is_last_of_key(s, i) implies #[trigger] last_wins(
            s,
        )[key(s[i])] == s[i].2 by {
            if i < s.len() - 1 {
                let u = s.subrange(i + 1, s.len() as int);
                assert(u[s.len() - 1 - (i + 1)] == s.last());
                assert(key(s[i]) != kl);
                assert(t[i] == s[i]);
                let w = t.subrange(i + 1, t.len() as int);
                if has_key(w, key(t[i])) {
                    let j = choose|j: int| 0 <= j < w.len() && key(#[trigger] w[j]) == key(t[i]);
                    assert(u[j] == w[j]);
                }
                assert(is_last_of_key(t, i));
                assert(last_wins(t)[key(t[i])] == t[i].2);
            }
        }
    }
}

/// The out-edges of one node keep the descending order of `s`.
proof fn lemma_out_edges_descending(s: Seq<Edge>, u: int)
    requires
        keys_descending(s),
    ensures
        keys_descending(out_edges(s, u)),
    decreases s.len(),
{
    if s.len() > 0 {
        let t = s.drop_last();
        lemma_out_edges_descending(t, u);
        if s.last().0 as int == u {
            lemma_out_edges_members(t, u);
            let o = out_edges(s, u);
            assert forall|a: int, b: int| 0 <= a < b < o.len() implies key_lt(key(o[b]), key(o[a])) by {
                if b == o.len() - 1 {
                    let i = choose|i: int| 0 <= i < t.len() && out_edges(t, u)[a] == t[i];
                    assert(s[i] == t[i]);
                } else {
                    assert(o[a] == out_edges(t, u)[a]);
                    assert(o[b] == out_edges(t, u)[b]);
                }
            }
        }
    }
}

/// Relies on `slice::sort`: afterwards the triples are a permutation of the
/// former ones in ascending lexicographic order.
#[verifier::external_body]
fn sort_triples(v: &mut Vec<(usize, usize, usize)>)
    ensures
        final(v)@.to_multiset() == old(v)@.to_multiset(),
        forall|a: int, b: int| 0 <= a <= b < final(v)@.len() ==> triple_le(final(v)@[a], final(v)@[b]),
{
    v.sort();
}

/// The triple of `s[j]` and its position `j` occurs in `t`.
spec fn placed(t: Seq<(usize, usize, usize)>, s: Seq<Edge>, j: int) -> bool {
    exists|q: int| 0 <= q < t.len() && t[q] == (s[j].0, s[j].1, j as usize)
}

/// The last upsert of every `(from, to)` pair of `all`, in descending order of
/// the pairs. Positions are sorted alongside the pairs, so the last element of
/// each run of equal pairs is that pair's last upsert.
fn last_upserts_descending(all: &Vec<Edge>) -> (d: Vec<Edge>)
    ensures
        keys_descending(d@),
        forall|x: int| 0 <= x < d@.len() ==> kept_edge(all@, all@.len() as int, #[trigger] d@[x]),
        forall|k: (usize, usize)| has_key(all@, k) ==> #[trigger] has_key(d@, k),
        last_wins(d@) == last_wins(all@),
{
    let ghost s = all@;
    let n = all.len();
    let mut keyed: Vec<(usize, usize, usize)> = Vec::new();
    let mut i: usize = 0;
    while i < n
        invariant
            s == all@,
            n == s.len(),
            0 <= i <= n,
            keyed@.len() == i,
            forall|j: int| 0 <= j < i ==> #[trigger] keyed@[j] == (s[j].0, s[j].1, j as usize),
        decreases n - i,
    {
        keyed.push((all[i].0, all[i].1, i));
        i = i + 1;
    }
    let ghost unsorted = keyed@;
    sort_triples(&mut keyed);
    let ghost t = keyed@;
    proof {
        t.to_multiset_ensures();
        unsorted.to_multiset_ensures();
        assert(t.to_multiset().len() == unsorted.to_multiset().len());
        assert(t.len() == n);
        assert forall|q: int| 0 <= q < n implies (#[trigger] t[q]).2 < n && (t[q].0, t[q].1) == key(
            s[t[q].2 as int],
        ) by {
            assert(t.contains(t[q]));
            assert(t.to_multiset().count(t[q]) > 0);
            assert(unsorted.to_multiset().count(t[q]) > 0);
            assert(unsorted.contains(t[q]));
        }
        assert forall|j: int| 0 <= j < n implies #[trigger] placed(t, s, j) by {
            assert(unsorted[j] == (s[j].0, s[j].1, j as usize));
            assert(unsorted.contains(unsorted[j]));
            assert(unsorted.to_multiset().count(unsorted[j]) > 0);
            assert(t.to_multiset().count(unsorted[j]) > 0);
            assert(t.contains(unsorted[j]));
        }
    }

    let mut d: Vec<Edge> = Vec::new();
    let mut p: usize = n;
    while p > 0
        invariant
            s == all@,
            t == keyed@,
            n == s.len(),
            n == t.len(),
            0 <= p <= n,
            forall|q: int| 0 <= q < n ==> (#[trigger] t[q]).2 < n && (t[q].0, t[q].1) == key(s[t[q].2 as int]),
            forall|a: int, b: int| 0 <= a <= b < n ==> triple_le(t[a], t[b]),
            forall|j: int| 0 <= j < n ==> #[trigger] placed(t, s, j),
            keys_descending(d@),
            forall|x: int| 0 <= x < d@.len() ==> kept_edge(s, n as int, #[trigger] d@[x]),
            p == n ==> d@.len() == 0,
            p < n ==> d@.len() > 0 && key(d@.last()) == (t[p as int].0, t[p as int].1),
            forall|q: int| p <= q < n ==> has_key(d@, (#[trigger] t[q].0, t[q].1)),
        decreases p,
    {
        let c = p - 1;
        let (a, b, idx) = keyed[c];
        let run_end = c + 1 == n || keyed[c + 1].0 != a || keyed[c + 1].1 != b;
        if run_end {
            let e = all[idx];
            proof {
                assert(key(e) == (a, b));
                assert forall|j: int| idx < j < n implies key(s[j]) != (a, b) by {
                    if key(s[j]) == (a, b) {
                        assert(placed(t, s, j));
                        let q = choose|q: int| 0 <= q < n && #[trigger] t[q] == (s[j].0, s[j].1, j as usize);
                        if q <= c {
                            assert(triple_le(t[q], t[c as int]));
                        } else {
                            assert(triple_le(t[c as int], t[c + 1]));
                            assert(triple_le(t[c + 1], t[q]));
                        }
                    }
                }
                let rest = s.subrange(idx + 1, n as int);
                assert forall|x: int| 0 <= x < rest.len() implies key(#[trigger] rest[x]) != key(s[idx as int]) by {
                    assert(rest[x] == s[idx + 1 + x]);
                }
                assert(kept_edge(s, n as int, e));
                if c + 1 < n {
                    assert(triple_le(t[c as int], t[c + 1]));
                    assert forall|x: int| 0 <= x < d@.len() implies key_lt(key(e), key(#[trigger] d@[x])) by {
                        if x < d@.len() - 1 {
                            assert(key_lt(key(d@.last()), key(d@[x])));
                        }
                    }
                }
            }
            let ghost d0 = d@;
            d.push(e);
            proof {
                assert forall|x: int| 0 <= x < d@.len() - 1 implies #[trigger] d@[x] == d0[x] by {}
                assert forall|x: int, y: int| 0 <= x < y < d@.len() implies key_lt(
                    key(#[trigger] d@[y]),
                    key(#[trigger] d@[x]),
                ) by {
                    if y == d@.len() - 1 {
                        assert(d@[x] == d0[x]);
                    } else {
                        assert(d@[x] == d0[x]);
                        assert(d@[y] == d0[y]);
                    }
                }
                assert forall|q: int| c <= q < n implies has_key(d@, (#[trigger] t[q].0, t[q].1)) by {
                    if q == c {
                        assert(key(d@[d@.len() - 1]) == (t[q].0, t[q].1));
                    } else {
                        let x = choose|x: int| 0 <= x < d0.len() && key(d0[x]) == (t[q].0, t[q].1);
                        assert(d@[x] == d0[x]);
                    }
                }
            }
        }
        p = c;
    }
    proof {
        lemma_last_wins(s);
        lemma_last_wins(d@);
        assert forall|k: (usize, usize)| has_key(s, k) implies #[trigger] has_key(d@, k) by {
            let j = choose|j: int| 0 <= j < n && key(s[j]) == k;
            assert(placed(t, s, j));
            let q = choose|q: int| 0 <= q < n && #[trigger] t[q] == (s[j].0, s[j].1, j as usize);
            assert(has_key(d@, (t[q].0, t[q].1)));
        }
        assert forall|k: (usize, usize)| #[trigger] has_key(d@, k) implies has_key(s, k) by {
            let x = choose|x: int| 0 <= x < d@.len() && key(d@[x]) == k;
            assert(kept_edge(s, n as int, d@[x]));
        }
        assert forall|x: int| 0 <= x < d@.len() implies is_last_of_key(d@, x) by {
            let rest = d@.subrange(x + 1, d@.len() as int);
            assert forall|y: int| 0 <= y < rest.len() implies key(#[trigger] rest[y]) != key(d@[x]) by {
                assert(rest[y] == d@[x + 1 + y]);
                assert(key_lt(key(d@[x + 1 + y]), key(d@[x])));
            }
        }
        assert forall|k: (usize, usize)| #[trigger] last_wins(d@).contains_key(k) implies last_wins(d@)[k]
            == last_wins(s)[k] by {
            let x = choose|x: int| 0 <= x < d@.len() && key(d@[x]) == k;
            assert(kept_edge(s, n as int, d@[x]));
            let i = choose|i: int| 0 <= i < n && d@[x] == s[i] && is_last_of_key(s, i);
            assert(last_wins(s)[key(s[i])] == s[i].2);
            assert(last_wins(d@)[key(d@[x])] == d@[x].2);
        }
        assert(last_wins(d@) =~= last_wins(s));
    }
    d
}

/// In a sequence with distinct pairs every edge is the last upsert of its pair.
proof fn lemma_unique_all_last(s: Seq<Edge>)
    requires
        unique_keys(s),
    ensures
        forall|i: int| 0 <= i < s.len() ==> #[trigger] is_last_of_key(s, i),
{
    assert forall|i: int| 0 <= i < s.len() implies #[trigger] is_last_of_key(s, i) by {
        let rest = s.subrange(i + 1, s.len() as int);
        assert forall|y: int| 0 <= y < rest.len() implies key(#[trigger] rest[y]) != key(s[i]) by {
            assert(rest[y] == s[i + 1 + y]);
        }
    }
}

/// A graph in Compressed Sparse Row layout, plus a buffer of pending upserts.
///
/// Node `u`'s outgoing edges occupy indices `node_pointers[u]..node_pointers[u + 1]`
/// of the three edge arrays: `edge_targets[i]` is the target of edge `i`,
/// `edge_weights[i]` its weight and `edge_source_by_index[i]` its source. Pending
/// updates are not visible to queries until a rebuild merges them in.
#[derive(Debug, Clone)]
pub struct GraphCSR {
    pub num_nodes: usize,
    pub node_pointers: Vec<usize>,
    pub edge_targets: Vec<usize>,
    pub edge_weights: Vec<i64>,
    pub edge_source_by_index: Vec<usize>,
    pub rebuild_limit: usize,
    pub pending_updates: Vec<Edge>,
}

/// What a batch of upserts did to the pending buffer.
pub enum AddEdgeResult {
    /// The batch was buffered.
    Success,
    /// The buffer reached the rebuild limit; its whole content was taken out.
    RebuildNeeded(Vec<Edge>),
}

impl GraphCSR {
    /// Number of stored edges.
    pub open spec fn edge_count(&self) -> nat {
        self.edge_targets@.len()
    }

    /// Stored edge `i` as `(source, target, weight)`.
    pub open spec fn edge_at(&self, i: int) -> Edge {
        (self.edge_source_by_index@[i], self.edge_targets@[i], self.edge_weights@[i])
    }

    /// The stored edges in index order.
    pub open spec fn edges(&self) -> Seq<Edge> {
        Seq::new(self.edge_count(), |i: int| self.edge_at(i))
    }

    /// The snapshot invariants: pointers run monotonically from zero to the edge
    /// count, the arrays agree in length, each block's edges name their block's node
    /// as source, every endpoint is a node, and no `(from, to)` pair occurs twice.
    pub open spec fn wf(&self) -> bool {
        let n = self.num_nodes as int;
        let np = self.node_pointers@;
        &&& n < usize::MAX
        &&& np.len() == n + 1
        &&& np[0] == 0
        &&& np[n] == self.edge_count()
        &&& self.edge_weights@.len() == self.edge_count()
        &&& self.edge_source_by_index@.len() == self.edge_count()
        &&& forall|u: int, v: int| 0 <= u <= v <= n ==> np[u] <= np[v]
        &&& forall|u: int, i: int|
            #![trigger self.node_pointers@[u], self.edge_source_by_index@[i]]
            0 <= u < n && np[u] <= i < np[u + 1] ==> self.edge_source_by_index@[i] == u
        &&& nodes_below(self.edges(), n)
        &&& unique_keys(self.edges())
    }

    /// The arrays lay out the edges of `s` grouped by source.
    pub open spec fn lays_out(&self, s: Seq<Edge>) -> bool {
        is_layout(
            self.num_nodes as nat,
            self.node_pointers@,
            self.edge_targets@,
            self.edge_weights@,
            self.edge_source_by_index@,
            s,
        )
    }

    /// The pointers of a layout run monotonically from zero to the edge count.
    proof fn lemma_layout_pointers(&self, s: Seq<Edge>)
        requires
            self.lays_out(s),
            forall|i: int| 0 <= i < s.len() ==> (s[i].0 as int) < self.num_nodes,
        ensures
            self.node_pointers@[0] == 0,
            self.node_pointers@[self.num_nodes as int] == s.len(),
            forall|u: int, v: int|
                0 <= u <= v <= self.num_nodes ==> self.node_pointers@[u] <= self.node_pointers@[v],
    {
        let n = self.num_nodes as int;
        let np = self.node_pointers@;
        lemma_count_below_bounds(s, n);
        assert forall|u: int, v: int| 0 <= u <= v <= n implies np[u] <= np[v] by {
            lemma_count_below_mono(s, u, v);
        }
    }

    /// Each stored edge of a layout is the `k`-th out-edge in `s` of its block's node `u`.
    proof fn lemma_layout_entry(&self, s: Seq<Edge>, i: int) -> (r: (int, int))
        requires
            self.lays_out(s),
            forall|i: int| 0 <= i < s.len() ==> (s[i].0 as int) < self.num_nodes,
            0 <= i < s.len(),
        ensures
            0 <= r.0 < self.num_nodes,
            0 <= r.1 < out_edges(s, r.0).len(),
            i == self.node_pointers@[r.0] + r.1,
            self.node_pointers@[r.0] <= i < self.node_pointers@[r.0 + 1],
            self.edge_at(i) == out_edges(s, r.0)[r.1],
            exists|j: int| 0 <= j < s.len() && self.edge_at(i) == s[j],
    {
        self.lemma_layout_pointers(s);
        let u = lemma_block_of(self.node_pointers@, self.num_nodes as int, i);
        lemma_out_edges_len(s, u);
        lemma_out_edges_members(s, u);
        let k = i - self.node_pointers@[u];
        assert(self.edge_at(i) == out_edges(s, u)[k]);
        let j = choose|j: int| 0 <= j < s.len() && out_edges(s, u)[k] == s[j];
        (u, k)
    }

    /// A layout of distinct in-range edges is a well-formed snapshot.
    proof fn lemma_layout_wf(&self, s: Seq<Edge>)
        requires
            self.num_nodes < usize::MAX,
            self.lays_out(s),
            nodes_below(s, self.num_nodes as int),
            unique_keys(s),
        ensures
            self.wf(),
            self.edge_count() == s.len(),
    {
        let n = self.num_nodes as int;
        let np = self.node_pointers@;
        self.lemma_layout_pointers(s);
        assert forall|u: int, i: int|
            #![trigger self.node_pointers@[u], self.edge_source_by_index@[i]]
            0 <= u < n && np[u] <= i < np[u + 1] implies self.edge_source_by_index@[i] == u by {
            lemma_out_edges_len(s, u);
            assert(out_edges(s, u)[i - np[u]].0 as int == u);
        }
        assert forall|i: int| 0 <= i < self.edge_count() implies (self.edge_at(i).0 as int) < n && (
        self.edge_at(i).1 as int) < n by {
            let r = self.lemma_layout_entry(s, i);
        }
        assert(nodes_below(self.edges(), n));
        assert forall|i: int, j: int| 0 <= i < j < self.edge_count() implies key(self.edge_at(i))
            != key(self.edge_at(j)) by {
            let (u, a) = self.lemma_layout_entry(s, i);
            let (v, b) = self.lemma_layout_entry(s, j);
            lemma_out_edges_len(s, u);
            lemma_out_edges_len(s, v);
            if u == v {
                lemma_out_edges_unique(s, u);
            } else {
                assert(out_edges(s, u)[a].0 as int == u);
                assert(out_edges(s, v)[b].0 as int == v);
            }
        }
    }

    /// A layout of edges already sorted by source stores them in their given order.
    proof fn lemma_sorted_layout(&self, s: Seq<Edge>)
        requires
            self.lays_out(s),
            sorted_by_source(s),
            nodes_below(s, self.num_nodes as int),
        ensures
            self.edges() == s,
    {
        assert forall|i: int| 0 <= i < s.len() implies self.edge_at(i) == s[i] by {
            let (u, k) = self.lemma_layout_entry(s, i);
            lemma_sorted_out_edges(s, u);
            lemma_out_edges_len(s, u);
            lemma_out_edges_len(s, u + 1);
            assert(self.node_pointers@[u] == count_below(s, u));
            assert(out_edges(s, u)[k] == s[count_below(s, u) + k]);
        }
        assert(self.edges() =~= s);
    }

    /// The two graphs hold the same snapshot: everything but the pending buffer agrees.
    pub open spec fn same_snapshot(&self, other: &Self) -> bool {
        &&& self.num_nodes == other.num_nodes
        &&& self.node_pointers@ == other.node_pointers@
        &&& self.edge_targets@ == other.edge_targets@
        &&& self.edge_weights@ == other.edge_weights@
        &&& self.edge_source_by_index@ == other.edge_source_by_index@
        &&& self.rebuild_limit == other.rebuild_limit
    }

    /// Builds the first snapshot over `num_nodes` nodes from raw edges.
    ///
    /// The slice is sorted by source in place (stably); then, for each `(from, to)`
    /// pair, only its last upsert is kept, and the survivors are stored in that order.
    pub fn from_edges(num_nodes: usize, edges: &mut [Edge], rebuild_limit: usize) -> (r: Self)
        requires
            num_nodes < usize::MAX,
            nodes_below(old(edges)@, num_nodes as int),
        ensures
            final(edges)@.len() == old(edges)@.len(),
            sorted_by_source(final(edges)@),
            forall|u: int| #[trigger] out_edges(final(edges)@, u) == out_edges(old(edges)@, u),
            r.wf(),
            r.num_nodes == num_nodes,
            r.rebuild_limit == rebuild_limit,
            r.pending_updates@.len() == 0,
            r.edges() == dedup_last_wins(final(edges)@),
    {
        let ghost s0 = edges@;
        sort_by_source(edges);
        let ghost s1 = edges@;
        proof {
            assert forall|i: int| 0 <= i < s1.len() implies (s1[i].0 as int) < num_nodes && (
            s1[i].1 as int) < num_nodes by {
                let u = s1[i].0 as int;
                lemma_out_edges_members(s1, u);
                lemma_out_edges_members(s0, u);
                let k = choose|k: int| 0 <= k < out_edges(s1, u).len() && out_edges(s1, u)[k] == s1[i];
                assert(out_edges(s1, u) == out_edges(s0, u));
                let j = choose|j: int| 0 <= j < s0.len() && out_edges(s0, u)[k] == s0[j];
            }
        }
        let deduped = dedup_sorted(edges);
        proof {
            lemma_kept_prefix(s1, s1.len() as int);
            let d = deduped@;
            assert forall|k: int| 0 <= k < d.len() implies (d[k].0 as int) < num_nodes && (d[k].1 as int)
                < num_nodes by {
                assert(kept_edge(s1, s1.len() as int, d[k]));
            }
        }
        let (node_pointers, edge_targets, edge_weights, edge_source_by_index) = build_csr_from_edges(
            num_nodes,
            deduped.as_slice(),
        );
        let r = GraphCSR {
            num_nodes,
            node_pointers,
            edge_targets,
            edge_weights,
            edge_source_by_index,
            rebuild_limit,
            pending_updates: Vec::new(),
        };
        proof {
            r.lemma_layout_wf(deduped@);
            r.lemma_sorted_layout(deduped@);
        }
        r
    }

    /// The source node of edge `edge_idx`, or `InvalidGraph` past the last edge.
    pub fn get_edge_source_node(&self, edge_idx: usize) -> (r: Result<usize, Error>)
        ensures
            edge_idx < self.edge_source_by_index@.len() ==> r == Ok::<usize, Error>(
                self.edge_source_by_index@[edge_idx as int],
            ),
            edge_idx >= self.edge_source_by_index@.len() ==> r == Err::<usize, Error>(
                Error::InvalidGraph,
            ),
    {
        if edge_idx < self.edge_source_by_index.len() {
            Ok(self.edge_source_by_index[edge_idx])
        } else {
            Err(Error::InvalidGraph)
        }
    }

    /// Appends a batch to the pending buffer. Once the buffer holds at least
    /// `rebuild_limit` edges, its whole content is taken out and handed back so
    /// that the caller can rebuild without holding the graph; the buffer is then
    /// empty. The snapshot itself is not touched.
    pub fn add_edges_and_extract_data(&mut self, edges: Vec<Edge>) -> (r: AddEdgeResult)
        ensures
            final(self).same_snapshot(old(self)),
            ({
                let all = old(self).pending_updates@ + edges@;
                match r {
                    AddEdgeResult::Success => all.len() < old(self).rebuild_limit
                        && final(self).pending_updates@ == all,
                    AddEdgeResult::RebuildNeeded(v) => all.len() >= old(self).rebuild_limit && v@
                        == all && final(self).pending_updates@.len() == 0,
                }
            }),
    {
        let mut edges = edges;
        self.pending_updates.append(&mut edges);
        if self.pending_updates.len() >= self.rebuild_limit {
            let mut taken: Vec<Edge> = Vec::new();
            std::mem::swap(&mut self.pending_updates, &mut taken);
            return AddEdgeResult::RebuildNeeded(taken);
        }
        AddEdgeResult::Success
    }

    /// Within each node's block the targets strictly decrease.
    pub open spec fn blocks_descending(&self) -> bool {
        forall|u: int, i: int, j: int|
            #![trigger self.node_pointers@[u], self.edge_targets@[i], self.edge_targets@[j]]
            0 <= u < self.num_nodes && self.node_pointers@[u] <= i < j < self.node_pointers@[u + 1]
                ==> self.edge_targets@[i] > self.edge_targets@[j]
    }

    /// A layout holds a pair exactly when `s` does.
    proof fn lemma_layout_has_key(&self, s: Seq<Edge>, k: (usize, usize))
        requires
            self.lays_out(s),
            nodes_below(s, self.num_nodes as int),
        ensures
            has_key(self.edges(), k) <==> has_key(s, k),
    {
        let e = self.edges();
        self.lemma_layout_pointers(s);
        if has_key(e, k) {
            let i = choose|i: int| 0 <= i < e.len() && key(e[i]) == k;
            let r = self.lemma_layout_entry(s, i);
            let j = choose|j: int| 0 <= j < s.len() && self.edge_at(i) == s[j];
            assert(key(s[j]) == k);
        }
        if has_key(s, k) {
            let j = choose|j: int| 0 <= j < s.len() && key(s[j]) == k;
            let u = s[j].0 as int;
            lemma_out_edges_members(s, u);
            lemma_out_edges_len(s, u);
            let kk = choose|kk: int| 0 <= kk < out_edges(s, u).len() && out_edges(s, u)[kk] == s[j];
            let i = self.node_pointers@[u] + kk;
            assert(self.node_pointers@[u + 1] <= self.node_pointers@[self.num_nodes as int]);
            assert(e[i] == s[j]);
        }
    }

    /// A layout of distinct edges stores the same pair-to-weight map as `s`.
    proof fn lemma_layout_same_map(&self, s: Seq<Edge>)
        requires
            self.lays_out(s),
            nodes_below(s, self.num_nodes as int),
            unique_keys(s),
            unique_keys(self.edges()),
        ensures
            last_wins(self.edges()) == last_wins(s),
    {
        let e = self.edges();
        lemma_last_wins(e);
        lemma_last_wins(s);
        lemma_unique_all_last(e);
        lemma_unique_all_last(s);
        assert forall|k: (usize, usize)| #[trigger] last_wins(e).contains_key(k) == last_wins(
            s,
        ).contains_key(k) by {
            self.lemma_layout_has_key(s, k);
        }
        assert forall|k: (usize, usize)| #[trigger] last_wins(e).contains_key(k) implies last_wins(e)[k]
            == last_wins(s)[k] by {
            let i = choose|i: int| 0 <= i < e.len() && key(e[i]) == k;
            let r = self.lemma_layout_entry(s, i);
            let j = choose|j: int| 0 <= j < s.len() && self.edge_at(i) == s[j];
            assert(last_wins(e)[key(e[i])] == e[i].2);
            assert(last_wins(s)[key(s[j])] == s[j].2);
        }
        assert(last_wins(e) =~= last_wins(s));
    }

    /// A layout of edges in descending pair order has descending targets in each block.
    proof fn lemma_layout_descending(&self, s: Seq<Edge>)
        requires
            self.lays_out(s),
            keys_descending(s),
        ensures
            self.blocks_descending(),
    {
        assert forall|u: int, i: int, j: int|
            #![trigger self.node_pointers@[u], self.edge_targets@[i], self.edge_targets@[j]]
            0 <= u < self.num_nodes && self.node_pointers@[u] <= i < j < self.node_pointers@[u + 1]
                implies self.edge_targets@[i] > self.edge_targets@[j] by {
            lemma_out_edges_len(s, u);
            lemma_out_edges_descending(s, u);
            let o = out_edges(s, u);
            let a = i - self.node_pointers@[u];
            let b = j - self.node_pointers@[u];
            assert(key_lt(key(o[b]), key(o[a])));
            assert(o[a].0 as int == u && o[b].0 as int == u);
        }
    }

    /// Replaces the snapshot by one holding the current edges merged with
    /// `new_edges`: for each `(from, to)` pair the last upsert wins, the node count
    /// becomes one more than the largest node named, and each node's edges are
    /// stored in descending order of target. The pending buffer is not touched.
    pub fn rebuild_with_edges(&mut self, new_edges: Vec<Edge>)
        requires
            old(self).wf(),
            forall|i: int|
                0 <= i < new_edges@.len() ==> #[trigger] new_edges@[i].0 < usize::MAX - 1 && new_edges@[i].1
                    < usize::MAX - 1,
        ensures
            final(self).wf(),
            final(self).rebuild_limit == old(self).rebuild_limit,
            final(self).pending_updates@ == old(self).pending_updates@,
            is_node_bound(old(self).edges() + new_edges@, final(self).num_nodes as int),
            last_wins(final(self).edges()) == last_wins(old(self).edges() + new_edges@),
            final(self).blocks_descending(),
    {
        let ghost before = self.edges();
        let m = self.edge_targets.len();
        let mut all: Vec<Edge> = Vec::new();
        let mut i: usize = 0;
        while i < m
            invariant
                self.wf(),
                before == self.edges(),
                m == self.edge_count(),
                0 <= i <= m,
                all@ == before.subrange(0, i as int),
            decreases m - i,
        {
            all.push((self.edge_source_by_index[i], self.edge_targets[i], self.edge_weights[i]));
            i = i + 1;
            assert(all@ =~= before.subrange(0, i as int));
        }
        let ghost fresh = new_edges@;
        let mut new_edges = new_edges;
        all.append(&mut new_edges);
        assert(all@ =~= before + fresh);
        let d = last_upserts_descending(&all);
        let ghost a = all@;
        proof {
            assert forall|x: int| 0 <= x < d@.len() implies (d@[x].0 as int) < usize::MAX - 1 && (
            d@[x].1 as int) < usize::MAX - 1 by {
                assert(kept_edge(a, a.len() as int, d@[x]));
                let j = choose|j: int| 0 <= j < a.len() && d@[x] == a[j] && is_last_of_key(a, j);
                if j < before.len() {
                    assert(a[j] == before[j]);
                } else {
                    assert(a[j] == fresh[j - before.len()]);
                }
            }
        }
        let mut n: usize = 0;
        let mut j: usize = 0;
        while j < d.len()
            invariant
                0 <= j <= d@.len(),
                forall|x: int|
                    0 <= x < d@.len() ==> (d@[x].0 as int) < usize::MAX - 1 && (#[trigger] d@[x].1 as int)
                        < usize::MAX - 1,
                n < usize::MAX,
                is_node_bound(d@.subrange(0, j as int), n as int),
            decreases d@.len() - j,
        {
            let (u, v, _) = d[j];
            let ghost n0 = n;
            if u + 1 > n {
                n = u + 1;
            }
            if v + 1 > n {
                n = v + 1;
            }
            proof {
                let p = d@.subrange(0, j + 1);
                assert(p[j as int] == d@[j as int]);
                assert forall|x: int| 0 <= x < j implies #[trigger] p[x] == d@.subrange(0, j as int)[x] by {}
                if n != n0 {
                    assert(p[j as int].0 == n - 1 || p[j as int].1 == n - 1);
                } else if n0 != 0 {
                    let x = choose|x: int|
                        0 <= x < j && (d@.subrange(0, j as int)[x].0 == n0 - 1 || d@.subrange(0, j as int)[x].1
                            == n0 - 1);
                    assert(p[x] == d@.subrange(0, j as int)[x]);
                }
            }
            j = j + 1;
        }
        assert(d@.subrange(0, d@.len() as int) =~= d@);
        proof {
            assert forall|x: int, y: int| 0 <= x < y < d@.len() implies key(d@[x]) != key(d@[y]) by {
                assert(key_lt(key(d@[y]), key(d@[x])));
            }
        }
        let (node_pointers, edge_targets, edge_weights, edge_source_by_index) = build_csr_from_edges(
            n,
            d.as_slice(),
        );
        self.num_nodes = n;
        self.node_pointers = node_pointers;
        self.edge_targets = edge_targets;
        self.edge_weights = edge_weights;
        self.edge_source_by_index = edge_source_by_index;
        proof {
            self.lemma_layout_wf(d@);
            self.lemma_layout_same_map(d@);
            self.lemma_layout_descending(d@);
            assert forall|i: int| 0 <= i < a.len() implies (a[i].0 as int) < n && (a[i].1 as int) < n by {
                assert(has_key(a, key(a[i])));
                assert(has_key(d@, key(a[i])));
                let x = choose|x: int| 0 <= x < d@.len() && key(d@[x]) == key(a[i]);
            }
            if n != 0 {
                let x = choose|x: int| 0 <= x < d@.len() && (d@[x].0 == n - 1 || d@[x].1 == n - 1);
                assert(kept_edge(a, a.len() as int, d@[x]));
            }
        }
    }

    /// Merges the whole pending buffer into the snapshot and leaves the buffer empty.
    pub fn rebuild(&mut self)
        requires
            old(self).wf(),
            forall|i: int|
                0 <= i < old(self).pending_updates@.len() ==> #[trigger] old(self).pending_updates@[i].0
                    < usize::MAX - 1 && old(self).pending_updates@[i].1 < usize::MAX - 1,
        ensures
            final(self).wf(),
            final(self).rebuild_limit == old(self).rebuild_limit,
            final(self).pending_updates@.len() == 0,
            is_node_bound(old(self).edges() + old(self).pending_updates@, final(self).num_nodes as int),
            last_wins(final(self).edges()) == last_wins(old(self).edges() + old(self).pending_updates@),
            final(self).blocks_descending(),
    {
        let mut taken: Vec<Edge> = Vec::new();
        std::mem::swap(&mut self.pending_updates, &mut taken);
        assert(self.edges() =~= old(self).edges());
        assert(taken@ == old(self).pending_updates@);
        self.rebuild_with_edges(taken);
    }

    /// Appends a batch to the pending buffer and, once the buffer holds at least
    /// `rebuild_limit` edges, merges it into the snapshot in place.
    pub fn add_edges(&mut self, edges: Vec<Edge>)
        requires
            old(self).wf(),
            forall|i: int|
                0 <= i < old(self).pending_updates@.len() ==> #[trigger] old(self).pending_updates@[i].0
                    < usize::MAX - 1 && old(self).pending_updates@[i].1 < usize::MAX - 1,
            forall|i: int|
                0 <= i < edges@.len() ==> #[trigger] edges@[i].0 < usize::MAX - 1 && edges@[i].1
                    < usize::MAX - 1,
        ensures
            final(self).wf(),
            final(self).rebuild_limit == old(self).rebuild_limit,
            ({
                let all = old(self).pending_updates@ + edges@;
                if all.len() < old(self).rebuild_limit {
                    final(self).same_snapshot(old(self)) && final(self).pending_updates@ == all
                } else {
                    &&& final(self).pending_updates@.len() == 0
                    &&& is_node_bound(old(self).edges() + all, final(self).num_nodes as int)
                    &&& last_wins(final(self).edges()) == last_wins(old(self).edges() + all)
                    &&& final(self).blocks_descending()
                }
            }),
    {
        let ghost all = old(self).pending_updates@ + edges@;
        let ghost batch = edges@;
        let mut edges = edges;
        self.pending_updates.append(&mut edges);
        assert(self.pending_updates@ =~= all);
        assert(self.edges() =~= old(self).edges());
        if self.pending_updates.len() >= self.rebuild_limit {
            proof {
                assert forall|i: int| 0 <= i < all.len() implies #[trigger] all[i].0 < usize::MAX - 1 && all[i].1
                    < usize::MAX - 1 by {
                    if i >= old(self).pending_updates@.len() {
                        assert(all[i] == batch[i - old(self).pending_updates@.len()]);
                    }
                }
            }
            self.rebuild();
        }
    }
}

/// In every snapshot, edge `i` has source `u` exactly when `i` lies in the block
/// `node_pointers[u]..node_pointers[u + 1]`.
pub proof fn lemma_source_iff_in_block(g: &GraphCSR, i: int, u: int)
    requires
        g.wf(),
        0 <= i < g.edge_count(),
        0 <= u < g.num_nodes,
    ensures
        g.edge_source_by_index@[i] == u <==> g.node_pointers@[u] <= i < g.node_pointers@[u + 1],
{
    let v = lemma_block_of(g.node_pointers@, g.num_nodes as int, i);
    assert(g.edge_source_by_index@[i] == v);
    if u < v {
        assert(g.node_pointers@[u + 1] <= g.node_pointers@[v]);
    } else if u > v {
        assert(g.node_pointers@[v + 1] <= g.node_pointers@[u]);
    }
}

/// Merging upserts into a store keeps, for every pair that the upserts name, the
/// weight of its last upsert, and leaves every other pair as the store had it.
pub proof fn lemma_upserts_last_wins(before: Seq<Edge>, upserts: Seq<Edge>, k: (usize, usize))
    ensures
        has_key(upserts, k) ==> last_wins(before + upserts).contains_key(k) && last_wins(
            before + upserts,
        )[k] == last_wins(upserts)[k],
        !has_key(upserts, k) ==> last_wins(before + upserts).contains_key(k) == last_wins(
            before,
        ).contains_key(k) && last_wins(before + upserts)[k] == last_wins(before)[k],
    decreases upserts.len(),
{
    lemma_last_wins(upserts);
    if upserts.len() > 0 {
        let t = upserts.drop_last();
        assert((before + upserts).drop_last() =~= before + t);
        lemma_upserts_last_wins(before, t, k);
        lemma_last_wins(t);
        if has_key(upserts, k) && k != key(upserts.last()) {
            let j = choose|j: int| 0 <= j < upserts.len() && key(upserts[j]) == k;
            assert(t[j] == upserts[j]);
        }
        if has_key(t, k) {
            let j = choose|j: int| 0 <= j < t.len() && key(t[j]) == k;
            assert(t[j] == upserts[j]);
        }
    } else {
        assert(before + upserts =~= before);
    }
}

} // verus!
