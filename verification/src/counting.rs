//! Counting list entries: in a graph that stores each edge at both endpoints
//! the upper edges are at most half of all entries, and totals of lists of
//! known lengths.
use vstd::prelude::*;
use crate::graph::{
    Adjacency, mirrored, row_upper, total_degree, upper_edges_of, weights_to, within, lemma_weights_to_push,
};

verus! {

/// The number of entries of `row` that lead to a vertex in `lo..hi`.
spec fn count_range<W>(row: Seq<(usize, W)>, lo: int, hi: int) -> nat
    decreases hi - lo,
{
    if hi <= lo {
        0
    } else {
        count_range(row, lo, hi - 1) + weights_to(row, (hi - 1) as usize).len()
    }
}

proof fn lemma_count_range_push<W>(row: Seq<(usize, W)>, x: (usize, W), lo: int, hi: int)
    requires
        0 <= lo,
        hi <= usize::MAX + 1,
    ensures
        count_range(row.push(x), lo, hi) == count_range(row, lo, hi) + if lo <= x.0 < hi {
            1nat
        } else {
            0nat
        },
    decreases hi - lo,
{
    if hi > lo {
        lemma_count_range_push(row, x, lo, hi - 1);
        lemma_weights_to_push(row, x, (hi - 1) as usize);
    }
}

proof fn lemma_count_range_empty<W>(row: Seq<(usize, W)>, lo: int, hi: int)
    requires
        row.len() == 0,
    ensures
        count_range(row, lo, hi) == 0,
    decreases hi - lo,
{
    if hi > lo {
        lemma_count_range_empty(row, lo, hi - 1);
    }
}

proof fn lemma_count_range_split<W>(row: Seq<(usize, W)>, lo: int, mid: int, hi: int)
    requires
        lo <= mid <= hi,
    ensures
        count_range(row, lo, hi) == count_range(row, lo, mid) + count_range(row, mid, hi),
    decreases hi - mid,
{
    if hi > mid {
        lemma_count_range_split(row, lo, mid, hi - 1);
    }
}

/// A list whose entries all lead below `hi` has as many entries as lead into `0..hi`,
/// and as many upper entries above `i` as lead into `i+1..hi`.
proof fn lemma_row_counts<W>(row: Seq<(usize, W)>, i: int, hi: int)
    requires
        0 <= i,
        hi <= usize::MAX + 1,
        forall|k: int| 0 <= k < row.len() ==> (#[trigger] row[k].0) < hi,
    ensures
        row.len() == count_range(row, 0, hi),
        row_upper(row, i).len() == count_range(row, i + 1, hi),
    decreases row.len(),
{
    if row.len() == 0 {
        lemma_count_range_empty(row, 0, hi);
        lemma_count_range_empty(row, i + 1, hi);
    } else {
        let prev = row.drop_last();
        assert forall|k: int| 0 <= k < prev.len() implies (#[trigger] prev[k].0) < hi by {
            assert(prev[k] == row[k]);
        }
        lemma_row_counts(prev, i, hi);
        assert(row == prev.push(row.last()));
        assert(row.last() == row[row.len() - 1]);
        lemma_count_range_push(prev, row.last(), 0, hi);
        lemma_count_range_push(prev, row.last(), i + 1, hi);
    }
}

/// The entries of the lists of `0..k` that lead above their own vertex and below `hi`.
spec fn upper_count<W>(adj: Adjacency<W>, k: int, hi: int) -> nat
    decreases k,
{
    if k <= 0 {
        0
    } else {
        upper_count(adj, k - 1, hi) + count_range(adj[k - 1], k, hi)
    }
}

/// The entries of the lists of `0..k` that lead below their own vertex.
spec fn lower_count<W>(adj: Adjacency<W>, k: int) -> nat
    decreases k,
{
    if k <= 0 {
        0
    } else {
        lower_count(adj, k - 1) + count_range(adj[k - 1], 0, k - 1)
    }
}

/// The entries of the lists of `0..k` that lead to `j`.
spec fn column_count<W>(adj: Adjacency<W>, k: int, j: usize) -> nat
    decreases k,
{
    if k <= 0 {
        0
    } else {
        column_count(adj, k - 1, j) + weights_to(adj[k - 1], j).len()
    }
}

/// The total length of the lists of `0..k`.
spec fn row_sum<W>(adj: Adjacency<W>, k: int) -> nat
    decreases k,
{
    if k <= 0 {
        0
    } else {
        row_sum(adj, k - 1) + adj[k - 1].len()
    }
}

proof fn lemma_upper_count_step<W>(adj: Adjacency<W>, k: int, hi: int)
    requires
        0 <= k <= hi,
    ensures
        upper_count(adj, k, hi + 1) == upper_count(adj, k, hi) + column_count(adj, k, hi as usize),
    decreases k,
{
    if k > 0 {
        lemma_upper_count_step(adj, k - 1, hi);
    }
}

proof fn lemma_column_count_mirrored<W>(adj: Adjacency<W>, k: int, m: int)
    requires
        mirrored(adj),
        0 <= k <= m < adj.len(),
        adj.len() <= usize::MAX,
    ensures
        column_count(adj, k, m as usize) == count_range(adj[m], 0, k),
    decreases k,
{
    if k > 0 {
        lemma_column_count_mirrored(adj, k - 1, m);
        let u = (k - 1) as usize;
        let v = m as usize;
        assert(weights_to(adj[u as int], v) == weights_to(adj[v as int], u));
    }
}

proof fn lemma_upper_lower<W>(adj: Adjacency<W>, m: int)
    requires
        mirrored(adj),
        0 <= m <= adj.len(),
        adj.len() <= usize::MAX,
    ensures
        upper_count(adj, m, m) == lower_count(adj, m),
    decreases m,
{
    if m > 0 {
        lemma_upper_lower(adj, m - 1);
        lemma_upper_count_step(adj, m - 1, m - 1);
        lemma_column_count_mirrored(adj, m - 1, m - 1);
    }
}

/// The entries of the lists of `0..k` that lead back to their own vertex.
spec fn diagonal_count<W>(adj: Adjacency<W>, k: int) -> nat
    decreases k,
{
    if k <= 0 {
        0
    } else {
        diagonal_count(adj, k - 1) + weights_to(adj[k - 1], (k - 1) as usize).len()
    }
}

proof fn lemma_row_sum_bound<W>(adj: Adjacency<W>, k: int, n: int)
    requires
        0 <= k <= n,
        n == adj.len(),
        n <= usize::MAX,
        forall|i: int, t: int| 0 <= i < n && 0 <= t < adj[i].len() ==> #[trigger] adj[i][t].0 < n,
    ensures
        row_sum(adj, k) == upper_count(adj, k, n) + lower_count(adj, k) + diagonal_count(adj, k),
    decreases k,
{
    if k > 0 {
        lemma_row_sum_bound(adj, k - 1, n);
        let row = adj[k - 1];
        assert forall|t: int| 0 <= t < row.len() implies (#[trigger] row[t].0) < n by {
            assert(adj[k - 1][t].0 < n);
        }
        lemma_row_counts(row, k - 1, n);
        lemma_count_range_split(row, 0, k - 1, n);
        lemma_count_range_split(row, k - 1, k, n);
        assert(count_range(row, k - 1, k - 1) == 0);
        assert(count_range(row, k - 1, k) == weights_to(row, (k - 1) as usize).len());
    }
}

proof fn lemma_row_sum_total<W>(adj: Adjacency<W>, k: int)
    requires
        0 <= k <= adj.len(),
    ensures
        total_degree(adj.take(k)) == row_sum(adj, k),
    decreases k,
{
    if k > 0 {
        lemma_row_sum_total(adj, k - 1);
        assert(adj.take(k).drop_last() =~= adj.take(k - 1));
    }
}

proof fn lemma_upper_edges_count<W>(adj: Adjacency<W>, k: int, n: int)
    requires
        0 <= k <= n,
        n == adj.len(),
        n <= usize::MAX,
        forall|i: int, t: int| 0 <= i < n && 0 <= t < adj[i].len() ==> #[trigger] adj[i][t].0 < n,
    ensures
        upper_edges_of(adj, k).len() == upper_count(adj, k, n),
    decreases k,
{
    if k > 0 {
        lemma_upper_edges_count(adj, k - 1, n);
        let row = adj[k - 1];
        assert forall|t: int| 0 <= t < row.len() implies (#[trigger] row[t].0) < n by {
            assert(adj[k - 1][t].0 < n);
        }
        lemma_row_counts(row, k - 1, n);
    }
}

/// In a graph that stores each edge at both endpoints, the upper edges are at
/// most half of all list entries: each one has a mirror entry below the diagonal.
pub proof fn lemma_upper_edges_half<W>(adj: Adjacency<W>)
    requires
        mirrored(adj),
        adj.len() <= usize::MAX,
        forall|i: int, t: int| 0 <= i < adj.len() && 0 <= t < adj[i].len() ==> #[trigger] adj[i][t].0 < adj.len(),
    ensures
        2 * upper_edges_of(adj, adj.len() as int).len() <= total_degree(adj),
{
    let n = adj.len() as int;
    lemma_upper_edges_count(adj, n, n);
    lemma_upper_lower(adj, n);
    lemma_row_sum_bound(adj, n, n);
    lemma_row_sum_total(adj, n);
    assert(adj.take(n) =~= adj);
}

proof fn lemma_row_sum_rows<W>(adj: Adjacency<W>, k: int, len: spec_fn(int) -> int, total: spec_fn(int) -> int)
    requires
        0 <= k <= adj.len(),
        total(0) == 0,
        forall|i: int| 0 <= i < k ==> #[trigger] adj[i].len() == len(i) && total(i + 1) == total(i) + len(i),
    ensures
        row_sum(adj, k) == total(k),
    decreases k,
{
    if k > 0 {
        lemma_row_sum_rows(adj, k - 1, len, total);
        assert(adj[k - 1].len() == len(k - 1));
    }
}

/// The total length of lists that follow a known per-vertex count.
pub(crate) proof fn lemma_total_degree_rows<W>(adj: Adjacency<W>, len: spec_fn(int) -> int, total: spec_fn(int) -> int)
    requires
        total(0) == 0,
        forall|i: int| 0 <= i < adj.len() ==> #[trigger] adj[i].len() == len(i) && total(i + 1) == total(i) + len(i),
    ensures
        total_degree(adj) == total(adj.len() as int),
{
    lemma_row_sum_rows(adj, adj.len() as int, len, total);
    lemma_row_sum_total(adj, adj.len() as int);
    assert(adj.take(adj.len() as int) =~= adj);
}

/// The entries of the list of `vs[a]` that lead to `vs[b]` for `lo <= b < hi`.
pub open spec fn pair_range<W>(adj: Adjacency<W>, vs: Seq<usize>, a: int, lo: int, hi: int) -> nat
    decreases hi - lo,
{
    if hi <= lo {
        0
    } else {
        pair_range(adj, vs, a, lo, hi - 1) + weights_to(adj[vs[a] as int], vs[hi - 1]).len()
    }
}

/// The edges of `adj` between distinct vertices of `vs[0..k]` and later
/// vertices of `vs`, each counted once, as the list of the earlier one holds it.
pub open spec fn induced_edge_count<W>(adj: Adjacency<W>, vs: Seq<usize>, k: int) -> nat
    decreases k,
{
    if k <= 0 {
        0
    } else {
        induced_edge_count(adj, vs, k - 1) + pair_range(adj, vs, k - 1, k, vs.len() as int)
    }
}

proof fn lemma_diagonal_zero<W>(adj: Adjacency<W>, k: int)
    requires
        0 <= k <= adj.len(),
        adj.len() <= usize::MAX,
        forall|i: int| 0 <= i < adj.len() ==> #[trigger] weights_to(adj[i], i as usize).len() == 0,
    ensures
        diagonal_count(adj, k) == 0,
    decreases k,
{
    if k > 0 {
        lemma_diagonal_zero(adj, k - 1);
        assert(weights_to(adj[k - 1], (k - 1) as usize).len() == 0);
    }
}

proof fn lemma_pair_range<W>(g: Adjacency<W>, adj: Adjacency<W>, vs: Seq<usize>, a: int, lo: int, hi: int)
    requires
        0 <= lo,
        hi <= vs.len(),
        vs.len() <= usize::MAX,
        forall|b: int| lo <= b < hi ==> #[trigger] weights_to(g[a], b as usize) == weights_to(adj[vs[a] as int], vs[b]),
    ensures
        count_range(g[a], lo, hi) == pair_range(adj, vs, a, lo, hi),
    decreases hi - lo,
{
    if hi > lo {
        lemma_pair_range(g, adj, vs, a, lo, hi - 1);
        assert(weights_to(g[a], (hi - 1) as usize) == weights_to(adj[vs[a] as int], vs[hi - 1]));
    }
}

proof fn lemma_upper_count_induced<W>(g: Adjacency<W>, adj: Adjacency<W>, vs: Seq<usize>, k: int)
    requires
        0 <= k <= vs.len(),
        vs.len() <= usize::MAX,
        forall|a: int, b: int|
            0 <= a < b < vs.len() ==> #[trigger] weights_to(g[a], b as usize) == weights_to(adj[vs[a] as int], vs[b]),
    ensures
        upper_count(g, k, vs.len() as int) == induced_edge_count(adj, vs, k),
    decreases k,
{
    if k > 0 {
        lemma_upper_count_induced(g, adj, vs, k - 1);
        assert forall|b: int| k <= b < vs.len() implies #[trigger] weights_to(g[k - 1], b as usize) == weights_to(
            adj[vs[k - 1] as int],
            vs[b],
        ) by {
            assert(weights_to(g[k - 1], b as usize) == weights_to(adj[vs[k - 1] as int], vs[b]));
        }
        lemma_pair_range(g, adj, vs, k - 1, k, vs.len() as int);
    }
}

/// A graph `g` on the new vertices of `vs` that stores each edge at both ends,
/// has no self-links, and whose new vertex `a < b` lists for `b` exactly what
/// `vs[a]` lists for `vs[b]` has twice as many entries as there are such edges.
pub proof fn lemma_induced_degree<W>(g: Adjacency<W>, adj: Adjacency<W>, vs: Seq<usize>)
    requires
        g.len() == vs.len(),
        vs.len() <= usize::MAX,
        mirrored(g),
        forall|i: int, t: int| 0 <= i < g.len() && 0 <= t < g[i].len() ==> #[trigger] g[i][t].0 < g.len(),
        forall|i: int| 0 <= i < g.len() ==> #[trigger] weights_to(g[i], i as usize).len() == 0,
        forall|a: int, b: int|
            0 <= a < b < vs.len() ==> #[trigger] weights_to(g[a], b as usize) == weights_to(adj[vs[a] as int], vs[b]),
    ensures
        total_degree(g) == 2 * induced_edge_count(adj, vs, vs.len() as int),
{
    let n = g.len() as int;
    lemma_row_sum_bound(g, n, n);
    lemma_diagonal_zero(g, n);
    lemma_upper_lower(g, n);
    lemma_row_sum_total(g, n);
    assert(g.take(n) =~= g);
    lemma_upper_count_induced(g, adj, vs, n);
}

proof fn lemma_count_range_within<W>(r: Seq<(usize, W)>, g: Seq<(usize, W)>, hi: int)
    requires
        0 <= hi <= usize::MAX + 1,
        forall|v: usize| (v as int) < hi ==> #[trigger] weights_to(r, v).len() <= weights_to(g, v).len(),
    ensures
        count_range(r, 0, hi) <= count_range(g, 0, hi),
    decreases hi,
{
    if hi > 0 {
        lemma_count_range_within(r, g, hi - 1);
        assert(weights_to(r, (hi - 1) as usize).len() <= weights_to(g, (hi - 1) as usize).len());
    }
}

proof fn lemma_row_sum_within<W>(r: Adjacency<W>, g: Adjacency<W>, k: int)
    requires
        within(r, g),
        0 <= k <= r.len(),
        r.len() <= usize::MAX,
        forall|i: int, t: int| 0 <= i < r.len() && 0 <= t < r[i].len() ==> #[trigger] r[i][t].0 < r.len(),
        forall|i: int, t: int| 0 <= i < g.len() && 0 <= t < g[i].len() ==> #[trigger] g[i][t].0 < g.len(),
    ensures
        row_sum(r, k) <= row_sum(g, k),
    decreases k,
{
    if k > 0 {
        let n = r.len() as int;
        lemma_row_sum_within(r, g, k - 1);
        let rr = r[k - 1];
        let gr = g[k - 1];
        assert forall|t: int| 0 <= t < rr.len() implies (#[trigger] rr[t].0) < n by {
            assert(r[k - 1][t].0 < n);
        }
        assert forall|t: int| 0 <= t < gr.len() implies (#[trigger] gr[t].0) < n by {
            assert(g[k - 1][t].0 < n);
        }
        lemma_row_counts(rr, 0, n);
        lemma_row_counts(gr, 0, n);
        assert forall|v: usize| (v as int) < n implies #[trigger] weights_to(rr, v).len() <= weights_to(gr, v).len() by {
            let u = (k - 1) as usize;
            assert(weights_to(r[u as int], v).len() <= weights_to(g[u as int], v).len());
        }
        lemma_count_range_within(rr, gr, n);
    }
}

/// A graph within another has at most its total degree.
pub proof fn lemma_within_degree<W>(r: Adjacency<W>, g: Adjacency<W>)
    requires
        within(r, g),
        r.len() <= usize::MAX,
        forall|i: int, t: int| 0 <= i < r.len() && 0 <= t < r[i].len() ==> #[trigger] r[i][t].0 < r.len(),
        forall|i: int, t: int| 0 <= i < g.len() && 0 <= t < g[i].len() ==> #[trigger] g[i][t].0 < g.len(),
    ensures
        total_degree(r) <= total_degree(g),
{
    let n = r.len() as int;
    lemma_row_sum_within(r, g, n);
    lemma_row_sum_total(r, n);
    lemma_row_sum_total(g, n);
    assert(r.take(n) =~= r);
    assert(g.take(n) =~= g);
}

} // verus!
