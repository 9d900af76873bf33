//! Cuts seen from either side: unions of weights over rectangles of vertex
//! pairs, and the symmetry of edge boundaries in an undirected graph.
use vstd::prelude::*;
use vstd::multiset::Multiset;
use crate::graph::{Adjacency, mirrored, weights_to};
use crate::cheeger::{boundary_weights, crossing_weights};

verus! {

/// The union of `f(u)` over the `u` in `0..b` with `p(u)`.
pub open spec fn pick_sum<W>(f: spec_fn(int) -> Multiset<W>, p: spec_fn(int) -> bool, b: int) -> Multiset<W>
    decreases b,
{
    if b <= 0 {
        Multiset::empty()
    } else {
        pick_sum(f, p, b - 1).add(
            if p(b - 1) {
                f(b - 1)
            } else {
                Multiset::empty()
            },
        )
    }
}

/// Row `u` of the table `t`.
pub open spec fn row_of<W>(t: spec_fn(int, int) -> Multiset<W>, u: int) -> spec_fn(int) -> Multiset<W> {
    |v: int| t(u, v)
}

/// Column `v` of the table `t`.
pub open spec fn col_of<W>(t: spec_fn(int, int) -> Multiset<W>, v: int) -> spec_fn(int) -> Multiset<W> {
    |u: int| t(u, v)
}

/// For each row `u`, the union of its entries in the columns `v < b` with `q(v)`.
pub open spec fn row_sums<W>(t: spec_fn(int, int) -> Multiset<W>, q: spec_fn(int) -> bool, b: int) -> spec_fn(
    int,
) -> Multiset<W> {
    |u: int| pick_sum(row_of(t, u), q, b)
}

/// For each column `v`, the union of its entries in the rows `u < a` with `p(u)`.
pub open spec fn col_sums<W>(t: spec_fn(int, int) -> Multiset<W>, p: spec_fn(int) -> bool, a: int) -> spec_fn(
    int,
) -> Multiset<W> {
    |v: int| pick_sum(col_of(t, v), p, a)
}

/// The weights that the lists of the vertices `u` with `src(u)` hold for the
/// vertices `v` with `tgt(v)`, over the vertices `0..n`.
pub open spec fn cut_weights<W>(adj: Adjacency<W>, src: spec_fn(int) -> bool, tgt: spec_fn(int) -> bool, n: int) -> Multiset<W> {
    pick_sum(row_sums(weight_table(adj), tgt, n), src, n)
}

/// The weights that the list of `u` holds for `v`, as a multiset.
pub open spec fn weight_table<W>(adj: Adjacency<W>) -> spec_fn(int, int) -> Multiset<W> {
    |u: int, v: int| weights_to(adj[u], v as usize).to_multiset()
}

/// The weights that `row` lists for each vertex, as multisets.
pub open spec fn row_weights<W>(row: Seq<(usize, W)>) -> spec_fn(int) -> Multiset<W> {
    |v: int| weights_to(row, v as usize).to_multiset()
}

/// For each vertex `u`, the weights of the edges from `u` to the vertices outside `s`.
pub open spec fn crossing_rows<W>(adj: Adjacency<W>, s: Seq<usize>) -> spec_fn(int) -> Multiset<W> {
    |u: int| crossing_weights(adj[u], s).to_multiset()
}

/// Membership in `s`, as a predicate on the integers.
pub open spec fn in_seq(s: Seq<usize>) -> spec_fn(int) -> bool {
    |u: int| 0 <= u && s.contains(u as usize)
}

/// Non-membership in `s`, as a predicate on the integers.
pub open spec fn not_in_seq(s: Seq<usize>) -> spec_fn(int) -> bool {
    |u: int| !(0 <= u && s.contains(u as usize))
}

/// The vertices of `0..m` outside `s`, in increasing order.
pub open spec fn outside(s: Seq<usize>, m: int) -> Seq<usize>
    decreases m,
{
    if m <= 0 {
        Seq::empty()
    } else {
        outside(s, m - 1) + if s.contains((m - 1) as usize) {
            Seq::empty()
        } else {
            seq![(m - 1) as usize]
        }
    }
}

/// Strictly increasing.
pub open spec fn increasing(s: Seq<usize>) -> bool {
    forall|x: int, y: int| 0 <= x < y < s.len() ==> #[trigger] s[x] < #[trigger] s[y]
}

/// `f(s[0]) + ... + f(s[m - 1])`.
pub open spec fn list_sum<W>(f: spec_fn(int) -> Multiset<W>, s: Seq<usize>, m: int) -> Multiset<W>
    decreases m,
{
    if m <= 0 {
        Multiset::empty()
    } else {
        list_sum(f, s, m - 1).add(f(s[m - 1] as int))
    }
}

proof fn lemma_pick_sum_congr<W>(
    f: spec_fn(int) -> Multiset<W>,
    g: spec_fn(int) -> Multiset<W>,
    p: spec_fn(int) -> bool,
    q: spec_fn(int) -> bool,
    b: int,
)
    requires
        forall|u: int| #![trigger p(u)] #![trigger q(u)] 0 <= u < b ==> p(u) == q(u) && (p(u) ==> f(u) == g(u)),
    ensures
        pick_sum(f, p, b) == pick_sum(g, q, b),
    decreases b,
{
    if b > 0 {
        lemma_pick_sum_congr(f, g, p, q, b - 1);
    }
}

proof fn lemma_pick_sum_empty<W>(f: spec_fn(int) -> Multiset<W>, p: spec_fn(int) -> bool, b: int)
    requires
        forall|u: int| #![trigger f(u)] 0 <= u < b ==> f(u) == Multiset::<W>::empty(),
    ensures
        pick_sum(f, p, b) == Multiset::<W>::empty(),
    decreases b,
{
    if b > 0 {
        lemma_pick_sum_empty(f, p, b - 1);
        assert(pick_sum(f, p, b) =~= Multiset::<W>::empty());
    }
}

proof fn lemma_pick_sum_add<W>(
    f: spec_fn(int) -> Multiset<W>,
    g: spec_fn(int) -> Multiset<W>,
    h: spec_fn(int) -> Multiset<W>,
    p: spec_fn(int) -> bool,
    b: int,
)
    requires
        forall|u: int| #![trigger h(u)] 0 <= u < b ==> h(u) == f(u).add(g(u)),
    ensures
        pick_sum(h, p, b) == pick_sum(f, p, b).add(pick_sum(g, p, b)),
    decreases b,
{
    if b > 0 {
        lemma_pick_sum_add(f, g, h, p, b - 1);
        assert(pick_sum(h, p, b) =~= pick_sum(f, p, b).add(pick_sum(g, p, b)));
    }
}

/// A union over a rectangle may be taken rows first or columns first.
proof fn lemma_pick_sum_swap<W>(t: spec_fn(int, int) -> Multiset<W>, p: spec_fn(int) -> bool, q: spec_fn(int) -> bool, a: int, b: int)
    ensures
        pick_sum(row_sums(t, q, b), p, a) == pick_sum(col_sums(t, p, a), q, b),
    decreases a,
{
    if a <= 0 {
        assert forall|v: int| #![trigger col_sums(t, p, a)(v)] 0 <= v < b implies col_sums(t, p, a)(v) == Multiset::<W>::empty() by {}
        lemma_pick_sum_empty(col_sums(t, p, a), q, b);
    } else {
        lemma_pick_sum_swap(t, p, q, a - 1, b);
        let g = |v: int| if p(a - 1) { t(a - 1, v) } else { Multiset::<W>::empty() };
        assert forall|v: int| #![trigger col_sums(t, p, a)(v)] 0 <= v < b implies col_sums(t, p, a)(v) == col_sums(t, p, a - 1)(v).add(g(v)) by {}
        lemma_pick_sum_add(col_sums(t, p, a - 1), g, col_sums(t, p, a), q, b);
        if p(a - 1) {
            lemma_pick_sum_congr(g, row_of(t, a - 1), q, q, b);
        } else {
            lemma_pick_sum_empty(g, q, b);
            assert(pick_sum(col_sums(t, p, a), q, b) =~= pick_sum(col_sums(t, p, a - 1), q, b));
        }
        assert(pick_sum(row_sums(t, q, b), p, a) =~= pick_sum(col_sums(t, p, a), q, b));
    }
}

proof fn lemma_pick_sum_single<W>(g: spec_fn(int) -> Multiset<W>, x: int, m: Multiset<W>, p: spec_fn(int) -> bool, b: int)
    requires
        forall|v: int| #![trigger g(v)] 0 <= v < b ==> g(v) == if v == x { m } else { Multiset::<W>::empty() },
    ensures
        pick_sum(g, p, b) == if 0 <= x < b && p(x) {
            m
        } else {
            Multiset::<W>::empty()
        },
    decreases b,
{
    if b > 0 {
        lemma_pick_sum_single(g, x, m, p, b - 1);
        assert(g(b - 1) == if b - 1 == x { m } else { Multiset::<W>::empty() });
        assert(pick_sum(g, p, b) =~= if 0 <= x < b && p(x) {
            m
        } else {
            Multiset::<W>::empty()
        });
    }
}

proof fn lemma_pick_sum_insert<W>(f: spec_fn(int) -> Multiset<W>, p: spec_fn(int) -> bool, q: spec_fn(int) -> bool, x: int, b: int)
    requires
        0 <= x < b,
        !p(x),
        forall|u: int| #![trigger q(u)] #![trigger p(u)] 0 <= u < b ==> q(u) == (p(u) || u == x),
    ensures
        pick_sum(f, q, b) == pick_sum(f, p, b).add(f(x)),
    decreases b,
{
    if b - 1 > x {
        lemma_pick_sum_insert(f, p, q, x, b - 1);
        assert(pick_sum(f, q, b) =~= pick_sum(f, p, b).add(f(x)));
    } else {
        lemma_pick_sum_congr(f, f, p, q, b - 1);
        assert(pick_sum(f, q, b) =~= pick_sum(f, p, b).add(f(x)));
    }
}

/// The sum over an increasing list is the sum over its members.
proof fn lemma_list_sum_members<W>(f: spec_fn(int) -> Multiset<W>, s: Seq<usize>, b: int)
    requires
        increasing(s),
        forall|k: int| 0 <= k < s.len() ==> #[trigger] s[k] < b,
        b <= usize::MAX + 1,
    ensures
        list_sum(f, s, s.len() as int) == pick_sum(f, in_seq(s), b),
    decreases s.len(),
{
    if s.len() == 0 {
        lemma_pick_sum_empty_pred(f, in_seq(s), b);
    } else {
        let t = s.drop_last();
        let x = s.last();
        assert forall|k: int| 0 <= k < t.len() implies #[trigger] t[k] < b by {
            assert(t[k] == s[k]);
        }
        lemma_list_sum_members(f, t, b);
        lemma_list_sum_prefix(f, s, t, t.len() as int);
        assert(s[s.len() - 1] == x);
        assert(!t.contains(x)) by {
            if t.contains(x) {
                let k = choose|k: int| 0 <= k < t.len() && t[k] == x;
                assert(s[k] < s[s.len() - 1]);
            }
        }
        assert forall|u: int| #![trigger in_seq(s)(u)] 0 <= u < b implies in_seq(s)(u) == (in_seq(t)(u) || u == x) by {
            if in_seq(s)(u) {
                let k = choose|k: int| 0 <= k < s.len() && s[k] == u as usize;
                if k < t.len() {
                    assert(t[k] == s[k]);
                }
            }
            if in_seq(t)(u) {
                let k = choose|k: int| 0 <= k < t.len() && t[k] == u as usize;
                assert(s[k] == t[k]);
            }
            if u == x {
                assert(s[s.len() - 1] == u as usize);
            }
        }
        lemma_pick_sum_insert(f, in_seq(t), in_seq(s), x as int, b);
    }
}

proof fn lemma_pick_sum_empty_pred<W>(f: spec_fn(int) -> Multiset<W>, p: spec_fn(int) -> bool, b: int)
    requires
        forall|u: int| #![trigger p(u)] 0 <= u < b ==> !p(u),
    ensures
        pick_sum(f, p, b) == Multiset::<W>::empty(),
    decreases b,
{
    if b > 0 {
        lemma_pick_sum_empty_pred(f, p, b - 1);
        assert(pick_sum(f, p, b) =~= Multiset::<W>::empty());
    }
}

proof fn lemma_list_sum_prefix<W>(f: spec_fn(int) -> Multiset<W>, s: Seq<usize>, t: Seq<usize>, m: int)
    requires
        0 <= m <= t.len(),
        m <= s.len(),
        forall|k: int| 0 <= k < m ==> s[k] == t[k],
    ensures
        list_sum(f, s, m) == list_sum(f, t, m),
    decreases m,
{
    if m > 0 {
        lemma_list_sum_prefix(f, s, t, m - 1);
    }
}

/// The crossing weights of a list are its weights for the vertices outside `s`.
proof fn lemma_crossing_pick<W>(row: Seq<(usize, W)>, s: Seq<usize>, n: int)
    requires
        n <= usize::MAX + 1,
        forall|k: int| 0 <= k < row.len() ==> (#[trigger] row[k].0) < n,
    ensures
        crossing_weights(row, s).to_multiset() == pick_sum(row_weights(row), not_in_seq(s), n),
    decreases row.len(),
{
    broadcast use vstd::seq_lib::group_to_multiset_ensures;

    let f = row_weights(row);
    if row.len() == 0 {
        assert forall|v: int| #![trigger f(v)] 0 <= v < n implies f(v) == Multiset::<W>::empty() by {
            assert(weights_to(row, v as usize) =~= Seq::<W>::empty());
        }
        lemma_pick_sum_empty(f, not_in_seq(s), n);
        assert(crossing_weights(row, s) =~= Seq::<W>::empty());
    } else {
        let prev = row.drop_last();
        let x = row.last();
        assert forall|k: int| 0 <= k < prev.len() implies (#[trigger] prev[k].0) < n by {
            assert(prev[k] == row[k]);
        }
        lemma_crossing_pick(prev, s, n);
        let fp = row_weights(prev);
        let m1 = seq![x.1].to_multiset();
        let g = |v: int| if v == x.0 as int { m1 } else { Multiset::<W>::empty() };
        assert forall|v: int| #![trigger f(v)] 0 <= v < n implies f(v) == fp(v).add(g(v)) by {
            assert((v as usize) as int == v);
            let extra = if row.last().0 == v as usize { seq![row.last().1] } else { Seq::<W>::empty() };
            assert(weights_to(row, v as usize) == weights_to(prev, v as usize) + extra);
            vstd::seq_lib::lemma_multiset_commutative(weights_to(prev, v as usize), extra);
            assert(f(v) == weights_to(row, v as usize).to_multiset());
            assert(fp(v) == weights_to(prev, v as usize).to_multiset());
            assert(extra.to_multiset() == g(v));
            assert(Seq::<W>::empty().to_multiset() =~= Multiset::<W>::empty()) by {
                broadcast use vstd::seq_lib::group_to_multiset_ensures;
            }
            assert(f(v) =~= fp(v).add(g(v)));
        }
        lemma_pick_sum_add(fp, g, f, not_in_seq(s), n);
        lemma_pick_sum_single(g, x.0 as int, m1, not_in_seq(s), n);
        assert(row[row.len() - 1].0 < n);
        let tail = if s.contains(x.0) { Seq::<W>::empty() } else { seq![x.1] };
        assert(crossing_weights(row, s) == crossing_weights(prev, s) + tail);
        vstd::seq_lib::lemma_multiset_commutative(crossing_weights(prev, s), tail);
        assert(Seq::<W>::empty().to_multiset() =~= Multiset::<W>::empty()) by {
            broadcast use vstd::seq_lib::group_to_multiset_ensures;
        }
        assert(((x.0 as int) as usize) == x.0);
        assert(not_in_seq(s)(x.0 as int) == !s.contains(x.0));
        assert(x.0 < n);
        assert(tail.to_multiset() == if s.contains(x.0) {
            Multiset::<W>::empty()
        } else {
            m1
        });
        assert(crossing_weights(row, s).to_multiset() =~= pick_sum(f, not_in_seq(s), n));
    }
}

proof fn lemma_boundary_list<W>(adj: Adjacency<W>, s: Seq<usize>, m: int)
    requires
        0 <= m <= s.len(),
    ensures
        boundary_weights(adj, s, m).to_multiset() == list_sum(crossing_rows(adj, s), s, m),
    decreases m,
{
    broadcast use vstd::seq_lib::group_to_multiset_ensures;

    if m <= 0 {
        assert(Seq::<W>::empty().to_multiset() =~= Multiset::<W>::empty()) by {
            broadcast use vstd::seq_lib::group_to_multiset_ensures;
        }
    } else {
        lemma_boundary_list(adj, s, m - 1);
        assert(crossing_rows(adj, s)(s[m - 1] as int) == crossing_weights(adj[s[m - 1] as int], s).to_multiset());
        vstd::seq_lib::lemma_multiset_commutative(
            boundary_weights(adj, s, m - 1),
            crossing_weights(adj[s[m - 1] as int], s),
        );
    }
}

proof fn lemma_outside(s: Seq<usize>, m: int)
    requires
        0 <= m <= usize::MAX + 1,
    ensures
        increasing(outside(s, m)),
        forall|k: int| 0 <= k < outside(s, m).len() ==> #[trigger] outside(s, m)[k] < m,
        forall|v: usize| #[trigger] outside(s, m).contains(v) <==> ((v as int) < m && !s.contains(v)),
    decreases m,
{
    if m > 0 {
        lemma_outside(s, m - 1);
        let prev = outside(s, m - 1);
        let cur = outside(s, m);
        assert forall|k: int| 0 <= k < prev.len() implies cur[k] == prev[k] by {}
        assert forall|v: usize| #[trigger] cur.contains(v) <==> ((v as int) < m && !s.contains(v)) by {
            if cur.contains(v) {
                let k = choose|k: int| 0 <= k < cur.len() && cur[k] == v;
                if k < prev.len() {
                    assert(prev[k] == v);
                    assert(prev.contains(v));
                }
            }
            if (v as int) < m && !s.contains(v) {
                if (v as int) < m - 1 {
                    assert(prev.contains(v));
                    let k = choose|k: int| 0 <= k < prev.len() && prev[k] == v;
                    assert(cur[k] == v);
                } else {
                    assert(cur[prev.len() as int] == v);
                }
            }
        }
        assert forall|x: int, y: int| 0 <= x < y < cur.len() implies #[trigger] cur[x] < #[trigger] cur[y] by {
            if y < prev.len() {
                assert(prev[x] < prev[y]);
            } else {
                assert(prev[x] < m - 1);
            }
        }
        assert forall|k: int| 0 <= k < cur.len() implies #[trigger] cur[k] < m by {
            if k < prev.len() {
                assert(prev[k] < m - 1);
            }
        }
    }
}

/// The boundary of an increasing list of vertices, as the weights from its
/// members to the vertices outside it.
proof fn lemma_boundary_cut<W>(adj: Adjacency<W>, s: Seq<usize>, n: int)
    requires
        adj.len() == n,
        n <= usize::MAX,
        forall|i: int, k: int| 0 <= i < n && 0 <= k < adj[i].len() ==> #[trigger] adj[i][k].0 < n,
        increasing(s),
        forall|k: int| 0 <= k < s.len() ==> #[trigger] s[k] < n,
    ensures
        boundary_weights(adj, s, s.len() as int).to_multiset() == cut_weights(adj, in_seq(s), not_in_seq(s), n),
{
    let rowcut = crossing_rows(adj, s);
    lemma_boundary_list(adj, s, s.len() as int);
    lemma_list_sum_members(rowcut, s, n);
    let t = weight_table(adj);
    assert forall|u: int| #![trigger rowcut(u)] 0 <= u < n implies rowcut(u) == row_sums(t, not_in_seq(s), n)(u) by {
        let row = adj[u];
        assert forall|k: int| 0 <= k < row.len() implies (#[trigger] row[k].0) < n by {
            assert(adj[u][k].0 < n);
        }
        lemma_crossing_pick(row, s, n);
        lemma_pick_sum_congr(
            row_weights(row),
            row_of(t, u),
            not_in_seq(s),
            not_in_seq(s),
            n,
        );
    }
    lemma_pick_sum_congr(rowcut, row_sums(t, not_in_seq(s), n), in_seq(s), in_seq(s), n);
}

/// A cut seen from either side: in a graph that stores each edge at both
/// endpoints, the weights of the edges leaving an increasing list of vertices
/// `s` are, as a multiset, those of the edges leaving the other vertices.
pub proof fn lemma_cut_symmetric<W>(adj: Adjacency<W>, s: Seq<usize>)
    requires
        mirrored(adj),
        adj.len() <= usize::MAX,
        forall|i: int, k: int| 0 <= i < adj.len() && 0 <= k < adj[i].len() ==> #[trigger] adj[i][k].0 < adj.len(),
        increasing(s),
        forall|k: int| 0 <= k < s.len() ==> #[trigger] s[k] < adj.len(),
    ensures
        boundary_weights(adj, s, s.len() as int).to_multiset() == boundary_weights(
            adj,
            outside(s, adj.len() as int),
            outside(s, adj.len() as int).len() as int,
        ).to_multiset(),
{
    let n = adj.len() as int;
    let c = outside(s, n);
    lemma_outside(s, n);
    lemma_boundary_cut(adj, s, n);
    lemma_boundary_cut(adj, c, n);
    let t = weight_table(adj);
    // The cut from `s` equals, column by column, the cut into `s`.
    lemma_pick_sum_swap(t, in_seq(s), not_in_seq(s), n, n);
    assert forall|v: int| #![trigger col_sums(t, in_seq(s), n)(v)] 0 <= v < n implies col_sums(t, in_seq(s), n)(v) == row_sums(t, in_seq(s), n)(v) by {
        assert forall|u: int| #![trigger col_of(t, v)(u)] 0 <= u < n implies col_of(t, v)(u) == row_of(t, v)(u) by {
            assert(weights_to(adj[(u as usize) as int], v as usize) == weights_to(adj[(v as usize) as int], u as usize));
        }
        lemma_pick_sum_congr(col_of(t, v), row_of(t, v), in_seq(s), in_seq(s), n);
    }
    lemma_pick_sum_congr(col_sums(t, in_seq(s), n), row_sums(t, in_seq(s), n), not_in_seq(s), not_in_seq(s), n);
    // The members of `c` are the vertices outside `s`, and conversely.
    assert forall|u: int| #![trigger in_seq(c)(u)] 0 <= u < n implies in_seq(c)(u) == not_in_seq(s)(u) && not_in_seq(c)(u) == in_seq(s)(u) by {
        assert(c.contains(u as usize) <==> !s.contains(u as usize));
    }
    assert forall|u: int| #![trigger row_sums(t, not_in_seq(c), n)(u)] 0 <= u < n implies row_sums(t, not_in_seq(c), n)(u) == row_sums(t, in_seq(s), n)(u) by {
        lemma_pick_sum_congr(row_of(t, u), row_of(t, u), not_in_seq(c), in_seq(s), n);
    }
    lemma_pick_sum_congr(row_sums(t, not_in_seq(c), n), row_sums(t, in_seq(s), n), in_seq(c), not_in_seq(s), n);
}

} // verus!
