//! Walks and connectivity: reflexivity, symmetry and transitivity of the
//! connection relation, how adding an edge merges components, and the roots
//! that count components.
use vstd::prelude::*;
use crate::graph::{
    Adjacency, connected, extends, is_walk, linked, spec_add_edge, undirected, lemma_add_edge_extends,
    lemma_add_edge_links,
};

verus! {

/// Every vertex is connected to itself by the one-vertex walk.
pub proof fn lemma_connected_refl<W>(adj: Adjacency<W>, s: usize)
    ensures
        connected(adj, s, s),
{
    let p = seq![s];
    assert(is_walk(adj, p));
}

/// A walk to `u` followed by a step from `u` to `v` is a walk to `v`.
pub proof fn lemma_connected_step<W>(adj: Adjacency<W>, s: usize, u: usize, v: usize)
    requires
        connected(adj, s, u),
        linked(adj, u, v),
    ensures
        connected(adj, s, v),
{
    let p = choose|p: Seq<usize>| #[trigger] is_walk(adj, p) && p[0] == s && p.last() == u;
    let q = p.push(v);
    assert forall|k: int| #![trigger q[k]] 0 <= k < q.len() - 1 implies linked(adj, q[k], q[k + 1]) by {
        if k < p.len() - 1 {
            assert(p[k] == q[k] && p[k + 1] == q[k + 1]);
        }
    }
    assert(is_walk(adj, q));
}

/// A set of vertices that holds `s` and is closed under list entries holds
/// everything connected to `s`.
pub proof fn lemma_closed_contains<W>(adj: Adjacency<W>, inside: spec_fn(usize) -> bool, s: usize, t: usize)
    requires
        inside(s),
        forall|u: usize, v: usize| inside(u) && #[trigger] linked(adj, u, v) ==> inside(v),
        connected(adj, s, t),
    ensures
        inside(t),
{
    let p = choose|p: Seq<usize>| #[trigger] is_walk(adj, p) && p[0] == s && p.last() == t;
    assert forall|k: int| 0 <= k < p.len() implies #[trigger] inside(p[k]) by {
        lemma_walk_prefix_inside(adj, inside, p, k);
    }
}

proof fn lemma_walk_prefix_inside<W>(adj: Adjacency<W>, inside: spec_fn(usize) -> bool, p: Seq<usize>, k: int)
    requires
        is_walk(adj, p),
        inside(p[0]),
        forall|u: usize, v: usize| inside(u) && #[trigger] linked(adj, u, v) ==> inside(v),
        0 <= k < p.len(),
    ensures
        inside(p[k]),
    decreases k,
{
    if k > 0 {
        lemma_walk_prefix_inside(adj, inside, p, k - 1);
        assert(linked(adj, p[k - 1], p[(k - 1) + 1]));
    }
}

/// Adding list entries never disconnects: connectivity in `a` carries over to
/// any `b` that extends it.
pub proof fn lemma_connected_mono<W>(a: Adjacency<W>, b: Adjacency<W>, s: usize, t: usize)
    requires
        extends(a, b),
        connected(a, s, t),
    ensures
        connected(b, s, t),
{
    let p = choose|p: Seq<usize>| #[trigger] is_walk(a, p) && p[0] == s && p.last() == t;
    assert forall|k: int| #![trigger p[k]] 0 <= k < p.len() - 1 implies linked(b, p[k], p[k + 1]) by {
        assert(linked(a, p[k], p[k + 1]));
        let u = p[k] as int;
        let m = choose|m: int| 0 <= m < a[u].len() && #[trigger] a[u][m].0 == p[k + 1];
        assert(a[u].is_prefix_of(b[u]));
        assert(b[u][m] == a[u][m]);
    }
    assert(is_walk(b, p));
}

/// In an undirected graph, connectivity is symmetric: a walk read backwards
/// is a walk.
pub proof fn lemma_connected_symmetric<W>(adj: Adjacency<W>, s: usize, t: usize)
    requires
        undirected(adj),
        connected(adj, s, t),
    ensures
        connected(adj, t, s),
{
    let p = choose|p: Seq<usize>| #[trigger] is_walk(adj, p) && p[0] == s && p.last() == t;
    let q = p.reverse();
    let n = p.len();
    assert forall|k: int| #![trigger q[k]] 0 <= k < q.len() - 1 implies linked(adj, q[k], q[k + 1]) by {
        let m = n - 2 - k;
        assert(q[k] == p[m + 1]);
        assert(q[k + 1] == p[m]);
        assert(linked(adj, p[m], p[m + 1]));
    }
    assert(q[0] == t);
    assert(q.last() == s);
    assert(is_walk(adj, q));
}

proof fn lemma_walk_reach<W>(adj: Adjacency<W>, s: usize, p: Seq<usize>, k: int)
    requires
        is_walk(adj, p),
        connected(adj, s, p[0]),
        0 <= k < p.len(),
    ensures
        connected(adj, s, p[k]),
    decreases k,
{
    if k > 0 {
        lemma_walk_reach(adj, s, p, k - 1);
        assert(linked(adj, p[k - 1], p[(k - 1) + 1]));
        lemma_connected_step(adj, s, p[k - 1], p[k]);
    }
}

/// Connectivity is transitive: a walk to `u` followed by a walk from `u`.
pub proof fn lemma_connected_trans<W>(adj: Adjacency<W>, s: usize, u: usize, t: usize)
    requires
        connected(adj, s, u),
        connected(adj, u, t),
    ensures
        connected(adj, s, t),
{
    let p = choose|p: Seq<usize>| #[trigger] is_walk(adj, p) && p[0] == u && p.last() == t;
    lemma_walk_reach(adj, s, p, p.len() - 1);
}

proof fn lemma_walk_reach_in<W>(a: Adjacency<W>, b: Adjacency<W>, s: usize, p: Seq<usize>, k: int)
    requires
        is_walk(a, p),
        p[0] == s,
        forall|u: usize, v: usize| #[trigger] linked(a, u, v) ==> connected(b, u, v),
        0 <= k < p.len(),
    ensures
        connected(b, s, p[k]),
    decreases k,
{
    if k == 0 {
        lemma_connected_refl(b, s);
    } else {
        lemma_walk_reach_in(a, b, s, p, k - 1);
        assert(linked(a, p[k - 1], p[(k - 1) + 1]));
        lemma_connected_trans(b, s, p[k - 1], p[k]);
    }
}

/// When every link of `a` is a connection of `b`, every connection of `a` is one of `b`.
pub proof fn lemma_connected_through<W>(a: Adjacency<W>, b: Adjacency<W>, s: usize, t: usize)
    requires
        forall|u: usize, v: usize| #[trigger] linked(a, u, v) ==> connected(b, u, v),
        connected(a, s, t),
    ensures
        connected(b, s, t),
{
    let p = choose|p: Seq<usize>| #[trigger] is_walk(a, p) && p[0] == s && p.last() == t;
    lemma_walk_reach_in(a, b, s, p, p.len() - 1);
}

proof fn lemma_chain_reach<W>(adj: Adjacency<W>, n: int, v: int)
    requires
        0 <= v < n,
        forall|u: int| 0 < u < n ==> #[trigger] linked(adj, (u - 1) as usize, u as usize),
    ensures
        connected(adj, 0, v as usize),
    decreases v,
{
    if v == 0 {
        lemma_connected_refl(adj, 0);
    } else {
        lemma_chain_reach(adj, n, v - 1);
        assert(linked(adj, (v - 1) as usize, v as usize));
        lemma_connected_step(adj, 0, (v - 1) as usize, v as usize);
    }
}

/// An undirected graph in which every vertex of `0..n` is connected to `0`
/// connects any two of them.
proof fn lemma_all_through_zero<W>(adj: Adjacency<W>, n: int)
    requires
        undirected(adj),
        forall|v: usize| (v as int) < n ==> #[trigger] connected(adj, 0, v),
    ensures
        forall|s: usize, t: usize| (s as int) < n && (t as int) < n ==> #[trigger] connected(adj, s, t),
{
    assert forall|s: usize, t: usize| (s as int) < n && (t as int) < n implies #[trigger] connected(adj, s, t) by {
        assert(connected(adj, 0, s));
        assert(connected(adj, 0, t));
        lemma_connected_symmetric(adj, 0, s);
        lemma_connected_trans(adj, s, 0, t);
    }
}

/// An undirected graph that links each `v - 1` to `v` is connected.
pub proof fn lemma_chain_connected<W>(adj: Adjacency<W>, n: int)
    requires
        undirected(adj),
        forall|u: int| 0 < u < n ==> #[trigger] linked(adj, (u - 1) as usize, u as usize),
    ensures
        forall|s: usize, t: usize| (s as int) < n && (t as int) < n ==> #[trigger] connected(adj, s, t),
{
    assert forall|v: usize| (v as int) < n implies #[trigger] connected(adj, 0, v) by {
        lemma_chain_reach(adj, n, v as int);
    }
    lemma_all_through_zero(adj, n);
}

/// An undirected graph that links `0` to every other vertex is connected.
pub proof fn lemma_hub_connected<W>(adj: Adjacency<W>, n: int)
    requires
        undirected(adj),
        forall|v: int| 0 < v < n ==> #[trigger] linked(adj, 0usize, v as usize),
    ensures
        forall|s: usize, t: usize| (s as int) < n && (t as int) < n ==> #[trigger] connected(adj, s, t),
{
    assert forall|v: usize| (v as int) < n implies #[trigger] connected(adj, 0, v) by {
        lemma_connected_refl(adj, 0);
        if v > 0 {
            assert(linked(adj, 0usize, (v as int) as usize));
            lemma_connected_step(adj, 0, 0, v);
        }
    }
    lemma_all_through_zero(adj, n);
}

/// After adding `{i, j}` to `a`, `x` reaches `y` this way: as before, or by
/// reaching one endpoint while the other endpoint reaches `y`.
pub open spec fn joined<W>(a: Adjacency<W>, i: usize, j: usize, x: usize, y: usize) -> bool {
    ||| connected(a, x, y)
    ||| (connected(a, x, i) && connected(a, j, y))
    ||| (connected(a, x, j) && connected(a, i, y))
}

proof fn lemma_walk_joined<W>(a: Adjacency<W>, i: usize, j: usize, w: W, p: Seq<usize>, k: int)
    requires
        i < a.len(),
        j < a.len(),
        is_walk(spec_add_edge(a, i as int, j as int, w), p),
        0 <= k < p.len(),
    ensures
        joined(a, i, j, p[0], p[k]),
    decreases k,
{
    lemma_connected_refl(a, i);
    lemma_connected_refl(a, j);
    if k == 0 {
        lemma_connected_refl(a, p[0]);
    } else {
        lemma_walk_joined(a, i, j, w, p, k - 1);
        let b = spec_add_edge(a, i as int, j as int, w);
        let x = p[0];
        let u = p[k - 1];
        let v = p[k];
        assert(linked(b, p[k - 1], p[(k - 1) + 1]));
        lemma_add_edge_links(a, i, j, w);
        assert(linked(b, u, v));
        if linked(a, u, v) {
            if connected(a, x, u) {
                lemma_connected_step(a, x, u, v);
            }
            if connected(a, j, u) {
                lemma_connected_step(a, j, u, v);
            }
            if connected(a, i, u) {
                lemma_connected_step(a, i, u, v);
            }
        }
    }
}

/// Adding the edge `{i, j}` connects exactly the pairs that are `joined`.
pub proof fn lemma_connected_after_add<W>(a: Adjacency<W>, i: usize, j: usize, w: W, x: usize, y: usize)
    requires
        i < a.len(),
        j < a.len(),
    ensures
        connected(spec_add_edge(a, i as int, j as int, w), x, y) <==> joined(a, i, j, x, y),
{
    let b = spec_add_edge(a, i as int, j as int, w);
    if connected(b, x, y) {
        let p = choose|p: Seq<usize>| #[trigger] is_walk(b, p) && p[0] == x && p.last() == y;
        lemma_walk_joined(a, i, j, w, p, p.len() - 1);
    }
    if joined(a, i, j, x, y) {
        lemma_add_edge_extends(a, i, j, w);
        lemma_add_edge_links(a, i, j, w);
        assert(linked(b, j, i));
        if connected(a, x, y) {
            lemma_connected_mono(a, b, x, y);
        } else if connected(a, x, i) && connected(a, j, y) {
            lemma_connected_mono(a, b, x, i);
            lemma_connected_mono(a, b, j, y);
            lemma_connected_step(b, x, i, j);
            lemma_connected_trans(b, x, j, y);
        } else {
            lemma_connected_mono(a, b, x, j);
            lemma_connected_mono(a, b, i, y);
            lemma_connected_step(b, x, j, i);
            lemma_connected_trans(b, x, i, y);
        }
    }
}

/// `v` is the least vertex of its connected component.
pub open spec fn is_root<W>(adj: Adjacency<W>, v: usize) -> bool {
    forall|u: usize| u < v ==> !#[trigger] connected(adj, u, v)
}

/// The least vertices of the components among `0..n`: one per component.
pub open spec fn roots<W>(adj: Adjacency<W>, n: nat) -> Set<usize> {
    Set::new(|v: usize| (v as int) < n && is_root(adj, v))
}

/// The indices below `hi`.
pub open spec fn index_range(hi: int) -> Set<usize> {
    Set::new(|x: usize| (x as int) < hi)
}

pub proof fn lemma_index_range(hi: int)
    requires
        0 <= hi <= usize::MAX + 1,
    ensures
        index_range(hi).finite(),
        index_range(hi).len() == hi,
    decreases hi,
{
    if hi == 0 {
        assert(index_range(0) =~= Set::empty());
    } else {
        lemma_index_range(hi - 1);
        assert(index_range(hi - 1).insert((hi - 1) as usize) =~= index_range(hi));
    }
}

/// Every vertex is connected from a root no larger than itself.
proof fn lemma_root_exists<W>(adj: Adjacency<W>, v: usize)
    ensures
        exists|r: usize| r <= v && #[trigger] is_root(adj, r) && connected(adj, r, v),
    decreases v,
{
    if is_root(adj, v) {
        lemma_connected_refl(adj, v);
    } else {
        let u = choose|u: usize| u < v && #[trigger] connected(adj, u, v);
        lemma_root_exists(adj, u);
        let r = choose|r: usize| r <= u && #[trigger] is_root(adj, r) && connected(adj, r, u);
        lemma_connected_trans(adj, r, u, v);
    }
}

/// In an undirected graph a component has one root.
proof fn lemma_roots_equal<W>(adj: Adjacency<W>, r1: usize, r2: usize)
    requires
        undirected(adj),
        is_root(adj, r1),
        is_root(adj, r2),
        connected(adj, r1, r2),
    ensures
        r1 == r2,
{
    lemma_connected_symmetric(adj, r1, r2);
}

/// In an undirected graph, a vertex connected to the root `r` is not below it.
proof fn lemma_root_least<W>(adj: Adjacency<W>, r: usize, u: usize)
    requires
        undirected(adj),
        is_root(adj, r),
        connected(adj, r, u),
    ensures
        r <= u,
{
    lemma_connected_symmetric(adj, r, u);
}

pub proof fn lemma_roots_finite<W>(adj: Adjacency<W>, n: nat)
    requires
        n <= usize::MAX + 1,
    ensures
        roots(adj, n).finite(),
        roots(adj, n).len() <= n,
{
    lemma_index_range(n as int);
    assert(roots(adj, n).subset_of(index_range(n as int)));
    vstd::set_lib::lemma_len_subset(roots(adj, n), index_range(n as int));
}

/// Adding an edge between two components of an undirected graph merges them:
/// one root fewer.
pub proof fn lemma_add_edge_roots<W>(a: Adjacency<W>, i: usize, j: usize, w: W, n: nat)
    requires
        undirected(a),
        a.len() == n,
        n <= usize::MAX + 1,
        i < n,
        j < n,
        !connected(a, i, j),
    ensures
        roots(spec_add_edge(a, i as int, j as int, w), n).len() + 1 == roots(a, n).len(),
{
    let b = spec_add_edge(a, i as int, j as int, w);
    lemma_root_exists(a, i);
    lemma_root_exists(a, j);
    let ri = choose|r: usize| r <= i && #[trigger] is_root(a, r) && connected(a, r, i);
    let rj = choose|r: usize| r <= j && #[trigger] is_root(a, r) && connected(a, r, j);
    lemma_connected_symmetric(a, ri, i);
    lemma_connected_symmetric(a, rj, j);
    if ri == rj {
        lemma_connected_trans(a, i, ri, j);
    }
    let hi = if ri < rj { rj } else { ri };
    let lo = if ri < rj { ri } else { rj };
    lemma_connected_after_add(a, i, j, w, lo, hi);
    assert(connected(b, lo, hi));
    assert forall|v: usize| #[trigger] roots(b, n).contains(v) == roots(a, n).remove(hi).contains(v) by {
        if (v as int) < n {
            if is_root(b, v) {
                assert forall|u: usize| u < v implies !#[trigger] connected(a, u, v) by {
                    lemma_connected_after_add(a, i, j, w, u, v);
                }
                assert(v != hi);
            }
            if is_root(a, v) && v != hi {
                assert forall|u: usize| u < v implies !#[trigger] connected(b, u, v) by {
                    lemma_connected_after_add(a, i, j, w, u, v);
                    if connected(a, u, i) && connected(a, j, v) {
                        lemma_connected_trans(a, rj, j, v);
                        lemma_roots_equal(a, rj, v);
                        lemma_connected_symmetric(a, u, i);
                        lemma_connected_trans(a, ri, i, u);
                        lemma_root_least(a, ri, u);
                    }
                    if connected(a, u, j) && connected(a, i, v) {
                        lemma_connected_trans(a, ri, i, v);
                        lemma_roots_equal(a, ri, v);
                        lemma_connected_symmetric(a, u, j);
                        lemma_connected_trans(a, rj, j, u);
                        lemma_root_least(a, rj, u);
                    }
                }
            }
        }
    }
    assert(roots(b, n) =~= roots(a, n).remove(hi));
    lemma_roots_finite(a, n);
    assert(roots(a, n).contains(hi));
}

} // verus!
