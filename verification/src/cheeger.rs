use vstd::prelude::*;
use crate::graph::{Adjacency, Graph};
use crate::cut::increasing;

verus! {

/// Bit `i` of `mask` is set.
pub open spec fn bit_set(mask: u32, i: int) -> bool {
    (mask >> (i as u32)) & 1u32 == 1u32
}

/// The vertices `0..m` whose bit is set in `mask`, in increasing order.
pub open spec fn mask_set(mask: u32, m: int) -> Seq<usize>
    decreases m,
{
    if m <= 0 {
        Seq::empty()
    } else {
        mask_set(mask, m - 1) + if bit_set(mask, m - 1) {
            seq![(m - 1) as usize]
        } else {
            Seq::empty()
        }
    }
}

proof fn lemma_mask_set_contains(mask: u32, m: int)
    requires
        0 <= m <= 32,
    ensures
        forall|v: usize| #[trigger] mask_set(mask, m).contains(v) <==> ((v as int) < m && bit_set(mask, v as int)),
    decreases m,
{
    if m > 0 {
        lemma_mask_set_contains(mask, m - 1);
        let prev = mask_set(mask, m - 1);
        let cur = mask_set(mask, m);
        assert forall|v: usize| #[trigger] cur.contains(v) <==> ((v as int) < m && bit_set(mask, v as int)) by {
            if cur.contains(v) {
                let x = choose|x: int| 0 <= x < cur.len() && cur[x] == v;
                if x < prev.len() {
                    assert(prev[x] == v);
                    assert(prev.contains(v));
                }
            }
            if (v as int) < m && bit_set(mask, v as int) {
                if (v as int) < m - 1 {
                    assert(prev.contains(v));
                    let x = choose|x: int| 0 <= x < prev.len() && prev[x] == v;
                    assert(cur[x] == v);
                } else {
                    assert(cur[prev.len() as int] == v);
                }
            }
        }
    }
}

/// The mask whose bits below `k` are the members of `s`.
pub open spec fn mask_of(s: Set<usize>, k: nat) -> u32
    decreases k,
{
    if k == 0 {
        0
    } else {
        mask_of(s, (k - 1) as nat) | if s.contains((k - 1) as usize) {
            1u32 << ((k - 1) as u32)
        } else {
            0u32
        }
    }
}

proof fn lemma_mask_of(s: Set<usize>, k: nat)
    requires
        k <= 31,
    ensures
        mask_of(s, k) < (1u32 << (k as u32)),
        forall|i: int| 0 <= i < 32 ==> (#[trigger] bit_set(mask_of(s, k), i) <==> (i < k && s.contains(i as usize))),
    decreases k,
{
    let ku = k as u32;
    if k == 0 {
        assert(1u32 << 0u32 == 1u32) by (bit_vector);
        assert forall|i: int| 0 <= i < 32 implies !#[trigger] bit_set(0u32, i) by {
            let iu = i as u32;
            assert(((0u32 >> iu) & 1u32) != 1u32) by (bit_vector);
        }
    } else {
        lemma_mask_of(s, (k - 1) as nat);
        let m = mask_of(s, (k - 1) as nat);
        let j = (k - 1) as u32;
        assert(j + 1 == ku);
        if s.contains((k - 1) as usize) {
            assert(m < (1u32 << j) ==> (m | (1u32 << j)) < (1u32 << ku)) by (bit_vector)
                requires
                    j < 31,
                    ku == j + 1,
            ;
            assert forall|i: int| 0 <= i < 32 implies (#[trigger] bit_set(m | (1u32 << j), i) <==> (bit_set(m, i) || i
                == j)) by {
                let iu = i as u32;
                assert((((m | (1u32 << j)) >> iu) & 1u32 == 1u32) <==> (((m >> iu) & 1u32 == 1u32) || iu == j))
                    by (bit_vector)
                    requires
                        iu < 32,
                        j < 31,
                ;
            }
        } else {
            assert(m < (1u32 << j) ==> (m | 0u32) < (1u32 << ku) && (m | 0u32) == m) by (bit_vector)
                requires
                    j < 31,
                    ku == j + 1,
            ;
        }
    }
}

/// Every set of vertices among `0..n` (`n < 32`) is the vertex set of a mask
/// below `2^n`, and of a non-zero one when it is not empty: going through the
/// masks `1..2^n` meets every non-empty side of a cut.
pub proof fn lemma_every_subset_has_mask(s: Set<usize>, n: nat)
    requires
        n < 32,
    ensures
        mask_of(s, n) < (1u32 << (n as u32)),
        forall|v: usize| #[trigger] mask_set(mask_of(s, n), n as int).contains(v) <==> ((v as int) < n && s.contains(v)),
        (exists|v: usize| (v as int) < n && #[trigger] s.contains(v)) ==> mask_of(s, n) != 0,
{
    lemma_mask_of(s, n);
    lemma_mask_set_contains(mask_of(s, n), n as int);
    assert forall|v: usize| #[trigger] mask_set(mask_of(s, n), n as int).contains(v) <==> ((v as int) < n && s.contains(v)) by {
        if (v as int) < n {
            assert(bit_set(mask_of(s, n), v as int) <==> s.contains(v));
        }
    }
    if exists|v: usize| (v as int) < n && #[trigger] s.contains(v) {
        let v = choose|v: usize| (v as int) < n && #[trigger] s.contains(v);
        assert(bit_set(mask_of(s, n), v as int));
        if mask_of(s, n) == 0 {
            let vu = v as u32;
            assert(((0u32 >> vu) & 1u32) != 1u32) by (bit_vector);
        }
    }
}

/// The weights of the entries of `row` whose neighbour lies outside `set`.
pub open spec fn crossing_weights<W>(row: Seq<(usize, W)>, set: Seq<usize>) -> Seq<W>
    decreases row.len(),
{
    if row.len() == 0 {
        Seq::empty()
    } else {
        crossing_weights(row.drop_last(), set) + if set.contains(row.last().0) {
            Seq::empty()
        } else {
            seq![row.last().1]
        }
    }
}

/// The weights of the edges leaving `set`, taken from the lists of
/// `set[0..m]` in that order (a vertex listed twice contributes twice).
pub open spec fn boundary_weights<W>(adj: Adjacency<W>, set: Seq<usize>, m: int) -> Seq<W>
    decreases m,
{
    if m <= 0 {
        Seq::empty()
    } else {
        boundary_weights(adj, set, m - 1) + crossing_weights(adj[set[m - 1] as int], set)
    }
}

/// The Cheeger constant and conductance of vertex sets.
#[derive(Clone, Debug)]
pub struct CheegerInvariant;

impl CheegerInvariant {
    /// The Cheeger analyser (it holds no state).
    pub fn new() -> (c: Self)
        ensures
            c == CheegerInvariant,
    {
        CheegerInvariant
    }

    /// The vertex set `{ i < n : bit i of mask is set }`, in increasing order.
    pub fn subset_of_mask(&self, n: usize, mask: u32) -> (set: Vec<usize>)
        requires
            n <= 32,
        ensures
            set@ == mask_set(mask, n as int),
            increasing(set@),
            forall|k: int| 0 <= k < set@.len() ==> #[trigger] set@[k] < n,
    {
        let mut set: Vec<usize> = Vec::new();
        for i in 0..n
            invariant
                n <= 32,
                set@ == mask_set(mask, i as int),
                increasing(set@),
                forall|k: int| 0 <= k < set@.len() ==> #[trigger] set@[k] < i,
        {
            let s = i as u32;
            assert((mask & (1u32 << s) != 0u32) == ((mask >> s) & 1u32 == 1u32)) by (bit_vector)
                requires
                    s < 32,
            ;
            let ghost before = set@;
            if mask & (1u32 << s) != 0 {
                set.push(i);
                assert forall|x: int, y: int| 0 <= x < y < set@.len() implies #[trigger] set@[x] < #[trigger] set@[y] by {
                    if y < before.len() {
                        assert(before[x] < before[y]);
                    } else {
                        assert(before[x] < i);
                    }
                }
            }
            assert(set@ =~= mask_set(mask, i + 1));
        }
        set
    }

    /// The vertex set of `mask` when it is a candidate side of a Cheeger cut of
    /// a graph on `n` vertices: non-empty and with at most `n / 2` vertices.
    pub fn cheeger_candidate(&self, n: usize, mask: u32) -> (r: Option<Vec<usize>>)
        requires
            n <= 32,
        ensures
            1 <= mask_set(mask, n as int).len() <= n / 2 ==> (r matches Some(set) && set@ == mask_set(
                mask,
                n as int,
            ) && increasing(set@)),
            !(1 <= mask_set(mask, n as int).len() <= n / 2) ==> r is None,
    {
        let set = self.subset_of_mask(n, mask);
        if set.len() >= 1 && set.len() <= n / 2 {
            Some(set)
        } else {
            None
        }
    }

    /// The weights of the edges from `set` to the rest of the graph, in the
    /// order of the lists of the members of `set`.
    pub fn edge_boundary_weights<W: Copy>(&self, graph: &Graph<W>, set: &[usize]) -> (r: Vec<W>)
        requires
            graph.wf(),
            forall|k: int| 0 <= k < set@.len() ==> #[trigger] set@[k] < graph.n,
        ensures
            r@ == boundary_weights(graph.adj(), set@, set@.len() as int),
    {
        let n = graph.n;
        let ghost s = set@;
        let ghost adj = graph.adj();
        let mut member: Vec<bool> = Vec::new();
        for v in 0..n
            invariant
                member@.len() == v,
                forall|u: int| 0 <= u < v ==> !member@[u],
        {
            member.push(false);
        }
        for p in 0..set.len()
            invariant
                s == set@,
                member@.len() == n,
                forall|k: int| 0 <= k < s.len() ==> #[trigger] s[k] < n,
                forall|u: int| 0 <= u < n ==> #[trigger] member@[u] == s.take(p as int).contains(u as usize),
        {
            let v = set[p];
            proof {
                assert(s.take(p + 1).drop_last() =~= s.take(p as int));
                assert(s.take(p + 1)[p as int] == v);
                assert forall|u: int| 0 <= u < n && u != v implies #[trigger] s.take(p + 1).contains(u as usize)
                    == s.take(p as int).contains(u as usize) by {
                    if s.take(p + 1).contains(u as usize) {
                        let k = choose|k: int| 0 <= k < p + 1 && #[trigger] s.take(p + 1)[k] == u as usize;
                        assert(s.take(p as int)[k] == u as usize);
                    }
                    if s.take(p as int).contains(u as usize) {
                        let k = choose|k: int| 0 <= k < p && #[trigger] s.take(p as int)[k] == u as usize;
                        assert(s.take(p + 1)[k] == u as usize);
                    }
                }
            }
            member.set(v, true);
        }
        proof {
            assert(s.take(s.len() as int) =~= s);
        }
        let mut out: Vec<W> = Vec::new();
        for p in 0..set.len()
            invariant
                s == set@,
                adj == graph.adj(),
                graph.wf(),
                n == graph.n,
                member@.len() == n,
                forall|k: int| 0 <= k < s.len() ==> #[trigger] s[k] < n,
                forall|u: int| 0 <= u < n ==> #[trigger] member@[u] == s.contains(u as usize),
                out@ == boundary_weights(adj, s, p as int),
        {
            let node = set[p];
            let row = &graph.edges[node];
            let ghost r = row@;
            let ghost base = out@;
            proof {
                assert(base + crossing_weights(r.take(0), s) =~= base);
            }
            for k in 0..row.len()
                invariant
                    r == row@,
                    r == adj[node as int],
                    node < n,
                    graph.wf(),
                    adj == graph.adj(),
                    n == graph.n,
                    member@.len() == n,
                    forall|u: int| 0 <= u < n ==> #[trigger] member@[u] == s.contains(u as usize),
                    out@ == base + crossing_weights(r.take(k as int), s),
            {
                let (nb, w) = row[k];
                assert(adj[node as int][k as int] == (nb, w));
                assert(nb < n);
                proof {
                    assert(r.take(k + 1).drop_last() =~= r.take(k as int));
                    assert(r.take(k + 1).last() == (nb, w));
                }
                if !member[nb] {
                    out.push(w);
                }
                assert(out@ =~= base + crossing_weights(r.take(k + 1), s));
            }
            proof {
                assert(r.take(r.len() as int) =~= r);
            }
        }
        out
    }
}

} // verus!
