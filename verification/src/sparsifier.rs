use vstd::prelude::*;
use crate::graph::{
    Adjacency, Graph, connected, linked, spec_add_edge, extends, total_degree, has_neighbor, undirected,
    mirrored, upper_edges_of, lemma_add_edge_extends, lemma_add_edge_degree, lemma_upper_edges,
    lemma_mirrored_undirected, lemma_add_edge_links, lemma_add_edge_mirrored, within, lemma_within_add,
};
use crate::reach::{
    lemma_connected_refl, lemma_connected_step, lemma_closed_contains, lemma_connected_mono,
    lemma_connected_symmetric, lemma_connected_through, index_range, lemma_index_range, roots,
    lemma_add_edge_roots,
};
use crate::counting::{lemma_upper_edges_half, lemma_within_degree};

verus! {

/// The number of `false` entries.
pub open spec fn count_false(s: Seq<bool>) -> nat
    decreases s.len(),
{
    if s.len() == 0 {
        0
    } else {
        count_false(s.drop_last()) + if s.last() { 0nat } else { 1nat }
    }
}

proof fn lemma_count_false_set(s: Seq<bool>, i: int)
    requires
        0 <= i < s.len(),
        !s[i],
    ensures
        count_false(s.update(i, true)) + 1 == count_false(s),
    decreases s.len(),
{
    let t = s.update(i, true);
    if i < s.len() - 1 {
        assert(t.drop_last() =~= s.drop_last().update(i, true));
        lemma_count_false_set(s.drop_last(), i);
    } else {
        assert(t.drop_last() =~= s.drop_last());
    }
}

/// Starting from `adj`, each edge `(i, j, w)` of `es[0..m]` in turn is added
/// unless its endpoints are already connected.
pub open spec fn greedy_extend<W>(adj: Adjacency<W>, es: Seq<(usize, usize, W)>, m: int) -> Adjacency<W>
    decreases m,
{
    if m <= 0 {
        adj
    } else {
        let prev = greedy_extend(adj, es, m - 1);
        let (i, j, w) = es[m - 1];
        if connected(prev, i, j) {
            prev
        } else {
            spec_add_edge(prev, i as int, j as int, w)
        }
    }
}

/// The number of edges of `es[0..m]` that the greedy pass adds to `adj`.
pub open spec fn greedy_added<W>(adj: Adjacency<W>, es: Seq<(usize, usize, W)>, m: int) -> nat
    decreases m,
{
    if m <= 0 {
        0
    } else {
        let (i, j, w) = es[m - 1];
        greedy_added(adj, es, m - 1) + if connected(greedy_extend(adj, es, m - 1), i, j) {
            0nat
        } else {
            1nat
        }
    }
}

/// Some edge of `es[0..m]` joins `u` and `v`, in one direction or the other.
pub open spec fn names_pair<W>(es: Seq<(usize, usize, W)>, m: int, u: usize, v: usize) -> bool {
    exists|k: int|
        0 <= k < m && ((#[trigger] es[k]).0 == u && es[k].1 == v || es[k].0 == v && es[k].1 == u)
}

/// Every link `u -> v` of `adj` with `u < v` occurs in `es` as `(u, v, _)`.
pub open spec fn covers<W>(es: Seq<(usize, usize, W)>, adj: Adjacency<W>) -> bool {
    forall|u: usize, v: usize|
        #[trigger] linked(adj, u, v) && u < v ==> exists|k: int|
            0 <= k < es.len() && (#[trigger] es[k]).0 == u && es[k].1 == v
}

/// The entries of `es` taken in the order given by the indices `order`.
pub open spec fn in_order<W>(es: Seq<(usize, usize, W)>, order: Seq<usize>) -> Seq<(usize, usize, W)> {
    Seq::new(order.len(), |k: int| es[order[k] as int])
}

/// `n` vertices and no edges.
pub open spec fn edgeless<W>(n: nat) -> Adjacency<W> {
    Seq::new(n, |i: int| Seq::<(usize, W)>::empty())
}

/// The sampling pass over `picks[0..m]` from `adj`: each pick `(x, w)` adds
/// the edge `es[x]` with weight `w` unless its ends are already linked.
pub open spec fn sample_extend<W>(adj: Adjacency<W>, es: Seq<(usize, usize, W)>, picks: Seq<(usize, W)>, m: int) -> Adjacency<W>
    decreases m,
{
    if m <= 0 {
        adj
    } else {
        let prev = sample_extend(adj, es, picks, m - 1);
        let (x, w) = picks[m - 1];
        let (i, j, v) = es[x as int];
        if has_neighbor(prev[i as int], j) {
            prev
        } else {
            spec_add_edge(prev, i as int, j as int, w)
        }
    }
}

/// The spanner pass over `es[0..m]` from `adj`: each edge `(i, j, w)` in turn is
/// added, except where `near[k]` reports that the edges kept so far join `i`
/// and `j` by a path no longer than the stretch times `w` and `i` and `j` are
/// indeed connected.
pub open spec fn stretch_extend<W>(adj: Adjacency<W>, es: Seq<(usize, usize, W)>, near: Seq<bool>, m: int) -> Adjacency<W>
    decreases m,
{
    if m <= 0 {
        adj
    } else {
        let prev = stretch_extend(adj, es, near, m - 1);
        let (i, j, w) = es[m - 1];
        if near[m - 1] && connected(prev, i, j) {
            prev
        } else {
            spec_add_edge(prev, i as int, j as int, w)
        }
    }
}

/// A spanner under construction: the edges of `source`, each once as
/// `(i, j, w)` with `i < j`, taken in the order `order` (a permutation of
/// their indices); `graph` holds the
/// edges kept among the first `next` of them, and `near` the reports on them.
pub struct SpannerPass<W> {
    pub graph: Graph<W>,
    pub edges: Vec<(usize, usize, W)>,
    pub next: usize,
    pub near: Ghost<Seq<bool>>,
    pub source: Ghost<Adjacency<W>>,
    pub order: Ghost<Seq<usize>>,
}

impl<W: Copy> SpannerPass<W> {
    /// The pass is consistent: `graph` is the spanner pass over the edges
    /// considered so far, and every edge is an edge between vertices.
    pub open spec fn wf(&self) -> bool {
        &&& self.graph.wf()
        &&& self.graph.n == self.source@.len()
        &&& forall|i: int, k: int|
            0 <= i < self.source@.len() && 0 <= k < self.source@[i].len() ==> #[trigger] self.source@[i][k].0
                < self.source@.len()
        &&& forall|k: int| 0 <= k < self.order@.len() ==> #[trigger] self.order@[k] < upper_edges_of(
            self.source@,
            self.source@.len() as int,
        ).len()
        &&& self.order@.len() == upper_edges_of(self.source@, self.source@.len() as int).len()
        &&& self.order@.no_duplicates()
        &&& upper_edges_of(self.source@, self.source@.len() as int).len() <= usize::MAX
        &&& self.edges@ == in_order(upper_edges_of(self.source@, self.source@.len() as int), self.order@)
        &&& forall|k: int| 0 <= k < self.edges@.len() ==> (#[trigger] self.edges@[k]).0 < self.graph.n
            && self.edges@[k].1 < self.graph.n
        &&& self.next <= self.edges@.len()
        &&& self.near@.len() == self.next
        &&& self.graph.adj() == stretch_extend(edgeless(self.graph.n as nat), self.edges@, self.near@, self.next as int)
    }

    /// The edge that the pass considers next, if any is left.
    pub fn next_edge(&self) -> (r: Option<(usize, usize, W)>)
        requires
            self.wf(),
        ensures
            self.next < self.edges@.len() ==> r == Some(self.edges@[self.next as int]),
            self.next >= self.edges@.len() ==> r is None,
    {
        if self.next < self.edges.len() {
            Some(self.edges[self.next])
        } else {
            None
        }
    }

    /// The spanner built so far.
    pub fn current(&self) -> (r: &Graph<W>)
        ensures
            r == &self.graph,
    {
        &self.graph
    }
}

/// Sparsification of weighted graphs.
#[derive(Clone, Debug)]
pub struct GraphSparsifier;

impl GraphSparsifier {
    /// The sparsifier (it holds no state).
    pub fn new() -> (s: Self)
        ensures
            s == GraphSparsifier,
    {
        GraphSparsifier
    }

    /// Goes through `edges` in order and adds each one whose endpoints are not yet
    /// connected in `g`: the pass that restores connectivity.
    pub fn connect_greedily<W: Copy>(&self, g: &mut Graph<W>, edges: &Vec<(usize, usize, W)>)
        requires
            old(g).wf(),
            forall|k: int| 0 <= k < edges@.len() ==> (#[trigger] edges@[k]).0 < old(g).n && edges@[k].1 < old(g).n,
        ensures
            final(g).wf(),
            final(g).n == old(g).n,
            final(g).adj() == greedy_extend(old(g).adj(), edges@, edges@.len() as int),
            extends(old(g).adj(), final(g).adj()),
            total_degree(final(g).adj()) == total_degree(old(g).adj()) + 2 * greedy_added(
                old(g).adj(),
                edges@,
                edges@.len() as int,
            ),
            greedy_added(old(g).adj(), edges@, edges@.len() as int) <= edges@.len(),
            forall|k: int| 0 <= k < edges@.len() ==> connected(final(g).adj(), (#[trigger] edges@[k]).0, edges@[k].1),
            undirected(old(g).adj()) ==> undirected(final(g).adj()),
            mirrored(old(g).adj()) ==> mirrored(final(g).adj()),
            undirected(old(g).adj()) ==> roots(final(g).adj(), old(g).n as nat).len() + greedy_added(
                old(g).adj(),
                edges@,
                edges@.len() as int,
            ) == roots(old(g).adj(), old(g).n as nat).len(),
            forall|u: usize, v: usize|
                #[trigger] linked(final(g).adj(), u, v) ==> linked(old(g).adj(), u, v) || names_pair(
                    edges@,
                    edges@.len() as int,
                    u,
                    v,
                ),
    {
        let ghost a0 = g.adj();
        let ghost es = edges@;
        for k in 0..edges.len()
            invariant
                es == edges@,
                g.wf(),
                g.n == old(g).n,
                a0 == old(g).adj(),
                forall|k: int| 0 <= k < es.len() ==> (#[trigger] es[k]).0 < g.n && es[k].1 < g.n,
                g.adj() == greedy_extend(a0, es, k as int),
                extends(a0, g.adj()),
                total_degree(g.adj()) == total_degree(a0) + 2 * greedy_added(a0, es, k as int),
                greedy_added(a0, es, k as int) <= k,
                forall|m: int| 0 <= m < k ==> connected(g.adj(), (#[trigger] es[m]).0, es[m].1),
                undirected(a0) ==> undirected(g.adj()),
                mirrored(a0) ==> mirrored(g.adj()),
                undirected(a0) ==> roots(g.adj(), g.n as nat).len() + greedy_added(a0, es, k as int)
                    == roots(a0, g.n as nat).len(),
                forall|u: usize, v: usize|
                    #[trigger] linked(g.adj(), u, v) ==> linked(a0, u, v) || names_pair(es, k as int, u, v),
        {
            let (i, j, w) = edges[k];
            proof {
                assert forall|u: usize, v: usize| names_pair(es, k as int, u, v) implies names_pair(es, k + 1, u, v) by {
                    let m = choose|m: int|
                        0 <= m < k && ((#[trigger] es[m]).0 == u && es[m].1 == v || es[m].0 == v && es[m].1 == u);
                }
            }
            let ghost before = g.adj();
            let linked_now = g.has_edge(i, j);
            proof {
                if linked_now {
                    assert(linked(before, i, j));
                    lemma_connected_refl(before, i);
                    lemma_connected_step(before, i, i, j);
                }
            }
            if !linked_now && !self.is_connected_in(g, i, j) {
                g.add_edge(i, j, w);
                proof {
                    if undirected(a0) {
                        lemma_add_edge_roots(before, i, j, w, g.n as nat);
                    }
                    assert forall|u: usize, v: usize| #[trigger] linked(g.adj(), u, v) implies linked(a0, u, v)
                        || names_pair(es, k + 1, u, v) by {
                        if !linked(before, u, v) {
                            assert(es[k as int] == (i, j, w));
                        }
                    }
                    lemma_add_edge_extends(before, i, j, w);
                    lemma_add_edge_degree(before, i as int, j as int, w);
                    lemma_extends_trans(a0, before, g.adj());
                    assert forall|m: int| 0 <= m < k + 1 implies connected(g.adj(), (#[trigger] es[m]).0, es[m].1) by {
                        if m < k {
                            lemma_connected_mono(before, g.adj(), es[m].0, es[m].1);
                        } else {
                            lemma_connected_refl(g.adj(), i);
                            lemma_connected_step(g.adj(), i, i, j);
                        }
                    }
                }
            } else {
                proof {
                    assert(connected(before, i, j));
                }
            }
        }
    }

    /// The number of draws of spectral sparsification: the estimate `q` raised
    /// to at least `n - 1` (enough for a spanning tree) and capped at the `m` edges.
    pub fn sample_count(&self, q: usize, n: usize, m: usize) -> (r: usize)
        requires
            n >= 1,
        ensures
            r == if (if q > n - 1 { q } else { (n - 1) as usize }) < m {
                if q > n - 1 { q } else { (n - 1) as usize }
            } else {
                m
            },
    {
        let lower = if q > n - 1 { q } else { n - 1 };
        if lower < m { lower } else { m }
    }

    /// The graph itself when it has fewer edges than vertices: spectral
    /// sparsification leaves such a graph as it is. `None` otherwise.
    pub fn keep_if_sparse<W: Copy>(&self, graph: &Graph<W>) -> (r: Option<Graph<W>>)
        requires
            total_degree(graph.adj()) <= usize::MAX,
        ensures
            r is Some <==> total_degree(graph.adj()) / 2 < graph.n,
            r matches Some(c) ==> c.n == graph.n && c.adj() == graph.adj() && c.edges@.len()
                == graph.edges@.len(),
    {
        if graph.num_edges() < graph.n {
            Some(graph.duplicate())
        } else {
            None
        }
    }

    /// Adds a sampled edge `{i, j}` with weight `w` unless `i` already lists `j`.
    pub fn add_sampled_edge<W: Copy>(&self, result: &mut Graph<W>, i: usize, j: usize, w: W)
        requires
            old(result).wf(),
            i < old(result).n,
            j < old(result).n,
        ensures
            final(result).wf(),
            final(result).n == old(result).n,
            final(result).adj() == if has_neighbor(old(result).adj()[i as int], j) {
                old(result).adj()
            } else {
                spec_add_edge(old(result).adj(), i as int, j as int, w)
            },
            mirrored(old(result).adj()) ==> mirrored(final(result).adj()),
            undirected(old(result).adj()) ==> undirected(final(result).adj()),
    {
        if !result.has_edge(i, j) {
            result.add_edge(i, j, w);
        }
    }

    /// The last pass of spectral sparsification: every edge `{i, j}` of `graph`
    /// whose endpoints are not yet connected in `result` is added to it, going
    /// through the edges of `graph` by their lower endpoint.
    pub fn restore_connectivity<W: Copy>(&self, result: &mut Graph<W>, graph: &Graph<W>)
        requires
            old(result).wf(),
            graph.wf(),
            old(result).n == graph.n,
        ensures
            final(result).wf(),
            final(result).n == old(result).n,
            final(result).adj() == greedy_extend(
                old(result).adj(),
                upper_edges_of(graph.adj(), graph.n as int),
                upper_edges_of(graph.adj(), graph.n as int).len() as int,
            ),
            extends(old(result).adj(), final(result).adj()),
            total_degree(final(result).adj()) == total_degree(old(result).adj()) + 2 * greedy_added(
                old(result).adj(),
                upper_edges_of(graph.adj(), graph.n as int),
                upper_edges_of(graph.adj(), graph.n as int).len() as int,
            ),
            undirected(old(result).adj()) ==> roots(final(result).adj(), graph.n as nat).len()
                + greedy_added(
                old(result).adj(),
                upper_edges_of(graph.adj(), graph.n as int),
                upper_edges_of(graph.adj(), graph.n as int).len() as int,
            ) == roots(old(result).adj(), graph.n as nat).len(),
            undirected(old(result).adj()) ==> undirected(final(result).adj()),
            mirrored(old(result).adj()) ==> mirrored(final(result).adj()),
            forall|u: usize, v: usize|
                #[trigger] linked(final(result).adj(), u, v) ==> linked(old(result).adj(), u, v)
                    || linked(graph.adj(), u, v) || linked(graph.adj(), v, u),
            (undirected(graph.adj()) || mirrored(graph.adj())) && (undirected(old(result).adj())
                || mirrored(old(result).adj())) ==> forall|s: usize, t: usize|
                #[trigger] connected(graph.adj(), s, t) ==> connected(final(result).adj(), s, t),
            (undirected(graph.adj()) || mirrored(graph.adj())) && (undirected(old(result).adj())
                || mirrored(old(result).adj())) && (forall|u: usize, v: usize|
                #[trigger] linked(old(result).adj(), u, v) ==> linked(graph.adj(), u, v)) ==> (forall|u: usize, v: usize|
                #[trigger] linked(final(result).adj(), u, v) ==> linked(graph.adj(), u, v)) && (forall|s: usize, t: usize|
                #[trigger] connected(final(result).adj(), s, t) == connected(graph.adj(), s, t)),
            mirrored(graph.adj()) && mirrored(old(result).adj()) && within(old(result).adj(), graph.adj()) ==> within(
                final(result).adj(),
                graph.adj(),
            ) && total_degree(final(result).adj()) <= total_degree(graph.adj()),
    {
        let ghost adj = graph.adj();
        let ghost n = graph.n;
        let edges = graph.upper_edges();
        proof {
            lemma_upper_edges(adj, n as int);
        }
        self.connect_greedily(result, &edges);
        proof {
            let es = edges@;
            let b = result.adj();
            assert forall|u: usize, v: usize| #[trigger] linked(b, u, v) implies linked(old(result).adj(), u, v)
                || linked(adj, u, v) || linked(adj, v, u) by {
                if names_pair(es, es.len() as int, u, v) {
                    let k = choose|k: int|
                        0 <= k < es.len() && ((#[trigger] es[k]).0 == u && es[k].1 == v || es[k].0 == v && es[k].1 == u);
                    assert(linked(adj, es[k].0, es[k].1));
                }
            }
            if mirrored(adj) {
                lemma_mirrored_undirected(adj);
            }
            if mirrored(old(result).adj()) {
                lemma_mirrored_undirected(old(result).adj());
            }
            if undirected(adj) && undirected(old(result).adj()) {
                assert(covers(es, adj));
                lemma_covered_links_connect(adj, b, es);
                if forall|u: usize, v: usize| #[trigger] linked(old(result).adj(), u, v) ==> linked(adj, u, v) {
                    assert forall|u: usize, v: usize| #[trigger] linked(b, u, v) implies linked(adj, u, v) by {
                        if linked(adj, v, u) {
                            assert(linked(adj, u, v));
                        }
                    }
                    assert forall|s: usize, t: usize| #[trigger] connected(b, s, t) implies connected(adj, s, t) by {
                        lemma_links_within(b, adj, s, t);
                    }
                }
            }
            if mirrored(adj) && mirrored(old(result).adj()) && within(old(result).adj(), adj) {
                assert forall|k: int| 0 <= k < es.len() implies (#[trigger] es[k]).0 < es[k].1 && linked(
                    adj,
                    es[k].0,
                    es[k].1,
                ) by {}
                lemma_greedy_within(old(result).adj(), es, es.len() as int, adj);
                lemma_within_degree(b, adj);
            }
        }
    }

    /// Adds the sampled edges of spectral sparsification: each pick `(x, w)`
    /// names the edge `x` of `graph.upper_edges()` and the weight it gets; an
    /// edge that `result` already holds is left as it is.
    pub fn sample_into<W: Copy>(&self, result: &mut Graph<W>, graph: &Graph<W>, picks: &[(usize, W)])
        requires
            old(result).wf(),
            graph.wf(),
            old(result).n == graph.n,
            forall|k: int| 0 <= k < picks@.len() ==> (#[trigger] picks@[k]).0 < upper_edges_of(
                graph.adj(),
                graph.n as int,
            ).len(),
        ensures
            final(result).wf(),
            final(result).n == old(result).n,
            final(result).adj() == sample_extend(
                old(result).adj(),
                upper_edges_of(graph.adj(), graph.n as int),
                picks@,
                picks@.len() as int,
            ),
            mirrored(old(result).adj()) ==> mirrored(final(result).adj()),
            undirected(old(result).adj()) ==> undirected(final(result).adj()),
            forall|u: usize, v: usize|
                #[trigger] linked(final(result).adj(), u, v) ==> linked(old(result).adj(), u, v)
                    || linked(graph.adj(), u, v) || linked(graph.adj(), v, u),
            mirrored(graph.adj()) && mirrored(old(result).adj()) && within(old(result).adj(), graph.adj()) ==> within(
                final(result).adj(),
                graph.adj(),
            ) && total_degree(final(result).adj()) <= total_degree(graph.adj()),
    {
        let ghost adj = graph.adj();
        let ghost a0 = result.adj();
        let ghost ps = picks@;
        let edges = graph.upper_edges();
        let ghost es = edges@;
        proof {
            lemma_upper_edges(adj, graph.n as int);
        }
        for k in 0..picks.len()
            invariant
                ps == picks@,
                es == edges@,
                es == upper_edges_of(adj, graph.n as int),
                adj == graph.adj(),
                graph.wf(),
                a0 == old(result).adj(),
                result.wf(),
                result.n == graph.n,
                forall|x: int| 0 <= x < ps.len() ==> (#[trigger] ps[x]).0 < es.len(),
                forall|x: int| 0 <= x < es.len() ==> (#[trigger] es[x]).0 < es[x].1 && es[x].0 < graph.n
                    && linked(adj, es[x].0, es[x].1),
                result.adj() == sample_extend(a0, es, ps, k as int),
                mirrored(a0) ==> mirrored(result.adj()),
                undirected(a0) ==> undirected(result.adj()),
                forall|u: usize, v: usize|
                    #[trigger] linked(result.adj(), u, v) ==> linked(a0, u, v) || linked(adj, u, v) || linked(
                        adj,
                        v,
                        u,
                    ),
                mirrored(adj) && mirrored(a0) && within(a0, adj) ==> within(result.adj(), adj),
        {
            let (x, w) = picks[k];
            let (i, j, _) = edges[x];
            assert(es[x as int] == (i, j, edges@[x as int].2));
            assert(linked(adj, i, j));
            let ghost before = result.adj();
            proof {
                let t = choose|t: int| 0 <= t < adj[i as int].len() && #[trigger] adj[i as int][t].0 == j;
                assert(adj[i as int][t].0 < graph.n);
            }
            self.add_sampled_edge(result, i, j, w);
            proof {
                lemma_add_edge_links(before, i, j, w);
                if !has_neighbor(before[i as int], j) && mirrored(adj) && mirrored(a0) && within(a0, adj) {
                    lemma_within_add(before, adj, i, j, w);
                }
            }
        }
        proof {
            if mirrored(adj) && mirrored(a0) && within(a0, adj) {
                lemma_within_degree(result.adj(), adj);
            }
        }
    }

    /// Starts the spanner of `graph`: its edges, each once as `(i, j, w)` with
    /// `i < j` (see `Graph::upper_edges`), will be taken in the order `order`
    /// (the caller ranks them by weight; `order` lists every index once), from
    /// a graph without edges.
    pub fn spanner_start<W: Copy>(&self, graph: &Graph<W>, order: &[usize]) -> (p: SpannerPass<W>)
        requires
            graph.wf(),
            forall|k: int| 0 <= k < order@.len() ==> #[trigger] order@[k] < upper_edges_of(
                graph.adj(),
                graph.n as int,
            ).len(),
            order@.len() == upper_edges_of(graph.adj(), graph.n as int).len(),
            order@.no_duplicates(),
        ensures
            p.wf(),
            p.source@ == graph.adj(),
            p.order@ == order@,
            p.next == 0,
            p.graph.n == graph.n,
    {
        let ghost adj = graph.adj();
        let n = graph.n;
        let edges = graph.upper_edges();
        let ghost ue = edges@;
        proof {
            lemma_upper_edges(adj, n as int);
        }
        let mut ranked: Vec<(usize, usize, W)> = Vec::new();
        for k in 0..order.len()
            invariant
                ue == edges@,
                forall|x: int| 0 <= x < order@.len() ==> #[trigger] order@[x] < ue.len(),
                ranked@ == in_order(ue, order@.take(k as int)),
        {
            ranked.push(edges[order[k]]);
            assert(ranked@ =~= in_order(ue, order@.take(k + 1)));
        }
        assert(order@.take(order@.len() as int) =~= order@);
        assert(ue.len() == edges.len());
        let g = Graph::new(n);
        assert forall|i: int| 0 <= i < n implies #[trigger] g.adj()[i] =~= edgeless::<W>(n as nat)[i] by {}
        assert(g.adj() =~= edgeless(n as nat));
        proof {
            assert forall|k: int| 0 <= k < ranked@.len() implies (#[trigger] ranked@[k]).0 < n && ranked@[k].1 < n by {
                let x = order@[k] as int;
                assert(ranked@[k] == ue[x]);
                assert(linked(adj, ue[x].0, ue[x].1));
                let t = choose|t: int| 0 <= t < adj[ue[x].0 as int].len() && #[trigger] adj[ue[x].0 as int][t].0 == ue[x].1;
            }
        }
        SpannerPass {
            graph: g,
            edges: ranked,
            next: 0,
            near: Ghost(Seq::empty()),
            source: Ghost(adj),
            order: Ghost(order@),
        }
    }

    /// Takes the next edge `(i, j, w)` of the pass. `near` reports whether the
    /// spanner built so far joins `i` and `j` by a path no longer than the
    /// stretch times `w`; the edge is left out only when that is reported and
    /// `i` and `j` are indeed connected, and is added otherwise.
    pub fn spanner_step<W: Copy>(&self, pass: &mut SpannerPass<W>, near: bool)
        requires
            old(pass).wf(),
            old(pass).next < old(pass).edges@.len(),
        ensures
            final(pass).wf(),
            final(pass).next == old(pass).next + 1,
            final(pass).near@ == old(pass).near@.push(near),
            final(pass).edges@ == old(pass).edges@,
            final(pass).source@ == old(pass).source@,
            final(pass).order@ == old(pass).order@,
            final(pass).graph.n == old(pass).graph.n,
            ({
                let (i, j, w) = old(pass).edges@[old(pass).next as int];
                final(pass).graph.adj() == if near && connected(old(pass).graph.adj(), i, j) {
                    old(pass).graph.adj()
                } else {
                    spec_add_edge(old(pass).graph.adj(), i as int, j as int, w)
                }
            }),
    {
        let len = pass.edges.len();
        assert(pass.next < len);
        let (i, j, w) = pass.edges[pass.next];
        let ghost k = pass.next as int;
        assert(pass.edges@[k] == (i, j, w));
        let joined = near && self.is_connected_in(&pass.graph, i, j);
        if !joined {
            pass.graph.add_edge(i, j, w);
        }
        pass.near = Ghost(pass.near@.push(near));
        pass.next = pass.next + 1;
        proof {
            let es = pass.edges@;
            let nr = pass.near@;
            let e0 = edgeless::<W>(pass.graph.n as nat);
            lemma_stretch_prefix(e0, es, nr, old(pass).near@, k);
            assert(stretch_extend(e0, es, nr, k) == old(pass).graph.adj());
            assert(nr[k] == near);
            assert(pass.graph.adj() == stretch_extend(e0, es, nr, k + 1));
        }
    }

    /// The spanner, once every edge has been taken. It is the pass over the
    /// edges in the order given, under the reports given; it stores each edge
    /// at both ends, keeps only edges of `source`, connects exactly what
    /// `source` connects, and has no more edges than `source`.
    pub fn spanner_finish<W: Copy>(&self, pass: SpannerPass<W>) -> (r: Graph<W>)
        requires
            pass.wf(),
            pass.next == pass.edges@.len(),
        ensures
            r.wf(),
            r.n == pass.graph.n,
            r.adj() == stretch_extend(
                edgeless(pass.graph.n as nat),
                in_order(upper_edges_of(pass.source@, pass.graph.n as int), pass.order@),
                pass.near@,
                pass.order@.len() as int,
            ),
            undirected(r.adj()),
            mirrored(r.adj()),
            total_degree(r.adj()) <= 2 * pass.order@.len(),
            undirected(pass.source@) || mirrored(pass.source@) ==> forall|u: usize, v: usize|
                #[trigger] linked(r.adj(), u, v) ==> linked(pass.source@, u, v),
            undirected(pass.source@) || mirrored(pass.source@) ==> forall|s: usize, t: usize|
                #[trigger] connected(r.adj(), s, t) == connected(pass.source@, s, t),
            mirrored(pass.source@) ==> total_degree(r.adj()) <= total_degree(pass.source@),
    {
        let ghost adj = pass.source@;
        let ghost n = pass.graph.n;
        let ghost es = pass.edges@;
        let ghost ue = upper_edges_of(adj, n as int);
        let ghost order = pass.order@;
        let ghost near = pass.near@;
        let r = pass.graph;
        proof {
            let e0 = edgeless::<W>(n as nat);
            lemma_edgeless_degree::<W>(n as nat);
            assert forall|u: usize, v: usize| #[trigger] linked(e0, u, v) implies false by {}
            assert(undirected(e0));
            assert forall|u: usize, v: usize| (u as int) < n && (v as int) < n implies #[trigger] crate::graph::weights_to(
                e0[u as int],
                v,
            ) == crate::graph::weights_to(e0[v as int], u) by {
                assert(crate::graph::weights_to(e0[u as int], v) =~= Seq::<W>::empty());
                assert(crate::graph::weights_to(e0[v as int], u) =~= Seq::<W>::empty());
            }
            lemma_stretch_facts(e0, es, near, es.len() as int, n as nat);
            lemma_upper_edges(adj, n as int);
            if mirrored(adj) {
                lemma_mirrored_undirected(adj);
            }
            if undirected(adj) {
                assert forall|u: usize, v: usize| #[trigger] linked(r.adj(), u, v) implies linked(adj, u, v) by {
                    assert(names_pair(es, es.len() as int, u, v));
                    let k = choose|k: int|
                        0 <= k < es.len() && ((#[trigger] es[k]).0 == u && es[k].1 == v || es[k].0 == v && es[k].1 == u);
                    assert(es[k] == ue[order[k] as int]);
                    assert(linked(adj, es[k].0, es[k].1));
                }
                lemma_permutation_covers(order, ue.len() as int);
                assert forall|u: usize, v: usize| #[trigger] linked(adj, u, v) && u < v implies exists|k: int|
                    0 <= k < es.len() && (#[trigger] es[k]).0 == u && es[k].1 == v by {
                    let x = choose|x: int| 0 <= x < ue.len() && (#[trigger] ue[x]).0 == u && ue[x].1 == v;
                    assert(order.contains(x as usize));
                    let k = choose|k: int| 0 <= k < order.len() && order[k] == x as usize;
                    assert(es[k] == ue[order[k] as int]);
                    assert(order[k] as int == x);
                }
                lemma_covered_links_connect(adj, r.adj(), es);
                assert forall|s: usize, t: usize| #[trigger] connected(r.adj(), s, t) implies connected(adj, s, t) by {
                    lemma_links_within(r.adj(), adj, s, t);
                }
            }
            if mirrored(adj) {
                lemma_distinct_indices_bound(order, ue.len() as int);
                lemma_upper_edges_half(adj);
            }
        }
        r
    }

    /// Whether some walk in `graph` leads from `start` to `target` (depth-first search).
    pub fn is_connected_in<W: Copy>(&self, graph: &Graph<W>, start: usize, target: usize) -> (r: bool)
        requires
            graph.wf(),
            start == target || start < graph.n,
        ensures
            r == connected(graph.adj(), start, target),
    {
        if start == target {
            proof {
                lemma_connected_refl(graph.adj(), start);
            }
            return true;
        }
        let n = graph.n;
        let ghost adj = graph.adj();
        let mut visited: Vec<bool> = Vec::new();
        for v in 0..n
            invariant
                visited@.len() == v,
                forall|u: int| 0 <= u < v ==> !visited@[u],
        {
            visited.push(false);
        }
        let mut stack: Vec<usize> = Vec::new();
        stack.push(start);
        proof {
            lemma_count_false_set(visited@, start as int);
            lemma_connected_refl(adj, start);
        }
        visited.set(start, true);
        proof {
            assert(stack@[0] == start);
            assert forall|v: int| 0 <= v < n && visited@[v] implies v == start by {}
        }
        loop
            invariant
                graph.wf(),
                n == graph.n,
                adj == graph.adj(),
                start < n,
                start != target,
                visited@.len() == n,
                visited@[start as int],
                forall|v: int| 0 <= v < n && #[trigger] visited@[v] ==> v != target,
                forall|v: int| 0 <= v < n && #[trigger] visited@[v] ==> connected(adj, start, v as usize),
                forall|k: int| 0 <= k < stack@.len() ==> #[trigger] stack@[k] < n && visited@[stack@[k] as int],
                forall|a: int, b: int| 0 <= a < b < stack@.len() ==> #[trigger] stack@[a] != #[trigger] stack@[b],
                forall|v: int, k: int|
                    0 <= v < n && visited@[v] && !stack@.contains(v as usize) && 0 <= k < adj[v].len()
                        ==> #[trigger] visited@[adj[v][k].0 as int],
            decreases stack@.len() + 2 * count_false(visited@),
        {
            let ghost measure = stack@.len() + 2 * count_false(visited@);
            let ghost old_stack = stack@;
            match stack.pop() {
                None => {
                    proof {
                        let vis = visited@;
                        let inside = |v: usize| (v as int) < (n as int) && vis[v as int];
                        assert forall|u: usize, v: usize| inside(u) && #[trigger] linked(adj, u, v) implies inside(v) by {
                            let k = choose|k: int| 0 <= k < adj[u as int].len() && #[trigger] adj[u as int][k].0 == v;
                            assert(!stack@.contains(u));
                            assert(visited@[adj[u as int][k].0 as int]);
                            assert(adj[u as int][k].0 < n);
                        }
                        if connected(adj, start, target) {
                            lemma_closed_contains(adj, inside, start, target);
                        }
                    }
                    return false;
                },
                Some(node) => {
                    proof {
                        assert(old_stack.last() == node);
                        assert(stack@ =~= old_stack.drop_last());
                        if stack@.contains(node) {
                            let a = choose|a: int| 0 <= a < stack@.len() && stack@[a] == node;
                            assert(old_stack[a] == old_stack[old_stack.len() - 1]);
                        }
                        assert(node < n && visited@[node as int]);
                        assert forall|v: int, m: int|
                            0 <= v < n && v != node && visited@[v] && !stack@.contains(v as usize) && 0 <= m < adj[v].len()
                                implies #[trigger] visited@[adj[v][m].0 as int] by {
                            if old_stack.contains(v as usize) {
                                let a = choose|a: int| 0 <= a < old_stack.len() && old_stack[a] == v as usize;
                                assert(stack@[a] == v as usize);
                            }
                        }
                    }
                    let row = &graph.edges[node];
                    let ghost r = row@;
                    for k in 0..row.len()
                        invariant
                            graph.wf(),
                            n == graph.n,
                            adj == graph.adj(),
                            start < n,
                            start != target,
                            node < n,
                            r == row@,
                            r == adj[node as int],
                            visited@.len() == n,
                            visited@[start as int],
                            visited@[node as int],
                            !stack@.contains(node),
                            stack@.len() + 2 * count_false(visited@) < measure,
                            forall|v: int| 0 <= v < n && #[trigger] visited@[v] ==> v != target,
                            forall|v: int| 0 <= v < n && #[trigger] visited@[v] ==> connected(adj, start, v as usize),
                            forall|i: int| 0 <= i < stack@.len() ==> #[trigger] stack@[i] < n && visited@[stack@[i] as int],
                            forall|a: int, b: int| 0 <= a < b < stack@.len() ==> #[trigger] stack@[a] != #[trigger] stack@[b],
                            forall|v: int, m: int|
                                0 <= v < n && v != node && visited@[v] && !stack@.contains(v as usize) && 0 <= m < adj[v].len()
                                    ==> #[trigger] visited@[adj[v][m].0 as int],
                            forall|m: int| 0 <= m < k ==> #[trigger] visited@[r[m].0 as int],
                    {
                        let nb = row[k].0;
                        assert(adj[node as int][k as int].0 == nb);
                        assert(nb < n);
                        proof {
                            assert(linked(adj, node, nb));
                        }
                        if nb == target {
                            proof {
                                lemma_connected_step(adj, start, node, nb);
                            }
                            return true;
                        }
                        if !visited[nb] {
                            proof {
                                lemma_connected_step(adj, start, node, nb);
                                lemma_count_false_set(visited@, nb as int);
                                if stack@.contains(nb) {
                                    let a = choose|a: int| 0 <= a < stack@.len() && stack@[a] == nb;
                                    assert(visited@[stack@[a] as int]);
                                }
                            }
                            let ghost before = stack@;
                            let ghost vb = visited@;
                            visited.set(nb, true);
                            stack.push(nb);
                            proof {
                                assert forall|a: int, b: int| 0 <= a < b < stack@.len() implies #[trigger] stack@[a] != #[trigger] stack@[b] by {
                                    if b == stack@.len() - 1 {
                                        assert(stack@[a] == before[a]);
                                        assert(before.contains(before[a]));
                                    }
                                }
                                assert forall|v: int, m: int|
                                    0 <= v < n && v != node && visited@[v] && !stack@.contains(v as usize) && 0 <= m < adj[v].len()
                                        implies #[trigger] visited@[adj[v][m].0 as int] by {
                                    assert(stack@[stack@.len() - 1] == nb);
                                    if v != nb {
                                        if before.contains(v as usize) {
                                            let a = choose|a: int| 0 <= a < before.len() && before[a] == v as usize;
                                            assert(stack@[a] == v as usize);
                                        }
                                        assert(vb[v]);
                                        assert(vb[adj[v][m].0 as int]);
                                    }
                                }
                                assert(!stack@.contains(node)) by {
                                    if stack@.contains(node) {
                                        let a = choose|a: int| 0 <= a < stack@.len() && stack@[a] == node;
                                        if a < before.len() {
                                            assert(before[a] == node);
                                        }
                                    }
                                }
                            }
                        }
                    }
                    proof {
                        assert forall|v: int, m: int|
                            0 <= v < n && visited@[v] && !stack@.contains(v as usize) && 0 <= m < adj[v].len()
                                implies #[trigger] visited@[adj[v][m].0 as int] by {
                            if v == node {
                                assert(visited@[r[m].0 as int]);
                            }
                        }
                    }
                },
            }
        }
    }
}

/// When `es` names every link `u -> v` (`u < v`) of the undirected `g`, and
/// the undirected `b` connects the endpoints of every edge of `es`, `b`
/// connects everything that `g` connects.
pub proof fn lemma_covered_links_connect<W>(g: Adjacency<W>, b: Adjacency<W>, es: Seq<(usize, usize, W)>)
    requires
        undirected(g),
        undirected(b),
        covers(es, g),
        forall|k: int| 0 <= k < es.len() ==> connected(b, (#[trigger] es[k]).0, es[k].1),
    ensures
        forall|s: usize, t: usize| #[trigger] connected(g, s, t) ==> connected(b, s, t),
{
    assert forall|u: usize, v: usize| #[trigger] linked(g, u, v) implies connected(b, u, v) by {
        if u < v {
            let k = choose|k: int| 0 <= k < es.len() && (#[trigger] es[k]).0 == u && es[k].1 == v;
        } else if v < u {
            assert(linked(g, v, u));
            let k = choose|k: int| 0 <= k < es.len() && (#[trigger] es[k]).0 == v && es[k].1 == u;
            assert(connected(b, v, u));
            lemma_connected_symmetric(b, v, u);
        } else {
            lemma_connected_refl(b, u);
        }
    }
    assert forall|s: usize, t: usize| #[trigger] connected(g, s, t) implies connected(b, s, t) by {
        lemma_connected_through(g, b, s, t);
    }
}

/// When every link of `b` is a link of `g`, every connection of `b` is one of `g`.
pub proof fn lemma_links_within<W>(b: Adjacency<W>, g: Adjacency<W>, s: usize, t: usize)
    requires
        forall|u: usize, v: usize| #[trigger] linked(b, u, v) ==> linked(g, u, v),
        connected(b, s, t),
    ensures
        connected(g, s, t),
{
    assert forall|u: usize, v: usize| #[trigger] linked(b, u, v) implies connected(g, u, v) by {
        lemma_connected_refl(g, u);
        lemma_connected_step(g, u, u, v);
    }
    lemma_connected_through(b, g, s, t);
}

proof fn lemma_stretch_prefix<W>(a: Adjacency<W>, es: Seq<(usize, usize, W)>, d1: Seq<bool>, d2: Seq<bool>, m: int)
    requires
        0 <= m <= d2.len(),
        m <= d1.len(),
        forall|k: int| 0 <= k < m ==> d1[k] == d2[k],
    ensures
        stretch_extend(a, es, d1, m) == stretch_extend(a, es, d2, m),
    decreases m,
{
    if m > 0 {
        lemma_stretch_prefix(a, es, d1, d2, m - 1);
    }
}

/// What the spanner pass does, step by step: it keeps the graph undirected and
/// each edge stored at both ends, adds at most one edge per step, every new
/// link is an edge of `es`, and the endpoints of every edge of `es` end up
/// connected.
proof fn lemma_stretch_facts<W>(a: Adjacency<W>, es: Seq<(usize, usize, W)>, near: Seq<bool>, m: int, n: nat)
    requires
        a.len() == n,
        n <= usize::MAX,
        forall|k: int| 0 <= k < es.len() ==> (#[trigger] es[k]).0 < n && es[k].1 < n,
        0 <= m <= es.len(),
        m <= near.len(),
    ensures
        stretch_extend(a, es, near, m).len() == n,
        undirected(a) ==> undirected(stretch_extend(a, es, near, m)),
        mirrored(a) ==> mirrored(stretch_extend(a, es, near, m)),
        extends(a, stretch_extend(a, es, near, m)),
        total_degree(stretch_extend(a, es, near, m)) <= total_degree(a) + 2 * m,
        forall|u: usize, v: usize|
            #[trigger] linked(stretch_extend(a, es, near, m), u, v) ==> linked(a, u, v) || names_pair(es, m, u, v),
        forall|k: int| 0 <= k < m ==> connected(stretch_extend(a, es, near, m), (#[trigger] es[k]).0, es[k].1),
    decreases m,
{
    if m > 0 {
        lemma_stretch_facts(a, es, near, m - 1, n);
        let prev = stretch_extend(a, es, near, m - 1);
        let (i, j, w) = es[m - 1];
        let cur = stretch_extend(a, es, near, m);
        assert forall|u: usize, v: usize| names_pair(es, m - 1, u, v) implies names_pair(es, m, u, v) by {
            let k = choose|k: int|
                0 <= k < m - 1 && ((#[trigger] es[k]).0 == u && es[k].1 == v || es[k].0 == v && es[k].1 == u);
        }
        if near[m - 1] && connected(prev, i, j) {
            assert forall|k: int| 0 <= k < m implies connected(cur, (#[trigger] es[k]).0, es[k].1) by {
                if k == m - 1 {
                    assert(es[k] == (i, j, w));
                }
            }
        } else {
            lemma_add_edge_links(prev, i, j, w);
            lemma_add_edge_degree(prev, i as int, j as int, w);
            if mirrored(a) {
                lemma_add_edge_mirrored(prev, i, j, w);
            }
            lemma_add_edge_extends(prev, i, j, w);
            lemma_extends_trans(a, prev, cur);
            assert forall|k: int| 0 <= k < m implies connected(cur, (#[trigger] es[k]).0, es[k].1) by {
                if k < m - 1 {
                    lemma_connected_mono(prev, cur, es[k].0, es[k].1);
                } else {
                    lemma_connected_refl(cur, i);
                    lemma_connected_step(cur, i, i, j);
                }
            }
            assert forall|u: usize, v: usize| #[trigger] linked(cur, u, v) implies linked(a, u, v) || names_pair(
                es,
                m,
                u,
                v,
            ) by {
                if !linked(prev, u, v) {
                    assert(es[m - 1] == (i, j, w));
                }
            }
        }
    }
}

/// The greedy pass over edges of `g` (between distinct vertices) keeps a
/// graph within `g`.
proof fn lemma_greedy_within<W>(a: Adjacency<W>, es: Seq<(usize, usize, W)>, m: int, g: Adjacency<W>)
    requires
        a.len() == g.len(),
        mirrored(a),
        mirrored(g),
        within(a, g),
        0 <= m <= es.len(),
        forall|k: int| 0 <= k < es.len() ==> (#[trigger] es[k]).0 < es[k].1 && linked(g, es[k].0, es[k].1),
        forall|i: int, t: int| 0 <= i < g.len() && 0 <= t < g[i].len() ==> #[trigger] g[i][t].0 < g.len(),
    ensures
        greedy_extend(a, es, m).len() == g.len(),
        mirrored(greedy_extend(a, es, m)),
        within(greedy_extend(a, es, m), g),
    decreases m,
{
    if m > 0 {
        lemma_greedy_within(a, es, m - 1, g);
        let prev = greedy_extend(a, es, m - 1);
        let (i, j, w) = es[m - 1];
        assert(linked(g, i, j));
        let t = choose|t: int| 0 <= t < g[i as int].len() && #[trigger] g[i as int][t].0 == j;
        assert(g[i as int][t].0 < g.len());
        if !connected(prev, i, j) {
            if has_neighbor(prev[i as int], j) {
                lemma_connected_refl(prev, i);
                lemma_connected_step(prev, i, i, j);
            }
            lemma_add_edge_mirrored(prev, i, j, w);
            lemma_within_add(prev, g, i, j, w);
        }
    }
}

/// A list of `hi` distinct indices below `hi` lists every index below `hi`.
proof fn lemma_permutation_covers(s: Seq<usize>, hi: int)
    requires
        s.no_duplicates(),
        forall|k: int| 0 <= k < s.len() ==> #[trigger] s[k] < hi,
        s.len() == hi,
        hi <= usize::MAX + 1,
    ensures
        forall|x: int| 0 <= x < hi ==> #[trigger] s.contains(x as usize),
{
    s.unique_seq_to_set();
    lemma_index_range(hi);
    assert(s.to_set().subset_of(index_range(hi)));
    vstd::set_lib::lemma_len_subset(s.to_set(), index_range(hi));
    vstd::set_lib::lemma_subset_equality(s.to_set(), index_range(hi));
    assert forall|x: int| 0 <= x < hi implies #[trigger] s.contains(x as usize) by {
        assert(index_range(hi).contains(x as usize));
        assert(s.to_set().contains(x as usize));
    }
}

/// A list of distinct indices below `hi` has at most `hi` entries.
proof fn lemma_distinct_indices_bound(s: Seq<usize>, hi: int)
    requires
        s.no_duplicates(),
        forall|k: int| 0 <= k < s.len() ==> #[trigger] s[k] < hi,
        0 <= hi <= usize::MAX + 1,
    ensures
        s.len() <= hi,
{
    s.unique_seq_to_set();
    lemma_index_range(hi);
    assert(s.to_set().subset_of(index_range(hi)));
    vstd::set_lib::lemma_len_subset(s.to_set(), index_range(hi));
}

proof fn lemma_edgeless_degree<W>(n: nat)
    ensures
        total_degree(edgeless::<W>(n)) == 0,
    decreases n,
{
    if n > 0 {
        assert(edgeless::<W>(n).drop_last() =~= edgeless::<W>((n - 1) as nat));
        lemma_edgeless_degree::<W>((n - 1) as nat);
    }
}

/// Extension of adjacency lists is transitive.
proof fn lemma_extends_trans<W>(a: Adjacency<W>, b: Adjacency<W>, c: Adjacency<W>)
    requires
        extends(a, b),
        extends(b, c),
    ensures
        extends(a, c),
{
    assert forall|u: int| 0 <= u < a.len() implies #[trigger] a[u].is_prefix_of(c[u]) by {
        assert(a[u].is_prefix_of(b[u]));
        assert(b[u].is_prefix_of(c[u]));
        assert forall|k: int| 0 <= k < a[u].len() implies a[u][k] == c[u][k] by {
            assert(b[u][k] == a[u][k]);
        }
    }
}

} // verus!
