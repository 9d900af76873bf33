use vstd::prelude::*;
use crate::matrix::DenseMatrix;
use crate::reach::{lemma_chain_connected, lemma_hub_connected};
use crate::counting::{lemma_total_degree_rows, lemma_induced_degree, induced_edge_count};

verus! {

/// The abstract value of a weighted adjacency structure: for every vertex,
/// the sequence of `(neighbour, weight)` entries in insertion order.
pub type Adjacency<W> = Seq<Seq<(usize, W)>>;

/// Appends `(j, w)` to the list of `i`, then `(i, w)` to the list of `j`.
pub open spec fn spec_add_edge<W>(adj: Adjacency<W>, i: int, j: int, w: W) -> Adjacency<W> {
    let a1 = adj.update(i, adj[i].push((j as usize, w)));
    a1.update(j, a1[j].push((i as usize, w)))
}

/// `j` occurs as a neighbour in `row`.
pub open spec fn has_neighbor<W>(row: Seq<(usize, W)>, j: usize) -> bool {
    exists|k: int| 0 <= k < row.len() && #[trigger] row[k].0 == j
}

/// The sum of the lengths of all adjacency lists.
pub open spec fn total_degree<W>(adj: Adjacency<W>) -> nat
    decreases adj.len(),
{
    if adj.len() == 0 {
        0
    } else {
        total_degree(adj.drop_last()) + adj.last().len()
    }
}

/// The adjacency list of vertex `v` in the complete graph on `n` vertices:
/// every other vertex, in increasing order.
pub open spec fn complete_row<W>(n: nat, v: int, w: W) -> Seq<(usize, W)> {
    Seq::new((n - 1) as nat, |k: int| ((if k < v { k } else { k + 1 }) as usize, w))
}

/// The adjacency list of vertex `v` in the path `0 - 1 - ... - (n-1)`.
pub open spec fn path_row<W>(n: nat, v: int, w: W) -> Seq<(usize, W)> {
    (if v > 0 { seq![((v - 1) as usize, w)] } else { Seq::empty() }) + (if v + 1 < n {
        seq![((v + 1) as usize, w)]
    } else {
        Seq::empty()
    })
}

/// The adjacency list of vertex `v` in the cycle on `n` vertices.
pub open spec fn cycle_row<W>(n: nat, v: int, w: W) -> Seq<(usize, W)> {
    if n > 2 && v == 0 {
        path_row(n, v, w).push(((n - 1) as usize, w))
    } else if n > 2 && v == n - 1 {
        path_row(n, v, w).push((0usize, w))
    } else {
        path_row(n, v, w)
    }
}

/// The adjacency list of vertex `v` in the star with centre `0` on `n` vertices.
pub open spec fn star_row<W>(n: nat, v: int, w: W) -> Seq<(usize, W)> {
    if v == 0 {
        Seq::new((n - 1) as nat, |k: int| ((k + 1) as usize, w))
    } else {
        seq![(0usize, w)]
    }
}

/// The last position of `v` in `vs`, or `0` when `v` does not occur.
pub open spec fn last_index(vs: Seq<usize>, v: usize) -> int
    decreases vs.len(),
{
    if vs.len() == 0 {
        0
    } else if vs.last() == v {
        vs.len() - 1
    } else {
        last_index(vs.drop_last(), v)
    }
}

/// The entries that vertex `a` of the induced subgraph receives from its own
/// list `row`: each neighbour kept in `vs` whose new index lies above `a`.
pub open spec fn row_out<W>(row: Seq<(usize, W)>, vs: Seq<usize>, a: int) -> Seq<(usize, W)>
    decreases row.len(),
{
    if row.len() == 0 {
        Seq::empty()
    } else {
        let (j, w) = row.last();
        row_out(row.drop_last(), vs, a) + (if vs.contains(j) && a < last_index(vs, j) {
            seq![(last_index(vs, j) as usize, w)]
        } else {
            Seq::empty()
        })
    }
}

/// The entries that vertex `a` of the induced subgraph receives from the list
/// `row` of the new vertex `i < a`.
pub open spec fn row_in<W>(row: Seq<(usize, W)>, vs: Seq<usize>, a: int, i: int) -> Seq<(usize, W)>
    decreases row.len(),
{
    if row.len() == 0 {
        Seq::empty()
    } else {
        let (j, w) = row.last();
        row_in(row.drop_last(), vs, a, i) + (if vs.contains(j) && last_index(vs, j) == a && i
            < a {
            seq![(i as usize, w)]
        } else {
            Seq::empty()
        })
    }
}

/// What vertex `a` of the induced subgraph receives from the lists of the new
/// vertices `0..m`.
pub open spec fn in_part<W>(adj: Adjacency<W>, vs: Seq<usize>, a: int, m: int) -> Seq<(usize, W)>
    decreases m,
{
    if m <= 0 {
        Seq::empty()
    } else {
        in_part(adj, vs, a, m - 1) + row_in(adj[vs[m - 1] as int], vs, a, m - 1)
    }
}

/// The list of vertex `a` in the subgraph induced by `vs`, renumbered so that
/// `vs[a]` becomes `a` (a vertex listed twice is known by its last position):
/// first the edges from lower new vertices, then its own edges to higher ones.
pub open spec fn induced_row<W>(adj: Adjacency<W>, vs: Seq<usize>, a: int) -> Seq<(usize, W)> {
    in_part(adj, vs, a, a) + row_out(adj[vs[a] as int], vs, a)
}

/// The weights that new vertex `a` of the subgraph induced by `vs` lists for
/// new vertex `b`: the edges of the graph between `vs[a]` and `vs[b]`, as the
/// lower of the two lists them; none for `a == b`.
pub open spec fn induced_weights<W>(adj: Adjacency<W>, vs: Seq<usize>, a: int, b: int) -> Seq<W> {
    if a < b {
        weights_to(adj[vs[a] as int], vs[b])
    } else if b < a {
        weights_to(adj[vs[b] as int], vs[a])
    } else {
        Seq::empty()
    }
}

/// The entries `(i, j, w)` of the list `row` of vertex `i` with `j > i`.
pub open spec fn row_upper<W>(row: Seq<(usize, W)>, i: int) -> Seq<(usize, usize, W)>
    decreases row.len(),
{
    if row.len() == 0 {
        Seq::empty()
    } else {
        let (j, w) = row.last();
        row_upper(row.drop_last(), i) + (if j > i {
            seq![(i as usize, j, w)]
        } else {
            Seq::empty()
        })
    }
}

/// Every undirected edge once, as `(i, j, w)` with `i < j`, listed by `i` and
/// then in the order of the list of `i`, over the vertices `0..m`.
pub open spec fn upper_edges_of<W>(adj: Adjacency<W>, m: int) -> Seq<(usize, usize, W)>
    decreases m,
{
    if m <= 0 {
        Seq::empty()
    } else {
        upper_edges_of(adj, m - 1) + row_upper(adj[m - 1], m - 1)
    }
}

/// The weights of the entries of `row` that lead to `j`, in list order.
pub open spec fn weights_to<W>(row: Seq<(usize, W)>, j: usize) -> Seq<W>
    decreases row.len(),
{
    if row.len() == 0 {
        Seq::empty()
    } else {
        weights_to(row.drop_last(), j) + if row.last().0 == j {
            seq![row.last().1]
        } else {
            Seq::empty()
        }
    }
}

/// The weight of the last entry for `j` in `row`, or `default` when there is none.
pub open spec fn last_weight<W>(row: Seq<(usize, W)>, j: int, default: W) -> W {
    if weights_to(row, j as usize).len() > 0 {
        weights_to(row, j as usize).last()
    } else {
        default
    }
}

/// The weight of the first entry for `j` in `row`, if there is one.
pub open spec fn first_weight<W>(row: Seq<(usize, W)>, j: usize) -> Option<W> {
    if weights_to(row, j).len() > 0 {
        Some(weights_to(row, j)[0])
    } else {
        None
    }
}

/// Each edge is stored once in the list of each endpoint: the weights that
/// `i` lists for `j` are, in order, those that `j` lists for `i`.
pub open spec fn mirrored<W>(adj: Adjacency<W>) -> bool {
    forall|i: usize, j: usize|
        (i as int) < adj.len() && (j as int) < adj.len() ==> #[trigger] weights_to(adj[i as int], j)
            == weights_to(adj[j as int], i)
}

/// `u` is a vertex whose list names `v`.
pub open spec fn linked<W>(adj: Adjacency<W>, u: usize, v: usize) -> bool {
    (u as int) < adj.len() && has_neighbor(adj[u as int], v)
}

/// `p` is a walk: a non-empty sequence of vertices, each step along a list entry.
pub open spec fn is_walk<W>(adj: Adjacency<W>, p: Seq<usize>) -> bool {
    &&& p.len() >= 1
    &&& forall|k: int| #![trigger p[k]] 0 <= k < p.len() - 1 ==> linked(adj, p[k], p[k + 1])
}

/// Some walk leads from `s` to `t`.
pub open spec fn connected<W>(adj: Adjacency<W>, s: usize, t: usize) -> bool {
    exists|p: Seq<usize>| #[trigger] is_walk(adj, p) && p[0] == s && p.last() == t
}

/// Every list entry has its mirror: when `u` lists `v`, `v` lists `u`.
pub open spec fn undirected<W>(adj: Adjacency<W>) -> bool {
    forall|u: usize, v: usize| #[trigger] linked(adj, u, v) ==> linked(adj, v, u)
}

/// A weighted undirected graph on the vertices `0..n`, stored as adjacency lists.
#[derive(Clone, Debug)]
pub struct Graph<W> {
    pub n: usize,
    pub edges: Vec<Vec<(usize, W)>>,
}

impl<W: Copy> Graph<W> {
    /// The adjacency lists as a sequence of sequences.
    pub open spec fn adj(&self) -> Adjacency<W> {
        self.edges@.map_values(|row: Vec<(usize, W)>| row@)
    }

    /// One list per vertex, and every neighbour is a vertex.
    pub open spec fn wf(&self) -> bool {
        &&& self.edges@.len() == self.n
        &&& forall|i: int, k: int|
            0 <= i < self.n && 0 <= k < self.adj()[i].len() ==> #[trigger] self.adj()[i][k].0
                < self.n
    }

    /// An empty graph with `n` vertices.
    pub fn new(n: usize) -> (g: Self)
        ensures
            g.wf(),
            g.n == n,
            forall|i: int| 0 <= i < n ==> #[trigger] g.adj()[i].len() == 0,
            undirected(g.adj()),
            mirrored(g.adj()),
    {
        let mut edges: Vec<Vec<(usize, W)>> = Vec::new();
        for i in 0..n
            invariant
                edges@.len() == i,
                forall|k: int| 0 <= k < i ==> #[trigger] edges@[k]@.len() == 0,
        {
            edges.push(Vec::new());
        }
        let g = Graph { n, edges };
        assert(g.adj().len() == n);
        assert forall|u: usize, v: usize| #[trigger] linked(g.adj(), u, v) implies linked(g.adj(), v, u) by {
            assert(g.adj()[u as int].len() == 0);
        }
        assert forall|u: usize, v: usize| (u as int) < n && (v as int) < n implies #[trigger] weights_to(
            g.adj()[u as int],
            v,
        ) == weights_to(g.adj()[v as int], u) by {
            assert(weights_to(g.adj()[u as int], v) =~= Seq::<W>::empty());
            assert(weights_to(g.adj()[v as int], u) =~= Seq::<W>::empty());
        }
        g
    }

    /// Adds the undirected edge `{i, j}` with weight `w`.
    pub fn add_edge(&mut self, i: usize, j: usize, w: W)
        requires
            old(self).wf(),
            i < old(self).n,
            j < old(self).n,
        ensures
            final(self).wf(),
            final(self).n == old(self).n,
            final(self).adj() == spec_add_edge(old(self).adj(), i as int, j as int, w),
            forall|u: usize, v: usize|
                #[trigger] linked(final(self).adj(), u, v) <==> (linked(old(self).adj(), u, v) || (u
                    == i && v == j) || (u == j && v == i)),
            undirected(old(self).adj()) ==> undirected(final(self).adj()),
            mirrored(old(self).adj()) ==> mirrored(final(self).adj()),
            total_degree(final(self).adj()) == total_degree(old(self).adj()) + 2,
    {
        self.edges[i].push((j, w));
        self.edges[j].push((i, w));
        proof {
            let a = spec_add_edge(old(self).adj(), i as int, j as int, w);
            assert(self.adj() =~= a);
            lemma_add_edge_links(old(self).adj(), i, j, w);
            lemma_add_edge_degree(old(self).adj(), i as int, j as int, w);
            if mirrored(old(self).adj()) {
                lemma_add_edge_mirrored(old(self).adj(), i, j, w);
            }
        }
    }

    /// A copy of the graph, list by list.
    pub fn duplicate(&self) -> (g: Self)
        ensures
            g.n == self.n,
            g.edges@.len() == self.edges@.len(),
            g.adj() == self.adj(),
    {
        let mut edges: Vec<Vec<(usize, W)>> = Vec::new();
        for i in 0..self.edges.len()
            invariant
                edges@.len() == i,
                forall|a: int| 0 <= a < i ==> #[trigger] edges@[a]@ == self.adj()[a],
        {
            let row = &self.edges[i];
            let mut copy: Vec<(usize, W)> = Vec::new();
            for k in 0..row.len()
                invariant
                    copy@ == row@.take(k as int),
            {
                copy.push(row[k]);
                assert(copy@ =~= row@.take(k + 1));
            }
            assert(row@.take(row@.len() as int) =~= row@);
            edges.push(copy);
        }
        let g = Graph { n: self.n, edges };
        assert(g.adj() =~= self.adj());
        g
    }

    /// Whether there is one list per vertex and every neighbour is a vertex.
    pub fn is_well_formed(&self) -> (r: bool)
        ensures
            r == self.wf(),
    {
        if self.edges.len() != self.n {
            return false;
        }
        for i in 0..self.n
            invariant
                self.edges@.len() == self.n,
                forall|a: int, k: int|
                    0 <= a < i && 0 <= k < self.adj()[a].len() ==> #[trigger] self.adj()[a][k].0 < self.n,
        {
            let row = &self.edges[i];
            assert(row@ == self.adj()[i as int]);
            for k in 0..row.len()
                invariant
                    self.edges@.len() == self.n,
                    i < self.n,
                    row@ == self.adj()[i as int],
                    forall|a: int, t: int|
                        0 <= a < i && 0 <= t < self.adj()[a].len() ==> #[trigger] self.adj()[a][t].0 < self.n,
                    forall|t: int| 0 <= t < k ==> #[trigger] self.adj()[i as int][t].0 < self.n,
            {
                if row[k].0 >= self.n {
                    assert(self.adj()[i as int][k as int].0 >= self.n);
                    return false;
                }
            }
        }
        true
    }

    /// Whether `j` occurs among the neighbours of `i`.
    pub fn has_edge(&self, i: usize, j: usize) -> (r: bool)
        requires
            i < self.edges@.len(),
        ensures
            r == has_neighbor(self.adj()[i as int], j),
    {
        let row = &self.edges[i];
        for k in 0..row.len()
            invariant
                row@ == self.adj()[i as int],
                forall|m: int| 0 <= m < k ==> row@[m].0 != j,
        {
            if row[k].0 == j {
                return true;
            }
        }
        false
    }

    /// The weight of the first entry for `j` in the list of `i`, if there is one.
    pub fn edge_weight(&self, i: usize, j: usize) -> (r: Option<W>)
        requires
            i < self.edges@.len(),
        ensures
            r == first_weight(self.adj()[i as int], j),
            r is Some <==> has_neighbor(self.adj()[i as int], j),
            self.wf() && mirrored(self.adj()) && j < self.n ==> r == first_weight(
                self.adj()[j as int],
                i,
            ),
    {
        proof {
            lemma_weights_to_nonempty(self.adj()[i as int], j);
        }
        let row = &self.edges[i];
        let ghost r = row@;
        for k in 0..row.len()
            invariant
                r == row@,
                i < self.edges@.len(),
                r == self.adj()[i as int],
                weights_to(r.take(k as int), j).len() == 0,
        {
            proof {
                assert(r.take(k + 1).drop_last() =~= r.take(k as int));
            }
            if row[k].0 == j {
                let w = row[k].1;
                proof {
                    assert(r.take(k + 1).last() == (j, w));
                    assert(weights_to(r.take(k + 1), j) =~= seq![w]);
                    lemma_weights_to_concat(r.take(k + 1), r.skip(k + 1), j);
                    assert(r.take(k + 1) + r.skip(k + 1) =~= r);
                }
                return Some(w);
            }
        }
        proof {
            assert(r.take(r.len() as int) =~= r);
        }
        None
    }

    /// The number of undirected edges: half the total length of the adjacency lists.
    pub fn num_edges(&self) -> (r: usize)
        requires
            total_degree(self.adj()) <= usize::MAX,
        ensures
            r == total_degree(self.adj()) / 2,
    {
        let mut sum: usize = 0;
        for i in 0..self.edges.len()
            invariant
                self.adj().len() == self.edges@.len(),
                total_degree(self.adj()) <= usize::MAX,
                sum == total_degree(self.adj().take(i as int)),
        {
            proof {
                let a = self.adj();
                assert(a.take(i + 1).drop_last() =~= a.take(i as int));
                lemma_total_degree_prefix(a, i + 1);
            }
            sum = sum + self.edges[i].len();
        }
        proof {
            assert(self.adj().take(self.edges@.len() as int) =~= self.adj());
        }
        sum / 2
    }
}

impl<W: Copy> Graph<W> {
    /// The complete graph K_n, every edge with weight `w`.
    pub fn complete(n: usize, w: W) -> (g: Self)
        ensures
            g.wf(),
            undirected(g.adj()),
            mirrored(g.adj()),
            g.n == n,
            forall|v: int| 0 <= v < n ==> #[trigger] g.adj()[v] == complete_row(n as nat, v, w),
            total_degree(g.adj()) == n * (n - 1),
            forall|s: usize, t: usize| s < n && t < n ==> #[trigger] connected(g.adj(), s, t),
    {
        let mut g = Self::new(n);
        for i in 0..n
            invariant
                g.wf(),
                undirected(g.adj()),
                mirrored(g.adj()),
                g.n == n,
                forall|v: int| 0 <= v < i ==> #[trigger] g.adj()[v] == complete_row(n as nat, v, w),
                forall|v: int|
                    i <= v < n ==> #[trigger] g.adj()[v] == Seq::new(
                        i as nat,
                        |k: int| (k as usize, w),
                    ),
        {
            proof {
                assert(g.adj()[i as int] =~= Seq::new(
                    i as nat,
                    |k: int| ((if k < i { k } else { k + 1 }) as usize, w),
                ));
            }
            for j in (i + 1)..n
                invariant
                    g.wf(),
                    undirected(g.adj()),
                    mirrored(g.adj()),
                    g.n == n,
                    i < n,
                    forall|v: int| 0 <= v < i ==> #[trigger] g.adj()[v] == complete_row(n as nat, v, w),
                    g.adj()[i as int] == Seq::new(
                        (j - 1) as nat,
                        |k: int| ((if k < i { k } else { k + 1 }) as usize, w),
                    ),
                    forall|v: int|
                        i < v < j ==> #[trigger] g.adj()[v] == Seq::new(
                            (i + 1) as nat,
                            |k: int| (k as usize, w),
                        ),
                    forall|v: int|
                        j <= v < n ==> #[trigger] g.adj()[v] == Seq::new(
                            i as nat,
                            |k: int| (k as usize, w),
                        ),
            {
                let ghost before = g.adj();
                g.add_edge(i, j, w);
                proof {
                    assert(g.adj()[i as int] =~= Seq::new(
                        j as nat,
                        |k: int| ((if k < i { k } else { k + 1 }) as usize, w),
                    ));
                    assert(g.adj()[j as int] =~= Seq::new((i + 1) as nat, |k: int| (k as usize, w)));
                    assert forall|v: int| 0 <= v < n && v != i && v != j implies #[trigger] g.adj()[v]
                        == before[v] by {}
                }
            }
            proof {
                assert(g.adj()[i as int] =~= complete_row(n as nat, i as int, w));
            }
        }
        proof {
            assert forall|v: int| 0 < v < n implies #[trigger] linked(g.adj(), 0usize, v as usize) by {
                assert(g.adj()[0][v - 1].0 == v as usize);
            }
            lemma_hub_connected(g.adj(), n as int);
        }
        proof {
            let len = |i: int| n - 1;
            let total = |k: int| k * (n - 1);
            assert forall|i: int| 0 <= i < g.adj().len() implies #[trigger] g.adj()[i].len() == len(i) && total(i + 1)
                == total(i) + len(i) by {
                assert(g.adj()[i] == complete_row(n as nat, i, w));
                assert((i + 1) * (n - 1) == i * (n - 1) + (n - 1)) by (nonlinear_arith);
            }
            lemma_total_degree_rows(g.adj(), len, total);
        }
        g
    }

    /// The path P_n: `0 - 1 - ... - (n-1)`, every edge with weight `w`.
    pub fn path(n: usize, w: W) -> (g: Self)
        ensures
            g.wf(),
            undirected(g.adj()),
            mirrored(g.adj()),
            g.n == n,
            forall|v: int| 0 <= v < n ==> #[trigger] g.adj()[v] == path_row(n as nat, v, w),
            n > 0 ==> total_degree(g.adj()) == 2 * (n - 1),
            forall|s: usize, t: usize| s < n && t < n ==> #[trigger] connected(g.adj(), s, t),
    {
        let mut g = Self::new(n);
        let m: usize = if n > 0 { n - 1 } else { 0 };
        for i in 0..m
            invariant
                g.wf(),
                undirected(g.adj()),
                mirrored(g.adj()),
                g.n == n,
                m + 1 == n || (m == 0 && n == 0),
                forall|v: int| 0 <= v < i ==> #[trigger] g.adj()[v] == path_row(n as nat, v, w),
                i < n ==> g.adj()[i as int] == (if i > 0 { seq![((i - 1) as usize, w)] } else { Seq::empty() }),
                forall|v: int| i < v < n ==> #[trigger] g.adj()[v].len() == 0,
        {
            let ghost before = g.adj();
            g.add_edge(i, i + 1, w);
            proof {
                assert(g.adj()[i as int] =~= path_row(n as nat, i as int, w));
                assert(g.adj()[i + 1] =~= seq![(i as usize, w)]);
                assert forall|v: int| 0 <= v < n && v != i && v != i + 1 implies #[trigger] g.adj()[v]
                    == before[v] by {}
            }
        }
        proof {
            if n > 0 {
                assert(g.adj()[m as int] =~= path_row(n as nat, m as int, w));
            }
        }
        proof {
            assert forall|v: int| 0 < v < n implies #[trigger] linked(g.adj(), (v - 1) as usize, v as usize) by {
                let row = g.adj()[v - 1];
                assert(row[row.len() - 1].0 == v as usize);
            }
            lemma_chain_connected(g.adj(), n as int);
        }
        proof {
            if n > 0 {
                let len = |i: int| (if i > 0 { 1int } else { 0int }) + (if i + 1 < n { 1int } else { 0int });
                let total = |k: int| (if k > 0 { k - 1 } else { 0 }) + (if k < n { k } else { n - 1 });
                assert forall|i: int| 0 <= i < g.adj().len() implies #[trigger] g.adj()[i].len() == len(i) && total(i + 1)
                    == total(i) + len(i) by {
                    assert(g.adj()[i] == path_row(n as nat, i, w));
                }
                lemma_total_degree_rows(g.adj(), len, total);
            }
        }
        g
    }

    /// The cycle C_n: the path P_n closed by the edge `{0, n-1}` when `n > 2`.
    pub fn cycle(n: usize, w: W) -> (g: Self)
        ensures
            g.wf(),
            undirected(g.adj()),
            mirrored(g.adj()),
            g.n == n,
            forall|v: int| 0 <= v < n ==> #[trigger] g.adj()[v] == cycle_row(n as nat, v, w),
            n > 2 ==> total_degree(g.adj()) == 2 * n,
            forall|s: usize, t: usize| s < n && t < n ==> #[trigger] connected(g.adj(), s, t),
    {
        let mut g = Self::path(n, w);
        if n > 2 {
            let ghost before = g.adj();
            g.add_edge(0, n - 1, w);
            proof {
                assert forall|v: int| 0 <= v < n implies #[trigger] g.adj()[v] == cycle_row(
                    n as nat,
                    v,
                    w,
                ) by {
                    if v != 0 && v != n - 1 {
                        assert(g.adj()[v] == before[v]);
                    }
                }
            }
        }
        proof {
            assert forall|v: int| 0 < v < n implies #[trigger] linked(g.adj(), (v - 1) as usize, v as usize) by {
                let row = g.adj()[v - 1];
                let pr = path_row(n as nat, v - 1, w);
                assert(pr[pr.len() - 1].0 == v as usize);
                assert(row[pr.len() - 1] == pr[pr.len() - 1]);
            }
            lemma_chain_connected(g.adj(), n as int);
        }
        proof {
            if n > 2 {
                let len = |i: int| 2int;
                let total = |k: int| 2 * k;
                assert forall|i: int| 0 <= i < g.adj().len() implies #[trigger] g.adj()[i].len() == len(i) && total(i + 1)
                    == total(i) + len(i) by {
                    assert(g.adj()[i] == cycle_row(n as nat, i, w));
                }
                lemma_total_degree_rows(g.adj(), len, total);
            }
        }
        g
    }

    /// The star S_n: centre `0` joined to each of `1..n`, every edge with weight `w`.
    pub fn star(n: usize, w: W) -> (g: Self)
        ensures
            g.wf(),
            undirected(g.adj()),
            mirrored(g.adj()),
            g.n == n,
            forall|v: int| 0 <= v < n ==> #[trigger] g.adj()[v] == star_row(n as nat, v, w),
            n > 0 ==> total_degree(g.adj()) == 2 * (n - 1),
            forall|s: usize, t: usize| s < n && t < n ==> #[trigger] connected(g.adj(), s, t),
    {
        let mut g = Self::new(n);
        if n == 0 {
            return g;
        }
        for i in 1..n
            invariant
                g.wf(),
                undirected(g.adj()),
                mirrored(g.adj()),
                g.n == n,
                n > 0,
                g.adj()[0] == Seq::new((i - 1) as nat, |k: int| ((k + 1) as usize, w)),
                forall|v: int| 0 < v < i ==> #[trigger] g.adj()[v] == seq![(0usize, w)],
                forall|v: int| i <= v < n ==> #[trigger] g.adj()[v].len() == 0,
        {
            let ghost before = g.adj();
            g.add_edge(0, i, w);
            proof {
                assert(g.adj()[0] =~= Seq::new(i as nat, |k: int| ((k + 1) as usize, w)));
                assert(g.adj()[i as int] =~= seq![(0usize, w)]);
                assert forall|v: int| 0 < v < n && v != i implies #[trigger] g.adj()[v]
                    == before[v] by {}
            }
        }
        proof {
            if n > 0 {
                assert(g.adj()[0] =~= star_row(n as nat, 0, w));
            }
        }
        proof {
            assert forall|v: int| 0 < v < n implies #[trigger] linked(g.adj(), 0usize, v as usize) by {
                assert(g.adj()[0][v - 1].0 == v as usize);
            }
            lemma_hub_connected(g.adj(), n as int);
        }
        proof {
            if n > 0 {
                let len = |i: int| if i == 0 { n - 1 } else { 1int };
                let total = |k: int| if k > 0 { (n - 1) + (k - 1) } else { 0 };
                assert forall|i: int| 0 <= i < g.adj().len() implies #[trigger] g.adj()[i].len() == len(i) && total(i + 1)
                    == total(i) + len(i) by {
                    assert(g.adj()[i] == star_row(n as nat, i, w));
                }
                lemma_total_degree_rows(g.adj(), len, total);
            }
        }
        g
    }
}

/// The last occurrence of a present element is a position holding it.
proof fn lemma_last_index(vs: Seq<usize>, v: usize)
    requires
        vs.contains(v),
    ensures
        0 <= last_index(vs, v) < vs.len(),
        vs[last_index(vs, v)] == v,
    decreases vs.len(),
{
    if vs.last() != v {
        let k = choose|k: int| 0 <= k < vs.len() && #[trigger] vs[k] == v;
        assert(vs.drop_last()[k] == v);
        lemma_last_index(vs.drop_last(), v);
    }
}

impl<W: Copy> Graph<W> {
    /// The subgraph induced by `vertices`, with `vertices[a]` renumbered to `a`.
    pub fn induced_subgraph(&self, vertices: &[usize]) -> (g: Self)
        requires
            self.wf(),
            forall|k: int| 0 <= k < vertices@.len() ==> #[trigger] vertices@[k] < self.n,
        ensures
            g.wf(),
            undirected(g.adj()),
            mirrored(g.adj()),
            g.n == vertices@.len(),
            forall|a: int|
                0 <= a < vertices@.len() ==> #[trigger] g.adj()[a] == induced_row(
                    self.adj(),
                    vertices@,
                    a,
                ),
            undirected(self.adj()) && vertices@.no_duplicates() ==> forall|a: usize, b: usize|
                a < vertices@.len() && b < vertices@.len() ==> (#[trigger] linked(g.adj(), a, b) <==> (a
                    != b && linked(self.adj(), vertices@[a as int], vertices@[b as int]))),
            vertices@.no_duplicates() ==> forall|a: int, b: int|
                0 <= a < vertices@.len() && 0 <= b < vertices@.len() ==> #[trigger] weights_to(
                    g.adj()[a],
                    b as usize,
                ) == induced_weights(self.adj(), vertices@, a, b),
            mirrored(self.adj()) && vertices@.no_duplicates() ==> forall|a: int, b: int|
                0 <= a < vertices@.len() && 0 <= b < vertices@.len() && a != b ==> #[trigger] first_weight(
                    g.adj()[a],
                    b as usize,
                ) == first_weight(self.adj()[vertices@[a] as int], vertices@[b]),
            vertices@.no_duplicates() ==> total_degree(g.adj()) == 2 * induced_edge_count(
                self.adj(),
                vertices@,
                vertices@.len() as int,
            ),
    {
        let nv = vertices.len();
        let ghost vs = vertices@;
        let ghost adj = self.adj();
        let mut index_map: Vec<usize> = Vec::new();
        let mut in_set: Vec<bool> = Vec::new();
        for v in 0..self.n
            invariant
                index_map@.len() == v,
                in_set@.len() == v,
                forall|u: int| 0 <= u < v ==> index_map@[u] == 0 && !in_set@[u],
        {
            index_map.push(0);
            in_set.push(false);
        }
        for p in 0..nv
            invariant
                nv == vs.len(),
                vertices@ == vs,
                index_map@.len() == self.n,
                in_set@.len() == self.n,
                forall|k: int| 0 <= k < vs.len() ==> #[trigger] vs[k] < self.n,
                forall|u: int|
                    0 <= u < self.n ==> #[trigger] in_set@[u] == vs.take(p as int).contains(
                        u as usize,
                    ),
                forall|u: int|
                    0 <= u < self.n && #[trigger] in_set@[u] ==> index_map@[u] == last_index(
                        vs.take(p as int),
                        u as usize,
                    ),
        {
            let old_idx = vertices[p];
            proof {
                assert(vs.take(p + 1).drop_last() =~= vs.take(p as int));
                assert(vs.take(p + 1).last() == old_idx);
                assert forall|u: int| 0 <= u < self.n && u != old_idx implies #[trigger] vs.take(
                    p + 1,
                ).contains(u as usize) == vs.take(p as int).contains(u as usize) by {
                    if vs.take(p + 1).contains(u as usize) {
                        let k = choose|k: int| 0 <= k < p + 1 && #[trigger] vs.take(p + 1)[k] == u as usize;
                        assert(vs.take(p as int)[k] == u as usize);
                    }
                    if vs.take(p as int).contains(u as usize) {
                        let k = choose|k: int| 0 <= k < p && #[trigger] vs.take(p as int)[k] == u as usize;
                        assert(vs.take(p + 1)[k] == u as usize);
                    }
                }
                assert(vs.take(p + 1)[p as int] == old_idx);
            }
            index_map.set(old_idx, p);
            in_set.set(old_idx, true);
        }
        proof {
            assert(vs.take(nv as int) =~= vs);
        }
        let mut g = Self::new(nv);
        proof {
            assert forall|a: int| 0 <= a < nv implies #[trigger] g.adj()[a] == in_part(adj, vs, a, 0)
                by {
                assert(g.adj()[a] =~= Seq::<(usize, W)>::empty());
            }
        }
        for i in 0..nv
            invariant
                nv == vs.len(),
                vertices@ == vs,
                adj == self.adj(),
                self.wf(),
                index_map@.len() == self.n,
                in_set@.len() == self.n,
                forall|k: int| 0 <= k < vs.len() ==> #[trigger] vs[k] < self.n,
                forall|u: int| 0 <= u < self.n ==> #[trigger] in_set@[u] == vs.contains(u as usize),
                forall|u: int|
                    0 <= u < self.n && #[trigger] in_set@[u] ==> index_map@[u] == last_index(
                        vs,
                        u as usize,
                    ),
                g.wf(),
                undirected(g.adj()),
                mirrored(g.adj()),
                g.n == nv,
                forall|a: int| 0 <= a < i ==> #[trigger] g.adj()[a] == induced_row(adj, vs, a),
                forall|a: int| i <= a < nv ==> #[trigger] g.adj()[a] == in_part(adj, vs, a, i as int),
        {
            let old_i = vertices[i];
            let row = &self.edges[old_i];
            let ghost r = row@;
            proof {
                assert(g.adj()[i as int] =~= in_part(adj, vs, i as int, i as int) + row_out(
                    r.take(0),
                    vs,
                    i as int,
                ));
                assert forall|a: int| i < a < nv implies #[trigger] g.adj()[a] == in_part(
                    adj,
                    vs,
                    a,
                    i as int,
                ) + row_in(r.take(0), vs, a, i as int) by {
                    assert(in_part(adj, vs, a, i as int) + row_in(r.take(0), vs, a, i as int)
                        =~= in_part(adj, vs, a, i as int));
                }
            }
            for k in 0..row.len()
                invariant
                    nv == vs.len(),
                    i < nv,
                    old_i == vs[i as int],
                    old_i < self.n,
                    r == row@,
                    r == adj[old_i as int],
                    adj == self.adj(),
                    self.wf(),
                    index_map@.len() == self.n,
                    in_set@.len() == self.n,
                    forall|u: int| 0 <= u < self.n ==> #[trigger] in_set@[u] == vs.contains(u as usize),
                    forall|u: int|
                        0 <= u < self.n && #[trigger] in_set@[u] ==> index_map@[u] == last_index(
                            vs,
                            u as usize,
                        ),
                    g.wf(),
                    undirected(g.adj()),
                    mirrored(g.adj()),
                    g.n == nv,
                    forall|a: int| 0 <= a < i ==> #[trigger] g.adj()[a] == induced_row(adj, vs, a),
                    g.adj()[i as int] == in_part(adj, vs, i as int, i as int) + row_out(
                        r.take(k as int),
                        vs,
                        i as int,
                    ),
                    forall|a: int|
                        i < a < nv ==> #[trigger] g.adj()[a] == in_part(adj, vs, a, i as int)
                            + row_in(r.take(k as int), vs, a, i as int),
            {
                let (old_j, w) = row[k];
                assert(self.adj()[old_i as int][k as int] == (old_j, w));
                assert(old_j < self.n);
                let ghost before = g.adj();
                proof {
                    assert(r.take(k + 1).drop_last() =~= r.take(k as int));
                    assert(r.take(k + 1).last() == (old_j, w));
                }
                if in_set[old_j] && i < index_map[old_j] {
                    let t = index_map[old_j];
                    proof {
                        lemma_last_index(vs, old_j);
                    }
                    g.add_edge(i, t, w);
                    proof {
                        assert(g.adj()[i as int] =~= in_part(adj, vs, i as int, i as int) + row_out(
                            r.take(k + 1),
                            vs,
                            i as int,
                        ));
                        assert forall|a: int| i < a < nv implies #[trigger] g.adj()[a] == in_part(
                            adj,
                            vs,
                            a,
                            i as int,
                        ) + row_in(r.take(k + 1), vs, a, i as int) by {
                            if a == t {
                                assert(g.adj()[a] =~= in_part(adj, vs, a, i as int) + row_in(
                                    r.take(k + 1),
                                    vs,
                                    a,
                                    i as int,
                                ));
                            } else {
                                assert(g.adj()[a] == before[a]);
                                assert(in_part(adj, vs, a, i as int) + row_in(
                                    r.take(k + 1),
                                    vs,
                                    a,
                                    i as int,
                                ) =~= in_part(adj, vs, a, i as int) + row_in(
                                    r.take(k as int),
                                    vs,
                                    a,
                                    i as int,
                                ));
                            }
                        }
                        assert forall|a: int| 0 <= a < i implies #[trigger] g.adj()[a]
                            == induced_row(adj, vs, a) by {
                            assert(g.adj()[a] == before[a]);
                        }
                    }
                } else {
                    proof {
                        if vs.contains(old_j) {
                            lemma_last_index(vs, old_j);
                        }
                        assert(g.adj()[i as int] =~= in_part(adj, vs, i as int, i as int) + row_out(
                            r.take(k + 1),
                            vs,
                            i as int,
                        ));
                        assert forall|a: int| i < a < nv implies #[trigger] g.adj()[a] == in_part(
                            adj,
                            vs,
                            a,
                            i as int,
                        ) + row_in(r.take(k + 1), vs, a, i as int) by {
                            assert(in_part(adj, vs, a, i as int) + row_in(
                                r.take(k + 1),
                                vs,
                                a,
                                i as int,
                            ) =~= in_part(adj, vs, a, i as int) + row_in(
                                r.take(k as int),
                                vs,
                                a,
                                i as int,
                            ));
                        }
                    }
                }
            }
            proof {
                assert(r.take(r.len() as int) =~= r);
                assert(g.adj()[i as int] == induced_row(adj, vs, i as int));
                assert forall|a: int| i + 1 <= a < nv implies #[trigger] g.adj()[a] == in_part(
                    adj,
                    vs,
                    a,
                    i + 1,
                ) by {
                    assert(in_part(adj, vs, a, i + 1) == in_part(adj, vs, a, i as int) + row_in(
                        adj[vs[i as int] as int],
                        vs,
                        a,
                        i as int,
                    ));
                }
            }
        }
        proof {
            if undirected(adj) && vs.no_duplicates() {
                assert forall|a: usize, b: usize| a < nv && b < nv implies (#[trigger] linked(g.adj(), a, b)
                    <==> (a != b && linked(adj, vs[a as int], vs[b as int]))) by {
                    lemma_induced_links(adj, vs, a as int, b as int);
                }
            }
            if vs.no_duplicates() {
                assert forall|a: int, b: int| 0 <= a < nv && 0 <= b < nv implies #[trigger] weights_to(
                    g.adj()[a],
                    b as usize,
                ) == induced_weights(adj, vs, a, b) by {
                    lemma_induced_weights(adj, vs, a, b);
                }
                if mirrored(adj) {
                    assert forall|a: int, b: int| 0 <= a < nv && 0 <= b < nv && a != b implies #[trigger] first_weight(
                        g.adj()[a],
                        b as usize,
                    ) == first_weight(adj[vs[a] as int], vs[b]) by {
                        assert(weights_to(g.adj()[a], b as usize) == induced_weights(adj, vs, a, b));
                        assert(weights_to(adj[(vs[a] as usize) as int], vs[b]) == weights_to(
                            adj[(vs[b] as usize) as int],
                            vs[a],
                        ));
                    }
                }
                assert forall|i: int| 0 <= i < nv implies #[trigger] weights_to(g.adj()[i], i as usize).len() == 0 by {
                    assert(weights_to(g.adj()[i], i as usize) == induced_weights(adj, vs, i, i));
                }
                assert forall|a: int, b: int| 0 <= a < b < nv implies #[trigger] weights_to(g.adj()[a], b as usize)
                    == weights_to(adj[vs[a] as int], vs[b]) by {
                    assert(weights_to(g.adj()[a], b as usize) == induced_weights(adj, vs, a, b));
                }
                lemma_induced_degree(g.adj(), adj, vs);
            }
        }
        g
    }
}

impl<W: Copy> Graph<W> {
    /// Each undirected edge once, as `(i, j, w)` with `i < j`.
    pub fn upper_edges(&self) -> (r: Vec<(usize, usize, W)>)
        requires
            self.edges@.len() == self.n,
        ensures
            r@ == upper_edges_of(self.adj(), self.n as int),
    {
        let mut out: Vec<(usize, usize, W)> = Vec::new();
        for i in 0..self.n
            invariant
                self.edges@.len() == self.n,
                out@ == upper_edges_of(self.adj(), i as int),
        {
            let row = &self.edges[i];
            let ghost r = row@;
            let ghost base = out@;
            proof {
                assert(base + row_upper(r.take(0), i as int) =~= base);
            }
            for k in 0..row.len()
                invariant
                    r == row@,
                    out@ == base + row_upper(r.take(k as int), i as int),
            {
                let (j, w) = row[k];
                proof {
                    assert(r.take(k + 1).drop_last() =~= r.take(k as int));
                    assert(r.take(k + 1).last() == (j, w));
                }
                if j > i {
                    out.push((i, j, w));
                }
                assert(out@ =~= base + row_upper(r.take(k + 1), i as int));
            }
            proof {
                assert(r.take(r.len() as int) =~= r);
                assert(r == self.adj()[i as int]);
            }
        }
        out
    }
}

impl<W: Copy> Graph<W> {
    /// The `n x n` adjacency matrix: entry `(i, j)` is the weight of the last
    /// entry for `j` in the list of `i`, and `zero` where there is none.
    pub fn adjacency_matrix(&self, zero: W) -> (m: DenseMatrix<W>)
        requires
            self.wf(),
        ensures
            m.wf(),
            m.rows == self.n,
            m.cols == self.n,
            forall|i: int, j: int|
                0 <= i < self.n && 0 <= j < self.n ==> #[trigger] m.entries()[i][j] == last_weight(
                    self.adj()[i],
                    j,
                    zero,
                ),
            mirrored(self.adj()) ==> forall|i: int, j: int|
                0 <= i < self.n && 0 <= j < self.n ==> #[trigger] m.entries()[i][j]
                    == m.entries()[j][i],
    {
        let n = self.n;
        let mut m = DenseMatrix::zeros(n, n, zero);
        for i in 0..n
            invariant
                self.wf(),
                n == self.n,
                m.wf(),
                m.rows == n,
                m.cols == n,
                forall|a: int, b: int|
                    0 <= a < i && 0 <= b < n ==> #[trigger] m.entries()[a][b] == last_weight(
                        self.adj()[a],
                        b,
                        zero,
                    ),
                forall|a: int, b: int| i <= a < n && 0 <= b < n ==> #[trigger] m.entries()[a][b] == zero,
        {
            let row = &self.edges[i];
            let ghost r = row@;
            for k in 0..row.len()
                invariant
                    self.wf(),
                    n == self.n,
                    i < n,
                    r == row@,
                    r == self.adj()[i as int],
                    m.wf(),
                    m.rows == n,
                    m.cols == n,
                    forall|a: int, b: int|
                        0 <= a < i && 0 <= b < n ==> #[trigger] m.entries()[a][b] == last_weight(
                            self.adj()[a],
                            b,
                            zero,
                        ),
                    forall|b: int| 0 <= b < n ==> #[trigger] m.entries()[i as int][b] == last_weight(
                        r.take(k as int),
                        b,
                        zero,
                    ),
                    forall|a: int, b: int|
                        i < a < n && 0 <= b < n ==> #[trigger] m.entries()[a][b] == zero,
            {
                let (j, w) = row[k];
                assert(self.adj()[i as int][k as int] == (j, w));
                proof {
                    assert(r.take(k + 1).drop_last() =~= r.take(k as int));
                    assert(r.take(k + 1).last() == (j, w));
                }
                m.set(i, j, w);
            }
            proof {
                assert(r.take(r.len() as int) =~= r);
            }
        }
        proof {
            if mirrored(self.adj()) {
                assert forall|i: int, j: int| 0 <= i < n && 0 <= j < n implies #[trigger] m.entries()[i][j]
                    == m.entries()[j][i] by {
                    assert(weights_to(self.adj()[i], j as usize) == weights_to(self.adj()[j], i as usize));
                }
            }
        }
        m
    }
}

/// Every list of `b` starts with the corresponding list of `a`.
pub open spec fn extends<W>(a: Adjacency<W>, b: Adjacency<W>) -> bool {
    &&& a.len() == b.len()
    &&& forall|u: int| 0 <= u < a.len() ==> #[trigger] a[u].is_prefix_of(b[u])
}

/// Adding an edge extends the adjacency lists.
pub proof fn lemma_add_edge_extends<W>(a: Adjacency<W>, i: usize, j: usize, w: W)
    requires
        i < a.len(),
        j < a.len(),
    ensures
        extends(a, spec_add_edge(a, i as int, j as int, w)),
        linked(spec_add_edge(a, i as int, j as int, w), i, j),
{
    let b = spec_add_edge(a, i as int, j as int, w);
    let a1 = a.update(i as int, a[i as int].push((j, w)));
    assert forall|u: int| 0 <= u < a.len() implies #[trigger] a[u].is_prefix_of(b[u]) by {
        if u == i || u == j {
            assert forall|k: int| 0 <= k < a[u].len() implies a[u][k] == b[u][k] by {
                assert(a1[u][k] == a[u][k]);
            }
        }
    }
    let m = a[i as int].len() as int;
    assert(a1[i as int][m] == (j, w));
    assert(b[i as int][m] == a1[i as int][m]);
    assert(b[i as int][m].0 == j);
}

/// Replacing one list changes the total degree by the difference of lengths.
pub proof fn lemma_total_degree_update<W>(a: Adjacency<W>, i: int, row: Seq<(usize, W)>)
    requires
        0 <= i < a.len(),
    ensures
        total_degree(a.update(i, row)) == total_degree(a) - a[i].len() + row.len(),
    decreases a.len(),
{
    let b = a.update(i, row);
    if i < a.len() - 1 {
        assert(b.drop_last() =~= a.drop_last().update(i, row));
        lemma_total_degree_update(a.drop_last(), i, row);
    } else {
        assert(b.drop_last() =~= a.drop_last());
    }
}

/// Adding an edge adds two list entries.
pub proof fn lemma_add_edge_degree<W>(a: Adjacency<W>, i: int, j: int, w: W)
    requires
        0 <= i < a.len(),
        0 <= j < a.len(),
    ensures
        total_degree(spec_add_edge(a, i, j, w)) == total_degree(a) + 2,
{
    let a1 = a.update(i, a[i].push((j as usize, w)));
    lemma_total_degree_update(a, i, a[i].push((j as usize, w)));
    lemma_total_degree_update(a1, j, a1[j].push((i as usize, w)));
}

/// `row.push(x)` names `v` exactly when `row` does or `x` leads to `v`.
proof fn lemma_has_neighbor_push<W>(row: Seq<(usize, W)>, x: (usize, W), v: usize)
    ensures
        has_neighbor(row.push(x), v) <==> (has_neighbor(row, v) || x.0 == v),
{
    let r = row.push(x);
    if has_neighbor(row, v) {
        let k = choose|k: int| 0 <= k < row.len() && #[trigger] row[k].0 == v;
        assert(r[k] == row[k]);
    }
    if x.0 == v {
        assert(r[row.len() as int] == x);
    }
    if has_neighbor(r, v) {
        let k = choose|k: int| 0 <= k < r.len() && #[trigger] r[k].0 == v;
        if k < row.len() {
            assert(row[k] == r[k]);
        }
    }
}

/// Adding the edge `{i, j}` links exactly the pairs linked before, plus `i` to
/// `j` and `j` to `i`; so it keeps an undirected graph undirected.
pub proof fn lemma_add_edge_links<W>(a: Adjacency<W>, i: usize, j: usize, w: W)
    requires
        i < a.len(),
        j < a.len(),
    ensures
        forall|u: usize, v: usize|
            #[trigger] linked(spec_add_edge(a, i as int, j as int, w), u, v) <==> (linked(a, u, v)
                || (u == i && v == j) || (u == j && v == i)),
        undirected(a) ==> undirected(spec_add_edge(a, i as int, j as int, w)),
{
    let a1 = a.update(i as int, a[i as int].push((j, w)));
    let b = spec_add_edge(a, i as int, j as int, w);
    assert forall|u: usize, v: usize|
        #[trigger] linked(b, u, v) <==> (linked(a, u, v) || (u == i && v == j) || (u == j && v
            == i)) by {
        if (u as int) < a.len() {
            lemma_has_neighbor_push(a[u as int], (j, w), v);
            lemma_has_neighbor_push(a1[u as int], (i, w), v);
        }
    }
}

proof fn lemma_row_upper<W>(row: Seq<(usize, W)>, i: int)
    requires
        0 <= i <= usize::MAX,
    ensures
        forall|k: int|
            0 <= k < row_upper(row, i).len() ==> (#[trigger] row_upper(row, i)[k]).0 == i
                && row_upper(row, i)[k].1 > i && has_neighbor(row, row_upper(row, i)[k].1),
        forall|v: usize|
            #[trigger] has_neighbor(row, v) && v > i ==> exists|k: int|
                0 <= k < row_upper(row, i).len() && (#[trigger] row_upper(row, i)[k]).1 == v,
    decreases row.len(),
{
    if row.len() > 0 {
        let prev = row.drop_last();
        lemma_row_upper(prev, i);
        let ru = row_upper(row, i);
        let rp = row_upper(prev, i);
        let (j, w) = row.last();
        assert(row == prev.push(row.last()));
        assert forall|v: usize| has_neighbor(prev, v) implies has_neighbor(row, v) by {
            lemma_has_neighbor_push(prev, row.last(), v);
        }
        assert forall|k: int| 0 <= k < rp.len() implies ru[k] == rp[k] by {}
        assert forall|k: int|
            0 <= k < ru.len() implies (#[trigger] ru[k]).0 == i && ru[k].1 > i && has_neighbor(
                row,
                ru[k].1,
            ) by {
            if k >= rp.len() {
                assert(ru[k] == (i as usize, j, w));
                assert(row[row.len() - 1].0 == j);
            }
        }
        assert forall|v: usize| #[trigger] has_neighbor(row, v) && v > i implies exists|k: int|
            0 <= k < ru.len() && (#[trigger] ru[k]).1 == v by {
            lemma_has_neighbor_push(prev, row.last(), v);
            if has_neighbor(prev, v) {
                let k = choose|k: int| 0 <= k < rp.len() && (#[trigger] rp[k]).1 == v;
                assert(ru[k] == rp[k]);
            } else {
                assert(ru[rp.len() as int] == (i as usize, j, w));
            }
        }
    }
}

/// The list of upper edges names links of the graph, each once per list
/// entry, and every link `u -> v` with `u < v` among the vertices `0..m`.
pub proof fn lemma_upper_edges<W>(adj: Adjacency<W>, m: int)
    requires
        0 <= m <= adj.len(),
        adj.len() <= usize::MAX,
    ensures
        forall|k: int|
            0 <= k < upper_edges_of(adj, m).len() ==> (#[trigger] upper_edges_of(adj, m)[k]).0
                < upper_edges_of(adj, m)[k].1 && upper_edges_of(adj, m)[k].0 < m && linked(
                adj,
                upper_edges_of(adj, m)[k].0,
                upper_edges_of(adj, m)[k].1,
            ),
        forall|u: usize, v: usize|
            #[trigger] linked(adj, u, v) && u < v && u < m ==> exists|k: int|
                0 <= k < upper_edges_of(adj, m).len() && (#[trigger] upper_edges_of(adj, m)[k]).0
                    == u && upper_edges_of(adj, m)[k].1 == v,
    decreases m,
{
    if m > 0 {
        lemma_upper_edges(adj, m - 1);
        lemma_row_upper(adj[m - 1], m - 1);
        let prev = upper_edges_of(adj, m - 1);
        let ru = row_upper(adj[m - 1], m - 1);
        let cur = upper_edges_of(adj, m);
        assert(cur == prev + ru);
        assert forall|k: int|
            0 <= k < cur.len() implies (#[trigger] cur[k]).0 < cur[k].1 && cur[k].0 < m && linked(
                adj,
                cur[k].0,
                cur[k].1,
            ) by {
            if k < prev.len() {
                assert(cur[k] == prev[k]);
            } else {
                assert(cur[k] == ru[k - prev.len()]);
            }
        }
        assert forall|u: usize, v: usize| #[trigger] linked(adj, u, v) && u < v && u < m implies exists|k: int|
            0 <= k < cur.len() && (#[trigger] cur[k]).0 == u && cur[k].1 == v by {
            if u < m - 1 {
                let k = choose|k: int| 0 <= k < prev.len() && (#[trigger] prev[k]).0 == u && prev[k].1 == v;
                assert(cur[k] == prev[k]);
            } else {
                assert(has_neighbor(adj[m - 1], v));
                let k = choose|k: int| 0 <= k < ru.len() && (#[trigger] ru[k]).1 == v;
                assert(cur[prev.len() + k] == ru[k]);
            }
        }
    }
}

proof fn lemma_has_neighbor_concat<W>(x: Seq<(usize, W)>, y: Seq<(usize, W)>, v: usize)
    ensures
        has_neighbor(x + y, v) <==> (has_neighbor(x, v) || has_neighbor(y, v)),
{
    let z = x + y;
    if has_neighbor(x, v) {
        let k = choose|k: int| 0 <= k < x.len() && #[trigger] x[k].0 == v;
        assert(z[k] == x[k]);
    }
    if has_neighbor(y, v) {
        let k = choose|k: int| 0 <= k < y.len() && #[trigger] y[k].0 == v;
        assert(z[x.len() + k] == y[k]);
    }
    if has_neighbor(z, v) {
        let k = choose|k: int| 0 <= k < z.len() && #[trigger] z[k].0 == v;
        if k < x.len() {
            assert(x[k] == z[k]);
        } else {
            assert(y[k - x.len()] == z[k]);
        }
    }
}

/// In a list without repetitions, the last position of `vs[t]` is `t`.
proof fn lemma_last_index_distinct(vs: Seq<usize>, t: int)
    requires
        vs.no_duplicates(),
        0 <= t < vs.len(),
    ensures
        last_index(vs, vs[t]) == t,
{
    assert(vs.contains(vs[t]));
    lemma_last_index(vs, vs[t]);
}

proof fn lemma_row_out_links<W>(row: Seq<(usize, W)>, vs: Seq<usize>, a: int, t: int)
    requires
        vs.no_duplicates(),
        vs.len() <= usize::MAX,
        0 <= t < vs.len(),
    ensures
        has_neighbor(row_out(row, vs, a), t as usize) <==> (a < t && has_neighbor(row, vs[t])),
    decreases row.len(),
{
    if row.len() > 0 {
        let prev = row.drop_last();
        let (j, w) = row.last();
        lemma_row_out_links(prev, vs, a, t);
        assert(row == prev.push(row.last()));
        lemma_has_neighbor_push(prev, row.last(), vs[t]);
        lemma_last_index_distinct(vs, t);
        if vs.contains(j) {
            lemma_last_index(vs, j);
        }
        if vs.contains(j) && a < last_index(vs, j) {
            let e = (last_index(vs, j) as usize, w);
            assert(row_out(row, vs, a) == row_out(prev, vs, a).push(e));
            lemma_has_neighbor_push(row_out(prev, vs, a), e, t as usize);
        } else {
            assert(row_out(row, vs, a) =~= row_out(prev, vs, a));
        }
    }
}

proof fn lemma_row_out_weights<W>(row: Seq<(usize, W)>, vs: Seq<usize>, a: int, t: int)
    requires
        vs.no_duplicates(),
        vs.len() <= usize::MAX,
        0 <= t < vs.len(),
    ensures
        weights_to(row_out(row, vs, a), t as usize) == if a < t {
            weights_to(row, vs[t])
        } else {
            Seq::<W>::empty()
        },
    decreases row.len(),
{
    if row.len() == 0 {
        assert(weights_to(row_out(row, vs, a), t as usize) =~= Seq::<W>::empty());
        assert(weights_to(row, vs[t]) =~= Seq::<W>::empty());
    } else {
        let prev = row.drop_last();
        let (j, w) = row.last();
        lemma_row_out_weights(prev, vs, a, t);
        assert(row == prev.push(row.last()));
        lemma_weights_to_push(prev, row.last(), vs[t]);
        lemma_last_index_distinct(vs, t);
        if vs.contains(j) {
            lemma_last_index(vs, j);
        }
        if vs.contains(j) && a < last_index(vs, j) {
            let e = (last_index(vs, j) as usize, w);
            assert(row_out(row, vs, a) == row_out(prev, vs, a).push(e));
            lemma_weights_to_push(row_out(prev, vs, a), e, t as usize);
        } else {
            assert(row_out(row, vs, a) =~= row_out(prev, vs, a));
        }
        assert(weights_to(row_out(row, vs, a), t as usize) =~= if a < t {
            weights_to(row, vs[t])
        } else {
            Seq::<W>::empty()
        });
    }
}

proof fn lemma_row_in_weights<W>(row: Seq<(usize, W)>, vs: Seq<usize>, a: int, i: int, t: usize)
    requires
        vs.no_duplicates(),
        0 <= a < vs.len(),
        0 <= i <= usize::MAX,
    ensures
        weights_to(row_in(row, vs, a, i), t) == if t == i && i < a {
            weights_to(row, vs[a])
        } else {
            Seq::<W>::empty()
        },
    decreases row.len(),
{
    if row.len() == 0 {
        assert(weights_to(row_in(row, vs, a, i), t) =~= Seq::<W>::empty());
        assert(weights_to(row, vs[a]) =~= Seq::<W>::empty());
    } else {
        let prev = row.drop_last();
        let (j, w) = row.last();
        lemma_row_in_weights(prev, vs, a, i, t);
        assert(row == prev.push(row.last()));
        lemma_weights_to_push(prev, row.last(), vs[a]);
        lemma_last_index_distinct(vs, a);
        if vs.contains(j) {
            lemma_last_index(vs, j);
        }
        if vs.contains(j) && last_index(vs, j) == a && i < a {
            let e = (i as usize, w);
            assert(row_in(row, vs, a, i) == row_in(prev, vs, a, i).push(e));
            lemma_weights_to_push(row_in(prev, vs, a, i), e, t);
        } else {
            assert(row_in(row, vs, a, i) =~= row_in(prev, vs, a, i));
        }
        assert(weights_to(row_in(row, vs, a, i), t) =~= if t == i && i < a {
            weights_to(row, vs[a])
        } else {
            Seq::<W>::empty()
        });
    }
}

proof fn lemma_in_part_weights<W>(adj: Adjacency<W>, vs: Seq<usize>, a: int, m: int, t: usize)
    requires
        vs.no_duplicates(),
        vs.len() <= usize::MAX,
        0 <= a < vs.len(),
        0 <= m <= vs.len(),
    ensures
        weights_to(in_part(adj, vs, a, m), t) == if t < m && t < a {
            weights_to(adj[vs[t as int] as int], vs[a])
        } else {
            Seq::<W>::empty()
        },
    decreases m,
{
    if m <= 0 {
        assert(weights_to(in_part(adj, vs, a, m), t) =~= Seq::<W>::empty());
    } else {
        lemma_in_part_weights(adj, vs, a, m - 1, t);
        lemma_row_in_weights(adj[vs[m - 1] as int], vs, a, m - 1, t);
        lemma_weights_to_concat(
            in_part(adj, vs, a, m - 1),
            row_in(adj[vs[m - 1] as int], vs, a, m - 1),
            t,
        );
        assert(weights_to(in_part(adj, vs, a, m), t) =~= if t < m && t < a {
            weights_to(adj[vs[t as int] as int], vs[a])
        } else {
            Seq::<W>::empty()
        });
    }
}

/// In the subgraph induced by distinct vertices, the weights that new vertex
/// `a` lists for `b` are those that `vs[a]` lists for `vs[b]` when `a < b`,
/// those that `vs[b]` lists for `vs[a]` when `b < a`, and none when `a == b`.
pub proof fn lemma_induced_weights<W>(adj: Adjacency<W>, vs: Seq<usize>, a: int, b: int)
    requires
        vs.no_duplicates(),
        vs.len() <= usize::MAX,
        0 <= a < vs.len(),
        0 <= b < vs.len(),
    ensures
        weights_to(induced_row(adj, vs, a), b as usize) == induced_weights(adj, vs, a, b),
{
    lemma_in_part_weights(adj, vs, a, a, b as usize);
    lemma_row_out_weights(adj[vs[a] as int], vs, a, b);
    lemma_weights_to_concat(in_part(adj, vs, a, a), row_out(adj[vs[a] as int], vs, a), b as usize);
    assert(weights_to(induced_row(adj, vs, a), b as usize) =~= induced_weights(adj, vs, a, b));
}

proof fn lemma_row_in_links<W>(row: Seq<(usize, W)>, vs: Seq<usize>, a: int, i: int, t: usize)
    requires
        vs.no_duplicates(),
        0 <= a < vs.len(),
        0 <= i <= usize::MAX,
    ensures
        has_neighbor(row_in(row, vs, a, i), t) <==> (t == i && i < a && has_neighbor(row, vs[a])),
    decreases row.len(),
{
    if row.len() > 0 {
        let prev = row.drop_last();
        let (j, w) = row.last();
        lemma_row_in_links(prev, vs, a, i, t);
        assert(row == prev.push(row.last()));
        lemma_has_neighbor_push(prev, row.last(), vs[a]);
        lemma_last_index_distinct(vs, a);
        if vs.contains(j) {
            lemma_last_index(vs, j);
        }
        if vs.contains(j) && last_index(vs, j) == a && i < a {
            let e = (i as usize, w);
            assert(row_in(row, vs, a, i) == row_in(prev, vs, a, i).push(e));
            lemma_has_neighbor_push(row_in(prev, vs, a, i), e, t);
        } else {
            assert(row_in(row, vs, a, i) =~= row_in(prev, vs, a, i));
        }
    }
}

proof fn lemma_in_part_links<W>(adj: Adjacency<W>, vs: Seq<usize>, a: int, m: int, t: usize)
    requires
        vs.no_duplicates(),
        vs.len() <= usize::MAX,
        0 <= a < vs.len(),
        0 <= m <= vs.len(),
    ensures
        has_neighbor(in_part(adj, vs, a, m), t) <==> (t < m && t < a && has_neighbor(
            adj[vs[t as int] as int],
            vs[a],
        )),
    decreases m,
{
    if m > 0 {
        lemma_in_part_links(adj, vs, a, m - 1, t);
        lemma_row_in_links(adj[vs[m - 1] as int], vs, a, m - 1, t);
        lemma_has_neighbor_concat(
            in_part(adj, vs, a, m - 1),
            row_in(adj[vs[m - 1] as int], vs, a, m - 1),
            t,
        );
    }
}

/// In the subgraph induced by a list of distinct vertices, new vertices `a`
/// and `b` are linked exactly when `vs[a]` and `vs[b]` are, and no vertex is
/// linked to itself.
pub proof fn lemma_induced_links<W>(adj: Adjacency<W>, vs: Seq<usize>, a: int, b: int)
    requires
        undirected(adj),
        vs.no_duplicates(),
        vs.len() <= usize::MAX,
        0 <= a < vs.len(),
        0 <= b < vs.len(),
        forall|k: int| 0 <= k < vs.len() ==> #[trigger] vs[k] < adj.len(),
    ensures
        has_neighbor(induced_row(adj, vs, a), b as usize) <==> (a != b && linked(adj, vs[a], vs[b])),
{
    lemma_in_part_links(adj, vs, a, a, b as usize);
    lemma_row_out_links(adj[vs[a] as int], vs, a, b);
    lemma_has_neighbor_concat(in_part(adj, vs, a, a), row_out(adj[vs[a] as int], vs, a), b as usize);
    if b < a && has_neighbor(adj[vs[b] as int], vs[a]) {
        assert(linked(adj, vs[b], vs[a]));
    }
    if b < a && linked(adj, vs[a], vs[b]) {
        assert(linked(adj, vs[b], vs[a]));
    }
}

pub(crate) proof fn lemma_weights_to_push<W>(row: Seq<(usize, W)>, x: (usize, W), j: usize)
    ensures
        weights_to(row.push(x), j) == weights_to(row, j) + if x.0 == j {
            seq![x.1]
        } else {
            Seq::empty()
        },
{
    assert(row.push(x).drop_last() =~= row);
}

proof fn lemma_weights_to_concat<W>(x: Seq<(usize, W)>, y: Seq<(usize, W)>, j: usize)
    ensures
        weights_to(x + y, j) == weights_to(x, j) + weights_to(y, j),
    decreases y.len(),
{
    if y.len() == 0 {
        assert(x + y =~= x);
        assert(weights_to(x, j) + weights_to(y, j) =~= weights_to(x, j));
    } else {
        lemma_weights_to_concat(x, y.drop_last(), j);
        assert((x + y).drop_last() =~= x + y.drop_last());
        assert((x + y).last() == y.last());
        assert(weights_to(x + y, j) =~= weights_to(x, j) + weights_to(y, j));
    }
}

/// `row` names `j` exactly when it lists a weight for `j`.
proof fn lemma_weights_to_nonempty<W>(row: Seq<(usize, W)>, j: usize)
    ensures
        has_neighbor(row, j) <==> weights_to(row, j).len() > 0,
    decreases row.len(),
{
    if row.len() > 0 {
        let prev = row.drop_last();
        lemma_weights_to_nonempty(prev, j);
        assert(row == prev.push(row.last()));
        lemma_has_neighbor_push(prev, row.last(), j);
    }
}

/// Adding an edge keeps each edge stored once at each endpoint.
pub proof fn lemma_add_edge_mirrored<W>(a: Adjacency<W>, i: usize, j: usize, w: W)
    requires
        i < a.len(),
        j < a.len(),
        mirrored(a),
    ensures
        mirrored(spec_add_edge(a, i as int, j as int, w)),
{
    let a1 = a.update(i as int, a[i as int].push((j, w)));
    let b = spec_add_edge(a, i as int, j as int, w);
    assert forall|u: usize, v: usize| (u as int) < b.len() && (v as int) < b.len() implies #[trigger] weights_to(
        b[u as int],
        v,
    ) == weights_to(b[v as int], u) by {
        lemma_weights_to_push(a[u as int], (j, w), v);
        lemma_weights_to_push(a1[u as int], (i, w), v);
        lemma_weights_to_push(a[v as int], (j, w), u);
        lemma_weights_to_push(a1[v as int], (i, w), u);
        assert(weights_to(a[u as int], v) == weights_to(a[v as int], u));
        if i == j {
            if u == i && v == i {
            } else if u == i {
                assert(b[u as int] =~= a[u as int].push((j, w)).push((i, w)));
            } else if v == i {
                assert(b[v as int] =~= a[v as int].push((j, w)).push((i, w)));
            }
        } else {
            assert(weights_to(b[u as int], v) =~= weights_to(b[v as int], u));
        }
    }
}

/// `r` lists no pair of vertices more often than `g` does: a sub-multigraph of `g`.
pub open spec fn within<W>(r: Adjacency<W>, g: Adjacency<W>) -> bool {
    &&& r.len() == g.len()
    &&& forall|u: usize, v: usize|
        (u as int) < r.len() && (v as int) < r.len() ==> #[trigger] weights_to(r[u as int], v).len()
            <= weights_to(g[u as int], v).len()
}

/// A graph without edges lies within any graph on as many vertices.
pub proof fn lemma_empty_within<W>(r: Adjacency<W>, g: Adjacency<W>)
    requires
        r.len() == g.len(),
        forall|i: int| 0 <= i < r.len() ==> #[trigger] r[i].len() == 0,
    ensures
        within(r, g),
{
    assert forall|u: usize, v: usize| (u as int) < r.len() && (v as int) < r.len() implies #[trigger] weights_to(
        r[u as int],
        v,
    ).len() <= weights_to(g[u as int], v).len() by {
        assert(weights_to(r[u as int], v) =~= Seq::<W>::empty());
    }
}

/// Adding an edge `{i, j}` (`i != j`) of `g` that `r` does not yet hold keeps
/// `r` within `g`, when both store each edge at both ends.
pub proof fn lemma_within_add<W>(r: Adjacency<W>, g: Adjacency<W>, i: usize, j: usize, w: W)
    requires
        within(r, g),
        mirrored(r),
        mirrored(g),
        i < r.len(),
        j < r.len(),
        i != j,
        !has_neighbor(r[i as int], j),
        has_neighbor(g[i as int], j),
    ensures
        within(spec_add_edge(r, i as int, j as int, w), g),
{
    let a1 = r.update(i as int, r[i as int].push((j, w)));
    let b = spec_add_edge(r, i as int, j as int, w);
    lemma_weights_to_nonempty(r[i as int], j);
    lemma_weights_to_nonempty(g[i as int], j);
    assert(weights_to(r[i as int], j) == weights_to(r[j as int], i));
    assert(weights_to(g[i as int], j) == weights_to(g[j as int], i));
    assert forall|u: usize, v: usize| (u as int) < b.len() && (v as int) < b.len() implies #[trigger] weights_to(
        b[u as int],
        v,
    ).len() <= weights_to(g[u as int], v).len() by {
        lemma_weights_to_push(r[u as int], (j, w), v);
        lemma_weights_to_push(a1[u as int], (i, w), v);
        assert(weights_to(r[u as int], v).len() <= weights_to(g[u as int], v).len());
    }
}

/// A graph whose edges are each stored at both endpoints, with every entry a
/// vertex, is undirected.
pub proof fn lemma_mirrored_undirected<W>(adj: Adjacency<W>)
    requires
        mirrored(adj),
        forall|i: int, k: int| 0 <= i < adj.len() && 0 <= k < adj[i].len() ==> #[trigger] adj[i][k].0 < adj.len(),
    ensures
        undirected(adj),
{
    assert forall|u: usize, v: usize| #[trigger] linked(adj, u, v) implies linked(adj, v, u) by {
        let k = choose|k: int| 0 <= k < adj[u as int].len() && #[trigger] adj[u as int][k].0 == v;
        assert(adj[u as int][k].0 < adj.len());
        lemma_weights_to_nonempty(adj[u as int], v);
        lemma_weights_to_nonempty(adj[v as int], u);
        assert(weights_to(adj[u as int], v) == weights_to(adj[v as int], u));
    }
}

/// The total degree of a prefix never exceeds that of the whole.
proof fn lemma_total_degree_prefix<W>(a: Adjacency<W>, k: int)
    requires
        0 <= k <= a.len(),
    ensures
        total_degree(a.take(k)) <= total_degree(a),
    decreases a.len() - k,
{
    if k < a.len() {
        lemma_total_degree_prefix(a, k + 1);
        assert(a.take(k + 1).drop_last() =~= a.take(k));
    } else {
        assert(a.take(k) =~= a);
    }
}

} // verus!
