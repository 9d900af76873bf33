use vstd::prelude::*;
use crate::graph::{Adjacency, Graph};

verus! {

/// Some entry of `row` leads to a vertex on the other side than `i`.
pub open spec fn crosses<W>(row: Seq<(usize, W)>, side: Seq<bool>, i: int) -> bool {
    exists|k: int| 0 <= k < row.len() && side[#[trigger] row[k].0 as int] != side[i]
}

/// The vertices of `0..m` with an edge to the other side of the cut `side`,
/// in increasing order.
pub open spec fn cut_vertices<W>(adj: Adjacency<W>, side: Seq<bool>, m: int) -> Seq<usize>
    decreases m,
{
    if m <= 0 {
        Seq::empty()
    } else {
        cut_vertices(adj, side, m - 1) + if crosses(adj[m - 1], side, m - 1) {
            seq![(m - 1) as usize]
        } else {
            Seq::empty()
        }
    }
}

/// The agents on a cut boundary are exactly the vertices below `m` with a
/// list entry leading to a vertex on the other side than their own, each once,
/// in increasing order.
pub proof fn lemma_cut_vertices<W>(adj: Adjacency<W>, side: Seq<bool>, m: int)
    requires
        0 <= m <= usize::MAX + 1,
    ensures
        forall|v: usize|
            #[trigger] cut_vertices(adj, side, m).contains(v) <==> ((v as int) < m && exists|k: int|
                0 <= k < adj[v as int].len() && side[#[trigger] adj[v as int][k].0 as int] != side[v as int]),
        forall|x: int, y: int|
            0 <= x < y < cut_vertices(adj, side, m).len() ==> #[trigger] cut_vertices(adj, side, m)[x]
                < #[trigger] cut_vertices(adj, side, m)[y],
        forall|x: int| 0 <= x < cut_vertices(adj, side, m).len() ==> #[trigger] cut_vertices(adj, side, m)[x] < m,
    decreases m,
{
    if m > 0 {
        lemma_cut_vertices(adj, side, m - 1);
        let prev = cut_vertices(adj, side, m - 1);
        let cur = cut_vertices(adj, side, m);
        let last = (m - 1) as usize;
        assert(last as int == m - 1);
        assert forall|x: int| 0 <= x < prev.len() implies cur[x] == prev[x] by {}
        assert forall|v: usize|
            #[trigger] cur.contains(v) <==> ((v as int) < m && exists|k: int|
                0 <= k < adj[v as int].len() && side[#[trigger] adj[v as int][k].0 as int] != side[v as int]) by {
            if cur.contains(v) {
                let x = choose|x: int| 0 <= x < cur.len() && cur[x] == v;
                if x < prev.len() {
                    assert(prev[x] == v);
                    assert(prev.contains(v));
                } else {
                    assert(v == last);
                    assert(crosses(adj[m - 1], side, m - 1));
                }
            }
            if (v as int) < m && exists|k: int|
                0 <= k < adj[v as int].len() && side[#[trigger] adj[v as int][k].0 as int] != side[v as int] {
                if (v as int) < m - 1 {
                    assert(prev.contains(v));
                    let x = choose|x: int| 0 <= x < prev.len() && prev[x] == v;
                    assert(cur[x] == v);
                } else {
                    assert(v == last);
                    assert(crosses(adj[m - 1], side, m - 1));
                    assert(cur[prev.len() as int] == v);
                }
            }
        }
        assert forall|x: int, y: int| 0 <= x < y < cur.len() implies #[trigger] cur[x] < #[trigger] cur[y] by {
            if y < prev.len() {
                assert(prev[x] < prev[y]);
            } else {
                assert(prev[x] < m - 1);
            }
        }
        assert forall|x: int| 0 <= x < cur.len() implies #[trigger] cur[x] < m by {
            if x < prev.len() {
                assert(prev[x] < m - 1);
            }
        }
    }
}

/// The vertices `0..m` other than `removed`, in increasing order.
pub open spec fn all_but(m: int, removed: int) -> Seq<usize>
    decreases m,
{
    if m <= 0 {
        Seq::empty()
    } else {
        all_but(m - 1, removed) + if m - 1 == removed {
            Seq::empty()
        } else {
            seq![(m - 1) as usize]
        }
    }
}

/// Named agents on the vertices of a communication graph: agent `i` sits on vertex `i`.
#[derive(Clone, Debug)]
pub struct AgentNetwork<W> {
    pub agents: Vec<String>,
    pub graph: Graph<W>,
}

impl<W: Copy> AgentNetwork<W> {
    /// One agent per vertex of `graph`.
    pub fn new(agents: Vec<String>, graph: Graph<W>) -> (net: Self)
        requires
            agents@.len() == graph.n,
        ensures
            net.agents@ == agents@,
            net.graph == graph,
    {
        AgentNetwork { agents, graph }
    }

    /// The agents other than `removed`, in increasing order.
    pub fn remaining_agents(&self, removed: usize) -> (r: Vec<usize>)
        ensures
            r@ == all_but(self.graph.n as int, removed as int),
            r@.no_duplicates(),
            forall|v: usize| #[trigger] r@.contains(v) <==> v < self.graph.n && v != removed,
    {
        let mut out: Vec<usize> = Vec::new();
        for i in 0..self.graph.n
            invariant
                out@ == all_but(i as int, removed as int),
                forall|x: int, y: int| 0 <= x < y < out@.len() ==> #[trigger] out@[x] < #[trigger] out@[y],
                forall|x: int| 0 <= x < out@.len() ==> #[trigger] out@[x] < i,
                forall|v: usize| #[trigger] out@.contains(v) <==> v < i && v != removed,
        {
            let ghost before = out@;
            if i != removed {
                out.push(i);
                proof {
                    assert forall|v: usize| #[trigger] out@.contains(v) <==> v < i + 1 && v != removed by {
                        if out@.contains(v) {
                            let x = choose|x: int| 0 <= x < out@.len() && out@[x] == v;
                            if x < before.len() {
                                assert(before[x] == v);
                                assert(before.contains(v));
                            }
                        }
                        if v < i && v != removed {
                            assert(before.contains(v));
                            let x = choose|x: int| 0 <= x < before.len() && before[x] == v;
                            assert(out@[x] == v);
                        }
                        if v == i {
                            assert(out@[before.len() as int] == v);
                        }
                    }
                }
            }
            assert(out@ =~= all_but(i + 1, removed as int));
        }
        proof {
            assert forall|x: int, y: int| 0 <= x < out@.len() && 0 <= y < out@.len() && x != y implies out@[x]
                != out@[y] by {
                if x < y {
                    assert(out@[x] < out@[y]);
                } else {
                    assert(out@[y] < out@[x]);
                }
            }
        }
        out
    }

    /// The agents with a link to the other side of the cut `side`
    /// (`side[i]` tells on which side agent `i` stands), in increasing order.
    pub fn crossing_agents(&self, side: &[bool]) -> (r: Vec<usize>)
        requires
            self.graph.wf(),
            side@.len() == self.graph.n,
        ensures
            r@ == cut_vertices(self.graph.adj(), side@, self.graph.n as int),
            forall|v: usize|
                #[trigger] r@.contains(v) <==> (v < self.graph.n && exists|k: int|
                    0 <= k < self.graph.adj()[v as int].len() && side@[#[trigger] self.graph.adj()[v as int][k].0 as int]
                        != side@[v as int]),
            forall|x: int, y: int| 0 <= x < y < r@.len() ==> #[trigger] r@[x] < #[trigger] r@[y],
    {
        proof {
            lemma_cut_vertices(self.graph.adj(), side@, self.graph.n as int);
        }
        let mut out: Vec<usize> = Vec::new();
        for i in 0..self.graph.n
            invariant
                self.graph.wf(),
                side@.len() == self.graph.n,
                out@ == cut_vertices(self.graph.adj(), side@, i as int),
        {
            let row = &self.graph.edges[i];
            assert(row@ == self.graph.adj()[i as int]);
            assert forall|k: int| 0 <= k < row@.len() implies #[trigger] row@[k].0 < side@.len() by {
                assert(self.graph.adj()[i as int][k].0 < self.graph.n);
            }
            if Self::has_crossing_edge(row, side, i) {
                out.push(i);
            }
            assert(out@ =~= cut_vertices(self.graph.adj(), side@, i + 1));
        }
        out
    }

    fn has_crossing_edge(row: &Vec<(usize, W)>, side: &[bool], i: usize) -> (r: bool)
        requires
            i < side@.len(),
            forall|k: int| 0 <= k < row@.len() ==> #[trigger] row@[k].0 < side@.len(),
        ensures
            r == crosses(row@, side@, i as int),
    {
        for k in 0..row.len()
            invariant
                i < side@.len(),
                forall|k: int| 0 <= k < row@.len() ==> #[trigger] row@[k].0 < side@.len(),
                forall|m: int| 0 <= m < k ==> side@[#[trigger] row@[m].0 as int] == side@[i as int],
        {
            let j = row[k].0;
            if side[j] != side[i] {
                return true;
            }
        }
        false
    }
}

} // verus!
