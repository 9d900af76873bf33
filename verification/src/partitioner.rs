use vstd::prelude::*;
use rand::Rng;

verus! {

/// The indices `i < m` with `a[i] == c`, in increasing order.
pub open spec fn members(a: Seq<usize>, c: int, m: int) -> Seq<usize>
    decreases m,
{
    if m <= 0 {
        Seq::empty()
    } else {
        members(a, c, m - 1) + if a[m - 1] as int == c {
            seq![(m - 1) as usize]
        } else {
            Seq::empty()
        }
    }
}

/// The labels `c' < c` that some index of `a[0..n]` carries, in increasing order.
pub open spec fn used_labels(a: Seq<usize>, n: int, c: int) -> Seq<int>
    decreases c,
{
    if c <= 0 {
        Seq::empty()
    } else {
        used_labels(a, n, c - 1) + if members(a, c - 1, n).len() > 0 {
            seq![c - 1]
        } else {
            Seq::empty()
        }
    }
}

/// The community of `v`: the last block of `parts[0..m]` that lists it, `0` if none does.
pub open spec fn community(parts: Seq<Seq<usize>>, v: usize, m: int) -> int
    decreases m,
{
    if m <= 0 {
        0
    } else if parts[m - 1].contains(v) {
        m - 1
    } else {
        community(parts, v, m - 1)
    }
}

/// The clusters of the assignment `a` with labels below `k`: for each label
/// that some index carries, in increasing order, the indices that carry it.
pub open spec fn clusters(a: Seq<usize>, k: int) -> Seq<Seq<usize>> {
    let labels = used_labels(a, a.len() as int, k);
    Seq::new(labels.len(), |g: int| members(a, labels[g], a.len() as int))
}

proof fn lemma_community_unique(parts: Seq<Seq<usize>>, v: usize, g: int, m: int)
    requires
        0 <= g < m <= parts.len(),
        parts[g].contains(v),
        forall|h: int| 0 <= h < parts.len() && h != g ==> !(#[trigger] parts[h]).contains(v),
    ensures
        community(parts, v, m) == g,
    decreases m,
{
    if m - 1 != g {
        assert(!parts[m - 1].contains(v));
        lemma_community_unique(parts, v, g, m - 1);
    }
}

/// In the clustering of `a`, the community of an index is the rank of its
/// label among the labels in use; so two indices share a community exactly
/// when `a` gives them the same label.
pub proof fn lemma_cluster_communities(a: Seq<usize>, k: int, u: usize, v: usize)
    requires
        forall|i: int| 0 <= i < a.len() ==> #[trigger] a[i] < k,
        a.len() <= usize::MAX,
        u < a.len(),
        v < a.len(),
    ensures
        used_labels(a, a.len() as int, k)[community(clusters(a, k), u, clusters(a, k).len() as int)]
            == a[u as int],
        community(clusters(a, k), u, clusters(a, k).len() as int) == community(
            clusters(a, k),
            v,
            clusters(a, k).len() as int,
        ) <==> a[u as int] == a[v as int],
{
    let n = a.len() as int;
    let labels = used_labels(a, n, k);
    let cs = clusters(a, k);
    lemma_used_labels(a, n, k);
    assert forall|x: usize| #![trigger a[x as int]] x < a.len() implies exists|g: int|
        0 <= g < labels.len() && #[trigger] labels[g] == a[x as int] && community(cs, x, cs.len() as int) == g by {
        let c = a[x as int] as int;
        lemma_members(a, c, n);
        assert(members(a, c, n).contains(x));
        assert(labels.contains(c));
        let g = choose|g: int| 0 <= g < labels.len() && labels[g] == c;
        assert forall|h: int| 0 <= h < cs.len() && h != g implies !(#[trigger] cs[h]).contains(x) by {
            lemma_members(a, labels[h], n);
            if h < g {
                assert(labels[h] < labels[g]);
            } else {
                assert(labels[g] < labels[h]);
            }
        }
        lemma_community_unique(cs, x, g, cs.len() as int);
    }
    let gu = community(cs, u, cs.len() as int);
    let gv = community(cs, v, cs.len() as int);
    assert(a[u as int] == a[u as int]);
    assert(a[v as int] == a[v as int]);
    assert(labels[gu] == a[u as int]);
    assert(labels[gv] == a[v as int]);
    if gu != gv {
        if gu < gv {
            assert(labels[gu] < labels[gv]);
        } else {
            assert(labels[gv] < labels[gu]);
        }
    }
}

proof fn lemma_members(a: Seq<usize>, c: int, m: int)
    requires
        0 <= m <= a.len(),
        a.len() <= usize::MAX,
    ensures
        forall|i: usize| #[trigger] members(a, c, m).contains(i) <==> (i < m && a[i as int] == c),
        forall|x: int, y: int|
            0 <= x < y < members(a, c, m).len() ==> #[trigger] members(a, c, m)[x] < #[trigger] members(a, c, m)[y],
        forall|x: int| 0 <= x < members(a, c, m).len() ==> #[trigger] members(a, c, m)[x] < m,
    decreases m,
{
    if m > 0 {
        lemma_members(a, c, m - 1);
        let prev = members(a, c, m - 1);
        let cur = members(a, c, m);
        let last = (m - 1) as usize;
        assert(last as int == m - 1);
        if a[m - 1] as int == c {
            assert(cur == prev.push(last));
        } else {
            assert(cur =~= prev);
        }
        assert forall|x: int| 0 <= x < prev.len() implies cur[x] == prev[x] by {}
        assert forall|i: usize| #[trigger] cur.contains(i) <==> (i < m && a[i as int] == c) by {
            if cur.contains(i) {
                let x = choose|x: int| 0 <= x < cur.len() && cur[x] == i;
                if x < prev.len() {
                    assert(prev[x] == i);
                    assert(prev.contains(i));
                } else {
                    assert(i == last);
                }
            }
            if i < m && a[i as int] == c {
                if i < m - 1 {
                    assert(prev.contains(i));
                    let x = choose|x: int| 0 <= x < prev.len() && prev[x] == i;
                    assert(cur[x] == i);
                } else {
                    assert(cur[prev.len() as int] == i);
                }
            }
        }
        assert forall|x: int, y: int| 0 <= x < y < cur.len() implies #[trigger] cur[x] < #[trigger] cur[y] by {
            if y < prev.len() {
                assert(prev[x] < prev[y]);
            } else {
                assert(prev[x] < m - 1);
            }
        }
        assert forall|x: int| 0 <= x < cur.len() implies #[trigger] cur[x] < m by {
            if x < prev.len() {
                assert(prev[x] < m - 1);
            }
        }
    }
}

proof fn lemma_used_labels(a: Seq<usize>, n: int, c: int)
    requires
        0 <= c,
    ensures
        forall|l: int| #[trigger] used_labels(a, n, c).contains(l) <==> (0 <= l < c && members(a, l, n).len() > 0),
        forall|x: int, y: int|
            0 <= x < y < used_labels(a, n, c).len() ==> #[trigger] used_labels(a, n, c)[x] < #[trigger] used_labels(a, n, c)[y],
        forall|x: int| 0 <= x < used_labels(a, n, c).len() ==> 0 <= #[trigger] used_labels(a, n, c)[x] < c,
    decreases c,
{
    if c > 0 {
        lemma_used_labels(a, n, c - 1);
        let prev = used_labels(a, n, c - 1);
        let cur = used_labels(a, n, c);
        assert forall|l: int| cur.contains(l) <==> (0 <= l < c && members(a, l, n).len() > 0) by {
            if cur.contains(l) {
                let x = choose|x: int| 0 <= x < cur.len() && cur[x] == l;
                if x < prev.len() {
                    assert(prev[x] == l);
                    assert(prev.contains(l));
                }
            }
            if 0 <= l < c && members(a, l, n).len() > 0 {
                if l < c - 1 {
                    assert(prev.contains(l));
                    let x = choose|x: int| 0 <= x < prev.len() && prev[x] == l;
                    assert(cur[x] == l);
                } else {
                    assert(cur[prev.len() as int] == l);
                }
            }
        }
    }
}

/// The pool of vertices left after the draws `draws[0..t]`: it starts as
/// `0, ..., n - 1`, and each draw takes out the entry at its position, whose
/// place the last entry fills.
pub open spec fn pool_after(n: nat, draws: Seq<usize>, t: int) -> Seq<usize>
    decreases t,
{
    if t <= 0 {
        Seq::new(n, |i: int| i as usize)
    } else {
        let p = pool_after(n, draws, t - 1);
        p.update(draws[t - 1] as int, p.last()).drop_last()
    }
}

/// The vertices that the draws `draws[0..t]` take out of the pool, in order.
pub open spec fn pool_picks(n: nat, draws: Seq<usize>, t: int) -> Seq<usize>
    decreases t,
{
    if t <= 0 {
        Seq::empty()
    } else {
        pool_picks(n, draws, t - 1).push(pool_after(n, draws, t - 1)[draws[t - 1] as int])
    }
}

/// Some block of `blocks` lists `x`.
pub open spec fn in_some_block(blocks: Seq<Vec<usize>>, x: usize) -> bool {
    exists|g: int| 0 <= g < blocks.len() && #[trigger] blocks[g]@.contains(x)
}

/// Draws an index uniformly from `0..bound` with `rand`'s thread-local
/// generator (`rand::rng().random_range(0..bound)`). What is claimed of it:
/// the index lies in `0..bound`. Which index comes is left open: it is random.
#[verifier::external_body]
fn random_index(bound: usize) -> (r: usize)
    requires
        bound > 0,
    ensures
        r < bound,
{
    rand::rng().random_range(0..bound)
}

/// K-way spectral partitioning and modularity.
#[derive(Clone, Debug)]
pub struct SpectralPartitioner;

impl SpectralPartitioner {
    /// The partitioner (it holds no state).
    pub fn new() -> (p: Self)
        ensures
            p == SpectralPartitioner,
    {
        SpectralPartitioner
    }

    /// The partitions that need no spectral embedding: one block per vertex
    /// when `k >= n`, a single block `0..n` when `k <= 1`, `None` otherwise.
    pub fn trivial_partition(&self, n: usize, k: usize) -> (r: Option<Vec<Vec<usize>>>)
        ensures
            k >= n ==> (r matches Some(parts) && parts@.len() == n && forall|i: int|
                0 <= i < n ==> #[trigger] parts@[i]@ == seq![i as usize]),
            k < n && k <= 1 ==> (r matches Some(parts) && parts@.len() == 1 && parts@[0]@
                == Seq::new(n as nat, |i: int| i as usize)),
            k < n && k > 1 ==> r is None,
    {
        if k >= n {
            let mut parts: Vec<Vec<usize>> = Vec::new();
            for i in 0..n
                invariant
                    parts@.len() == i,
                    forall|j: int| 0 <= j < i ==> #[trigger] parts@[j]@ == seq![j as usize],
            {
                let mut single: Vec<usize> = Vec::new();
                single.push(i);
                parts.push(single);
            }
            return Some(parts);
        }
        if k <= 1 {
            let mut all: Vec<usize> = Vec::new();
            for i in 0..n
                invariant
                    all@ == Seq::new(i as nat, |j: int| j as usize),
            {
                all.push(i);
                assert(all@ =~= Seq::new((i + 1) as nat, |j: int| j as usize));
            }
            let mut parts: Vec<Vec<usize>> = Vec::new();
            parts.push(all);
            return Some(parts);
        }
        None
    }

    /// The community of every vertex `0..n`: the index of the last block of
    /// `partition` that lists it, `0` for a vertex that no block lists.
    pub fn community_of(&self, n: usize, partition: &[Vec<usize>]) -> (r: Vec<usize>)
        requires
            forall|c: int, t: int|
                0 <= c < partition@.len() && 0 <= t < partition@[c]@.len() ==> #[trigger] partition@[c]@[t] < n,
        ensures
            r@.len() == n,
            forall|v: int| 0 <= v < n ==> #[trigger] r@[v] as int == community(
                partition@.map_values(|b: Vec<usize>| b@),
                v as usize,
                partition@.len() as int,
            ),
    {
        let ghost parts = partition@.map_values(|b: Vec<usize>| b@);
        let mut comm: Vec<usize> = Vec::new();
        for v in 0..n
            invariant
                comm@.len() == v,
                forall|u: int| 0 <= u < v ==> comm@[u] == 0,
        {
            comm.push(0);
        }
        for c in 0..partition.len()
            invariant
                parts == partition@.map_values(|b: Vec<usize>| b@),
                comm@.len() == n,
                forall|d: int, t: int|
                    0 <= d < partition@.len() && 0 <= t < partition@[d]@.len() ==> #[trigger] partition@[d]@[t] < n,
                forall|v: int| 0 <= v < n ==> #[trigger] comm@[v] as int == community(parts, v as usize, c as int),
        {
            let block = &partition[c];
            let ghost b = block@;
            assert(parts[c as int] == b);
            for t in 0..block.len()
                invariant
                    parts == partition@.map_values(|b: Vec<usize>| b@),
                    b == block@,
                    b == partition@[c as int]@,
                    c < partition@.len(),
                    comm@.len() == n,
                    forall|d: int, t: int|
                        0 <= d < partition@.len() && 0 <= t < partition@[d]@.len() ==> #[trigger] partition@[d]@[t] < n,
                    forall|v: int|
                        0 <= v < n ==> #[trigger] comm@[v] as int == if b.take(t as int).contains(v as usize) {
                            c as int
                        } else {
                            community(parts, v as usize, c as int)
                        },
            {
                let node = block[t];
                assert(partition@[c as int]@[t as int] == node);
                proof {
                    assert(b.take(t + 1)[t as int] == node);
                    assert forall|v: int| 0 <= v < n && v != node implies #[trigger] b.take(t + 1).contains(v as usize)
                        == b.take(t as int).contains(v as usize) by {
                        if b.take(t + 1).contains(v as usize) {
                            let k = choose|k: int| 0 <= k < t + 1 && #[trigger] b.take(t + 1)[k] == v as usize;
                            assert(b.take(t as int)[k] == v as usize);
                        }
                        if b.take(t as int).contains(v as usize) {
                            let k = choose|k: int| 0 <= k < t && #[trigger] b.take(t as int)[k] == v as usize;
                            assert(b.take(t + 1)[k] == v as usize);
                        }
                    }
                }
                comm.set(node, c);
            }
            proof {
                assert(b.take(b.len() as int) =~= b);
            }
        }
        comm
    }

    /// Groups the indices `0..n` by their cluster `assignments[i] < k`, in
    /// increasing cluster order, leaving out clusters that no index carries.
    pub fn clusters_from_assignments(&self, assignments: &[usize], k: usize) -> (r: Vec<Vec<usize>>)
        requires
            forall|i: int| 0 <= i < assignments@.len() ==> #[trigger] assignments@[i] < k,
        ensures
            r@.len() == used_labels(assignments@, assignments@.len() as int, k as int).len(),
            forall|g: int|
                0 <= g < r@.len() ==> #[trigger] r@[g]@ == members(
                    assignments@,
                    used_labels(assignments@, assignments@.len() as int, k as int)[g],
                    assignments@.len() as int,
                ),
            r@.map_values(|b: Vec<usize>| b@) == clusters(assignments@, k as int),
            forall|g: int| 0 <= g < r@.len() ==> #[trigger] r@[g]@.len() > 0,
            forall|i: usize| i < assignments@.len() ==> #[trigger] in_some_block(r@, i),
            forall|g1: int, g2: int, x: usize|
                0 <= g1 < g2 < r@.len() ==> !(#[trigger] r@[g1]@.contains(x) && #[trigger] r@[g2]@.contains(x)),
    {
        let n = assignments.len();
        let ghost a = assignments@;
        let mut groups: Vec<Vec<usize>> = Vec::new();
        for c in 0..k
            invariant
                groups@.len() == c,
                forall|d: int| 0 <= d < c ==> #[trigger] groups@[d]@ == members(a, d, 0),
        {
            groups.push(Vec::new());
            assert(groups@[c as int]@ =~= members(a, c as int, 0));
        }
        for i in 0..n
            invariant
                n == a.len(),
                a == assignments@,
                groups@.len() == k,
                forall|j: int| 0 <= j < a.len() ==> #[trigger] a[j] < k,
                forall|d: int| 0 <= d < k ==> #[trigger] groups@[d]@ == members(a, d, i as int),
        {
            let c = assignments[i];
            let ghost before = groups@;
            groups[c].push(i);
            proof {
                assert forall|d: int| 0 <= d < k implies #[trigger] groups@[d]@ == members(a, d, i + 1) by {
                    if d == c {
                        assert(groups@[d]@ =~= members(a, d, i + 1));
                    } else {
                        assert(groups@[d] == before[d]);
                        assert(members(a, d, i + 1) =~= members(a, d, i as int));
                    }
                }
            }
        }
        let mut result: Vec<Vec<usize>> = Vec::new();
        for c in 0..k
            invariant
                n == a.len(),
                a == assignments@,
                groups@.len() == k,
                forall|d: int| c <= d < k ==> #[trigger] groups@[d]@ == members(a, d, n as int),
                result@.len() == used_labels(a, n as int, c as int).len(),
                forall|g: int|
                    0 <= g < result@.len() ==> #[trigger] result@[g]@ == members(
                        a,
                        used_labels(a, n as int, c as int)[g],
                        n as int,
                    ),
        {
            let mut block: Vec<usize> = Vec::new();
            let ghost before = groups@;
            std::mem::swap(&mut block, &mut groups[c]);
            proof {
                assert(block@ == members(a, c as int, n as int));
                assert forall|d: int| c + 1 <= d < k implies #[trigger] groups@[d]@ == members(a, d, n as int) by {
                    assert(groups@[d] == before[d]);
                }
            }
            if block.len() > 0 {
                result.push(block);
            }
            proof {
                let prev = used_labels(a, n as int, c as int);
                assert(used_labels(a, n as int, c + 1) == prev + if members(a, c as int, n as int).len() > 0 {
                    seq![c as int]
                } else {
                    Seq::<int>::empty()
                });
            }
        }
        proof {
            let labels = used_labels(a, n as int, k as int);
            lemma_used_labels(a, n as int, k as int);
            assert forall|g: int| 0 <= g < result@.len() implies #[trigger] result@[g]@.len() > 0 by {
                assert(labels.contains(labels[g]));
            }
            assert forall|i: usize| i < n implies #[trigger] in_some_block(result@, i) by {
                let c = a[i as int] as int;
                lemma_members(a, c, n as int);
                assert(members(a, c, n as int).contains(i));
                assert(labels.contains(c));
                assert(members(a, c, n as int).len() > 0);
                assert(0 <= c < k);
                assert(labels.contains(c));
                let g = choose|g: int| 0 <= g < labels.len() && labels[g] == c;
                assert(0 <= g < result@.len());
                assert(result@[g]@ == members(a, c, n as int));
                assert(result@[g]@.contains(i));
            }
            assert(result@.map_values(|b: Vec<usize>| b@) =~= clusters(a, k as int));
            assert forall|g1: int, g2: int, x: usize|
                0 <= g1 < g2 < result@.len() implies !(#[trigger] result@[g1]@.contains(x)
                    && #[trigger] result@[g2]@.contains(x)) by {
                lemma_members(a, labels[g1], n as int);
                lemma_members(a, labels[g2], n as int);
            }
        }
        result
    }

    /// The vertices that the draws `draws` pick from `0..n`: the pool starts as
    /// `0, 1, ..., n - 1`, and draw `t` takes the pool entry at position
    /// `draws[t]`, whose place the last pool entry then fills.
    pub fn centroids_from_draws(&self, n: usize, draws: &[usize]) -> (r: Vec<usize>)
        requires
            draws@.len() <= n,
            forall|t: int| 0 <= t < draws@.len() ==> #[trigger] draws@[t] < n - t,
        ensures
            r@ == pool_picks(n as nat, draws@, draws@.len() as int),
            r@.len() == draws@.len(),
            forall|x: int| 0 <= x < r@.len() ==> #[trigger] r@[x] < n,
            forall|x: int, y: int| 0 <= x < y < r@.len() ==> #[trigger] r@[x] != #[trigger] r@[y],
    {
        let ghost d = draws@;
        let mut pool: Vec<usize> = Vec::new();
        for v in 0..n
            invariant
                pool@ == Seq::new(v as nat, |i: int| i as usize),
        {
            pool.push(v);
            assert(pool@ =~= Seq::new((v + 1) as nat, |i: int| i as usize));
        }
        let mut chosen: Vec<usize> = Vec::new();
        for t in 0..draws.len()
            invariant
                d == draws@,
                d.len() <= n,
                forall|x: int| 0 <= x < d.len() ==> #[trigger] d[x] < n - x,
                pool@ == pool_after(n as nat, d, t as int),
                chosen@ == pool_picks(n as nat, d, t as int),
                chosen@.len() == t,
                pool@.len() + t == n,
                forall|x: int| 0 <= x < chosen@.len() ==> #[trigger] chosen@[x] < n,
                forall|x: int| 0 <= x < pool@.len() ==> #[trigger] pool@[x] < n,
                forall|x: int, y: int| 0 <= x < y < chosen@.len() ==> #[trigger] chosen@[x] != #[trigger] chosen@[y],
                forall|x: int, y: int| 0 <= x < y < pool@.len() ==> #[trigger] pool@[x] != #[trigger] pool@[y],
                forall|x: int, y: int| 0 <= x < chosen@.len() && 0 <= y < pool@.len() ==> #[trigger] chosen@[x] != #[trigger] pool@[y],
        {
            let ghost p0 = pool@;
            let ghost c0 = chosen@;
            let idx = draws[t];
            assert(d[t as int] < n - t);
            let v = pool.swap_remove(idx);
            chosen.push(v);
            proof {
                let last = p0.len() - 1;
                assert(pool@ == p0.update(idx as int, p0[last]).drop_last());
                assert(pool@ == pool_after(n as nat, d, t + 1));
                assert(chosen@ == pool_picks(n as nat, d, t + 1));
                assert forall|y: int| 0 <= y < pool@.len() implies #[trigger] pool@[y] == if y == idx {
                    p0[last]
                } else {
                    p0[y]
                } by {}
                assert forall|x: int, y: int| 0 <= x < y < pool@.len() implies #[trigger] pool@[x] != #[trigger] pool@[y] by {
                    let x0 = if x == idx { last } else { x };
                    let y0 = if y == idx { last } else { y };
                    assert(pool@[x] == p0[x0] && pool@[y] == p0[y0]);
                    if x0 < y0 {
                        assert(p0[x0] != p0[y0]);
                    } else {
                        assert(p0[y0] != p0[x0]);
                    }
                }
                assert forall|x: int, y: int| 0 <= x < chosen@.len() && 0 <= y < pool@.len() implies #[trigger] chosen@[x] != #[trigger] pool@[y] by {
                    let y0 = if y == idx { last } else { y };
                    assert(pool@[y] == p0[y0]);
                    if x < c0.len() {
                        assert(chosen@[x] == c0[x]);
                    } else {
                        assert(chosen@[x] == p0[idx as int]);
                        if y0 < idx {
                            assert(p0[y0] != p0[idx as int]);
                        } else {
                            assert(p0[idx as int] != p0[y0]);
                        }
                    }
                }
                assert forall|x: int, y: int| 0 <= x < y < chosen@.len() implies #[trigger] chosen@[x] != #[trigger] chosen@[y] by {
                    if y < c0.len() {
                        assert(chosen@[x] == c0[x] && chosen@[y] == c0[y]);
                    } else {
                        assert(chosen@[x] == c0[x]);
                        assert(chosen@[y] == p0[idx as int]);
                    }
                }
            }
        }
        chosen
    }

    /// `min(k, n)` distinct vertices drawn at random from `0..n`, each draw
    /// uniform over the vertices not drawn yet: the initial centroids of k-means.
    /// The draws are made with `rand`; what is done with them is
    /// `centroids_from_draws`.
    pub fn random_centroid_indices(&self, n: usize, k: usize) -> (r: Vec<usize>)
        ensures
            exists|d: Seq<usize>|
                #![trigger pool_picks(n as nat, d, d.len() as int)]
                d.len() == (if k < n { k } else { n }) && (forall|t: int| 0 <= t < d.len() ==> #[trigger] d[t] < n - t)
                    && r@ == pool_picks(n as nat, d, d.len() as int),
            r@.len() == if k < n { k } else { n },
            forall|x: int| 0 <= x < r@.len() ==> #[trigger] r@[x] < n,
            forall|x: int, y: int| 0 <= x < y < r@.len() ==> #[trigger] r@[x] != #[trigger] r@[y],
    {
        let count = if k < n { k } else { n };
        let mut draws: Vec<usize> = Vec::new();
        for t in 0..count
            invariant
                count <= n,
                draws@.len() == t,
                forall|x: int| 0 <= x < draws@.len() ==> #[trigger] draws@[x] < n - x,
        {
            let d = random_index(n - t);
            draws.push(d);
        }
        self.centroids_from_draws(n, &draws)
    }
}

} // verus!
