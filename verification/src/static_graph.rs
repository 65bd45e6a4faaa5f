//! An immutable undirected graph over the vertices `0, 1, ..., n - 1`
//! that cannot be modified once created, stored compactly: one flat
//! neighbor array and per-vertex offsets into it, so that a vertex's
//! neighbors are one contiguous block and enumerating them costs
//! nothing beyond reading the block.

use vstd::prelude::*;

use crate::adjacency;

verus! {

/// The integer-indexed static graph.
///
/// `offset[v]` is where vertex `v`'s neighbor block starts in `neigh`;
/// the block ends where the next vertex's block starts (or at the end
/// of `neigh` for the last vertex).
pub struct StaticGraph {
    offset: Vec<usize>,
    neigh: Vec<usize>,
}

impl StaticGraph {
    /// Number of vertices.
    pub closed spec fn n(self) -> nat {
        self.offset@.len()
    }

    /// Length of the flat neighbor array: twice the number of edges.
    pub closed spec fn n_dir(self) -> nat {
        self.neigh@.len()
    }

    /// Where vertex `v`'s neighbor block starts.
    pub closed spec fn seg_start(self, v: int) -> int {
        self.offset@[v] as int
    }

    /// Where vertex `v`'s neighbor block ends.
    pub closed spec fn seg_end(self, v: int) -> int {
        if v + 1 < self.offset@.len() {
            self.offset@[v + 1] as int
        } else {
            self.neigh@.len() as int
        }
    }

    /// The neighbors of vertex `v`, in their stored order.
    pub closed spec fn adj(self, v: int) -> Seq<usize> {
        self.neigh@.subrange(self.seg_start(v), self.seg_end(v))
    }

    /// Internal consistency: offsets start at zero, grow monotonically,
    /// stay within the neighbor array, and every stored neighbor is a
    /// vertex.
    pub closed spec fn wf(self) -> bool {
        &&& self.neigh@.len() % 2 == 0
        &&& (self.offset@.len() > 0 ==> self.offset@[0] == 0)
        &&& forall|v: int|
            0 <= v && v + 1 < self.offset@.len() ==> (#[trigger] self.offset@[v])
                <= self.offset@[v + 1]
        &&& forall|v: int| 0 <= v < self.offset@.len() ==> self.offset@[v] <= self.neigh@.len()
        &&& forall|k: int| 0 <= k < self.neigh@.len() ==> self.neigh@[k] < self.offset@.len()
    }

    /// Return a new graph over `n_vert` vertices with the given edges.
    /// Both endpoints of every edge must be vertices.
    pub fn new(n_vert: usize, edges: &[(usize, usize)]) -> (g: StaticGraph)
        requires
            forall|k: int|
                0 <= k < edges@.len() ==> (#[trigger] edges@[k]).0 < n_vert && edges@[k].1
                    < n_vert,
            edges@.len() <= usize::MAX / 2,
        ensures
            g.wf(),
            g.n() == n_vert,
            g.n_dir() == 2 * edges@.len(),
            forall|v: int| 0 <= v < n_vert ==> g.adj(v) == adjacency::nbrseq(edges@, v),
    {
        let ghost es = edges@;
        let n_edges = edges.len();

        // degree histogram, stored one slot up so that the prefix pass
        // turns it into offsets in place
        let mut offset: Vec<usize> = Vec::new();
        let mut i: usize = 0;
        while i < n_vert
            invariant
                i <= n_vert,
                offset@.len() == i,
                forall|w: int| 0 <= w < i ==> offset@[w] == 0,
            decreases n_vert - i,
        {
            offset.push(0);
            i = i + 1;
        }
        let mut k: usize = 0;
        while k < n_edges
            invariant
                k <= n_edges,
                n_edges == es.len(),
                edges@ == es,
                forall|j: int|
                    0 <= j < es.len() ==> (#[trigger] es[j]).0 < n_vert && es[j].1 < n_vert,
                es.len() <= usize::MAX / 2,
                offset@.len() == n_vert,
                n_vert > 0 ==> offset@[0] == 0,
                forall|w: int|
                    1 <= w < n_vert ==> offset@[w] == adjacency::deg(es.take(k as int), w - 1),
            decreases n_edges - k,
        {
            proof {
                adjacency::lemma_take_step(es, k as int);
                adjacency::lemma_deg_bounds(es.take(k as int), es[k as int].0 as int);
                adjacency::lemma_deg_bounds(es.take(k as int), es[k as int].1 as int);
                assert(es.take(k as int).len() == k);
            }
            let (u, v) = edges[k];
            if u + 1 < n_vert {
                let t = offset[u + 1];
                offset.set(u + 1, t + 1);
            }
            if v + 1 < n_vert {
                let t = offset[v + 1];
                offset.set(v + 1, t + 1);
            }
            k = k + 1;
        }
        proof {
            assert(es.take(n_edges as int) =~= es);
            adjacency::lemma_cumdeg_total(es, n_vert as int);
            assert(adjacency::cumdeg(es, 0int) == 0);
            if n_vert > 1 {
                assert(adjacency::cumdeg(es, 1int) == adjacency::cumdeg(es, 0int) + adjacency::deg(
                    es,
                    0int,
                ));
            }
        }

        // prefix sums: offset[v] becomes the cumulative degree below v
        let mut p: usize = 2;
        while p < n_vert
            invariant
                2 <= p,
                p <= n_vert || p == 2,
                n_edges == es.len(),
                edges@ == es,
                forall|j: int|
                    0 <= j < es.len() ==> (#[trigger] es[j]).0 < n_vert && es[j].1 < n_vert,
                es.len() <= usize::MAX / 2,
                offset@.len() == n_vert,
                forall|w: int|
                    0 <= w < p && w < n_vert ==> offset@[w] == adjacency::cumdeg(es, w),
                forall|w: int| p <= w < n_vert ==> offset@[w] == adjacency::deg(es, w - 1),
            decreases n_vert - p,
        {
            proof {
                adjacency::lemma_cumdeg_total(es, n_vert as int);
                adjacency::lemma_cumdeg_mono(es, p as int, n_vert as int);
                assert(adjacency::cumdeg(es, p as int) == adjacency::cumdeg(es, p as int - 1)
                    + adjacency::deg(es, p as int - 1));
            }
            let t = offset[p];
            let s = offset[p - 1];
            offset.set(p, t + s);
            p = p + 1;
        }

        // scatter each edge's two directed halves into their blocks
        let mut pos: Vec<usize> = Vec::new();
        let mut q: usize = 0;
        while q < n_vert
            invariant
                q <= n_vert,
                pos@.len() == q,
                offset@.len() == n_vert,
                forall|w: int| 0 <= w < q ==> pos@[w] == offset@[w],
            decreases n_vert - q,
        {
            pos.push(offset[q]);
            q = q + 1;
        }
        let total = 2 * n_edges;
        let mut neigh: Vec<usize> = Vec::new();
        let mut t2: usize = 0;
        while t2 < total
            invariant
                t2 <= total,
                neigh@.len() == t2,
                forall|j: int| 0 <= j < t2 ==> neigh@[j] == 0,
            decreases total - t2,
        {
            neigh.push(0);
            t2 = t2 + 1;
        }
        proof {
            assert(es.take(0int) =~= Seq::<(usize, usize)>::empty());
            assert forall|w: int| 0 <= w < n_vert implies neigh@.subrange(
                adjacency::cumdeg(es, w),
                pos@[w] as int,
            ) == adjacency::nbrseq(es.take(0int), w) by {
                adjacency::lemma_cumdeg_mono(es, 0, w);
                adjacency::lemma_cumdeg_mono(es, w, n_vert as int);
                assert(neigh@.subrange(adjacency::cumdeg(es, w), pos@[w] as int) =~= adjacency
                    ::nbrseq(es.take(0int), w));
            }
        }
        let mut k2: usize = 0;
        while k2 < n_edges
            invariant
                k2 <= n_edges,
                n_edges == es.len(),
                edges@ == es,
                forall|j: int|
                    0 <= j < es.len() ==> (#[trigger] es[j]).0 < n_vert && es[j].1 < n_vert,
                es.len() <= usize::MAX / 2,
                offset@.len() == n_vert,
                forall|w: int| 0 <= w < n_vert ==> offset@[w] == adjacency::cumdeg(es, w),
                pos@.len() == n_vert,
                neigh@.len() == 2 * es.len(),
                forall|w: int|
                    0 <= w < n_vert ==> pos@[w] == adjacency::cumdeg(es, w) + adjacency::deg(
                        es.take(k2 as int),
                        w,
                    ),
                forall|w: int|
                    0 <= w < n_vert ==> neigh@.subrange(adjacency::cumdeg(es, w), pos@[w] as int)
                        == adjacency::nbrseq(es.take(k2 as int), w),
                forall|j: int| 0 <= j < neigh@.len() ==> neigh@[j] < n_vert || neigh@[j] == 0,
            decreases n_edges - k2,
        {
            let ghost kk = k2 as int;
            let ghost e = es[kk];
            proof {
                adjacency::lemma_take_step(es, kk);
                adjacency::lemma_cumdeg_total(es, n_vert as int);
            }
            let (u, v) = edges[k2];
            let ghost nm0 = neigh@;
            let ghost pm0 = pos@;
            let pu = pos[u];
            proof {
                adjacency::lemma_deg_take_le(es, kk + 1, u as int);
                adjacency::lemma_deg_bounds(es.take(kk), u as int);
                adjacency::lemma_cumdeg_mono(es, u as int + 1, n_vert as int);
                assert(pu < adjacency::cumdeg(es, u as int + 1));
            }
            neigh.set(pu, v);
            pos.set(u, pu + 1);
            proof {
                assert forall|w: int| 0 <= w < n_vert implies neigh@.subrange(
                    adjacency::cumdeg(es, w),
                    pos@[w] as int,
                ) == adjacency::nbrseq(es.take(kk), w) + (if e.0 == w {
                    seq![e.1]
                } else {
                    Seq::empty()
                }) by {
                    adjacency::lemma_deg_bounds(es.take(kk), w);
                    adjacency::lemma_deg_take_le(es, kk, w);
                    adjacency::lemma_deg_bounds(es, w);
                    adjacency::lemma_cumdeg_mono(es, 0, w);
                    adjacency::lemma_cumdeg_mono(es, w + 1, n_vert as int);
                    assert(adjacency::cumdeg(es, w + 1) == adjacency::cumdeg(es, w)
                        + adjacency::deg(es, w));
                    if w == u {
                        adjacency::lemma_subrange_update_push(
                            nm0,
                            pu as int,
                            v,
                            adjacency::cumdeg(es, w),
                        );
                        assert(nm0.subrange(adjacency::cumdeg(es, w), pu as int).push(v)
                            =~= adjacency::nbrseq(es.take(kk), w) + seq![e.1]);
                    } else {
                        if w < u {
                            adjacency::lemma_cumdeg_mono(es, w + 1, u as int);
                        } else {
                            adjacency::lemma_cumdeg_mono(es, u as int + 1, w);
                        }
                        adjacency::lemma_subrange_update_outside(
                            nm0,
                            pu as int,
                            v,
                            adjacency::cumdeg(es, w),
                            pm0[w] as int,
                        );
                        assert(adjacency::nbrseq(es.take(kk), w) + Seq::<usize>::empty()
                            =~= adjacency::nbrseq(es.take(kk), w));
                    }
                }
            }
            let ghost nm1 = neigh@;
            let ghost pm1 = pos@;
            let pv = pos[v];
            proof {
                adjacency::lemma_deg_take_le(es, kk + 1, v as int);
                adjacency::lemma_cumdeg_mono(es, v as int + 1, n_vert as int);
                adjacency::lemma_deg_bounds(es.take(kk), v as int);
                assert(pv < adjacency::cumdeg(es, v as int + 1));
            }
            neigh.set(pv, u);
            pos.set(v, pv + 1);
            proof {
                assert forall|w: int| 0 <= w < n_vert implies neigh@.subrange(
                    adjacency::cumdeg(es, w),
                    pos@[w] as int,
                ) == adjacency::nbrseq(es.take(kk + 1), w) by {
                    adjacency::lemma_deg_bounds(es.take(kk), w);
                    adjacency::lemma_deg_take_le(es, kk, w);
                    adjacency::lemma_deg_bounds(es, w);
                    adjacency::lemma_cumdeg_mono(es, 0, w);
                    adjacency::lemma_cumdeg_mono(es, w + 1, n_vert as int);
                    assert(adjacency::cumdeg(es, w + 1) == adjacency::cumdeg(es, w)
                        + adjacency::deg(es, w));
                    let mid = adjacency::nbrseq(es.take(kk), w) + (if e.0 == w {
                        seq![e.1]
                    } else {
                        Seq::empty()
                    });
                    if w == v {
                        adjacency::lemma_subrange_update_push(
                            nm1,
                            pv as int,
                            u,
                            adjacency::cumdeg(es, w),
                        );
                        assert(mid.push(u) =~= adjacency::nbrseq(es.take(kk + 1), w));
                    } else {
                        if w < v {
                            adjacency::lemma_cumdeg_mono(es, w + 1, v as int);
                        } else {
                            adjacency::lemma_cumdeg_mono(es, v as int + 1, w);
                        }
                        adjacency::lemma_subrange_update_outside(
                            nm1,
                            pv as int,
                            u,
                            adjacency::cumdeg(es, w),
                            pm1[w] as int,
                        );
                        assert(mid =~= adjacency::nbrseq(es.take(kk + 1), w));
                    }
                }
            }
            k2 = k2 + 1;
        }
        proof {
            assert(es.take(n_edges as int) =~= es);
        }
        let g = StaticGraph { offset, neigh };
        proof {
            adjacency::lemma_cumdeg_total(es, n_vert as int);
            assert forall|w: int| 0 <= w && w + 1 < n_vert implies (#[trigger] g.offset@[w])
                <= g.offset@[w + 1] by {
                adjacency::lemma_deg_bounds(es, w);
                assert(adjacency::cumdeg(es, w + 1) == adjacency::cumdeg(es, w) + adjacency::deg(
                    es,
                    w,
                ));
            }
            assert forall|w: int| 0 <= w < n_vert implies g.offset@[w] <= g.neigh@.len() by {
                adjacency::lemma_cumdeg_mono(es, w, n_vert as int);
            }
            assert forall|w: int| 0 <= w < n_vert implies g.adj(w) == adjacency::nbrseq(
                es,
                w,
            ) by {
                assert(adjacency::cumdeg(es, w + 1) == adjacency::cumdeg(es, w) + adjacency::deg(
                    es,
                    w,
                ));
                assert(g.seg_start(w) == adjacency::cumdeg(es, w));
                assert(g.seg_end(w) == adjacency::cumdeg(es, w) + adjacency::deg(es, w));
            }
        }
        g
    }

    /// Return the neighbors of the given vertex as one block, in
    /// unspecified but stable order.
    pub fn neighbors(&self, vert: usize) -> (r: &[usize])
        requires
            self.wf(),
            vert < self.n(),
        ensures
            r@ == self.adj(vert as int),
    {
        let start = self.offset[vert];
        if vert < self.offset.len() - 1 {
            let end = self.offset[vert + 1];
            &self.neigh[start..end]
        } else {
            let end = self.neigh.len();
            &self.neigh[start..end]
        }
    }

    /// Return the number of vertices.
    pub fn n_vert(&self) -> (r: usize)
        ensures
            r == self.n(),
    {
        self.offset.len()
    }

    /// Return the number of edges: half the flat neighbor array, since
    /// every undirected edge contributes two directed entries.
    pub fn n_edges(&self) -> (r: usize)
        ensures
            r == self.n_dir() / 2,
            self.wf() ==> 2 * r == self.n_dir(),
    {
        self.neigh.len() / 2
    }
}

/// Under `wf`, every neighbor block holds valid vertices and fits in
/// the flat array.
pub proof fn lemma_adj_valid(g: StaticGraph, v: int)
    requires
        g.wf(),
        0 <= v < g.n(),
    ensures
        g.adj(v).len() <= g.n_dir(),
        forall|j: int| 0 <= j < g.adj(v).len() ==> (#[trigger] g.adj(v)[j]) < g.n(),
{
}

} // verus!
