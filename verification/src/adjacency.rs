//! Specification machinery for edge lists of undirected graphs: the
//! degree of a vertex, cumulative degrees (the compact-layout offsets),
//! and the sequence of neighbors a vertex collects when the edges are
//! scattered in order.

use vstd::prelude::*;

verus! {

/// Number of endpoints of `v` in the edge list (an edge `(v, v)`
/// counts twice).
pub open spec fn deg(es: Seq<(usize, usize)>, v: int) -> int
    decreases es.len(),
{
    if es.len() == 0 {
        0
    } else {
        deg(es.drop_last(), v) + (if es.last().0 == v {
            1int
        } else {
            0int
        }) + (if es.last().1 == v {
            1int
        } else {
            0int
        })
    }
}

/// The neighbors of `v`, in edge order; for an edge `(v, u)` the far
/// endpoint `u` is recorded, for `(u, v)` the far endpoint `u`.
pub open spec fn nbrseq(es: Seq<(usize, usize)>, v: int) -> Seq<usize>
    decreases es.len(),
{
    if es.len() == 0 {
        Seq::empty()
    } else {
        nbrseq(es.drop_last(), v) + (if es.last().0 == v {
            seq![es.last().1]
        } else {
            Seq::empty()
        }) + (if es.last().1 == v {
            seq![es.last().0]
        } else {
            Seq::empty()
        })
    }
}

/// Sum of the degrees of the vertices below `v`: where `v`'s neighbor
/// block starts in the flat neighbor array.
pub open spec fn cumdeg(es: Seq<(usize, usize)>, v: int) -> int
    decreases v,
{
    if v <= 0 {
        0
    } else {
        cumdeg(es, v - 1) + deg(es, v - 1)
    }
}

/// A degree is between zero and twice the number of edges, and counts
/// the recorded neighbors.
pub proof fn lemma_deg_bounds(es: Seq<(usize, usize)>, v: int)
    ensures
        0 <= deg(es, v) <= 2 * es.len(),
        nbrseq(es, v).len() == deg(es, v),
    decreases es.len(),
{
    if es.len() > 0 {
        lemma_deg_bounds(es.drop_last(), v);
    }
}

/// Appending one edge adds its endpoints' contributions to every
/// vertex's degree and neighbor sequence.
pub proof fn lemma_take_step(es: Seq<(usize, usize)>, k: int)
    requires
        0 <= k < es.len(),
    ensures
        forall|w: int|
            deg(#[trigger] es.take(k + 1), w) == deg(es.take(k), w) + (if es[k].0 == w {
                1int
            } else {
                0int
            }) + (if es[k].1 == w {
                1int
            } else {
                0int
            }),
        forall|w: int|
            nbrseq(#[trigger] es.take(k + 1), w) == nbrseq(es.take(k), w) + (if es[k].0 == w {
                seq![es[k].1]
            } else {
                Seq::empty()
            }) + (if es[k].1 == w {
                seq![es[k].0]
            } else {
                Seq::empty()
            }),
{
    assert(es.take(k + 1).drop_last() =~= es.take(k));
    assert(es.take(k + 1).last() == es[k]);
    assert(es.take(k + 1).len() == k + 1);
}

/// A prefix of the edge list never has larger degrees.
pub proof fn lemma_deg_take_le(es: Seq<(usize, usize)>, k: int, v: int)
    requires
        0 <= k <= es.len(),
    ensures
        deg(es.take(k), v) <= deg(es, v),
    decreases es.len() - k,
{
    if k == es.len() {
        assert(es.take(k) =~= es);
    } else {
        lemma_take_step(es, k);
        lemma_deg_take_le(es, k + 1, v);
    }
}

/// Cumulative degrees grow with the vertex.
pub proof fn lemma_cumdeg_mono(es: Seq<(usize, usize)>, a: int, b: int)
    requires
        0 <= a <= b,
    ensures
        cumdeg(es, a) <= cumdeg(es, b),
    decreases b,
{
    if a < b {
        lemma_cumdeg_mono(es, a, b - 1);
        lemma_deg_bounds(es, b - 1);
    }
}

proof fn lemma_cumdeg_empty(v: int)
    ensures
        cumdeg(Seq::<(usize, usize)>::empty(), v) == 0,
    decreases v,
{
    if v > 0 {
        lemma_cumdeg_empty(v - 1);
    }
}

proof fn lemma_cumdeg_push(es: Seq<(usize, usize)>, e: (usize, usize), v: int)
    ensures
        cumdeg(es.push(e), v) == cumdeg(es, v) + (if 0 <= e.0 < v {
            1int
        } else {
            0int
        }) + (if 0 <= e.1 < v {
            1int
        } else {
            0int
        }),
    decreases v,
{
    if v <= 0 {
    } else {
        lemma_cumdeg_push(es, e, v - 1);
        assert(es.push(e).drop_last() =~= es);
        assert(es.push(e).last() == e);
        assert(deg(es.push(e), v - 1) == deg(es, v - 1) + (if e.0 == v - 1 {
            1int
        } else {
            0int
        }) + (if e.1 == v - 1 {
            1int
        } else {
            0int
        }));
    }
}

/// When every endpoint lies below `n`, the cumulative degree at `n` is
/// the whole neighbor array: two entries for each edge.
pub proof fn lemma_cumdeg_total(es: Seq<(usize, usize)>, n: int)
    requires
        n >= 0,
        forall|k: int| 0 <= k < es.len() ==> (#[trigger] es[k]).0 < n && es[k].1 < n,
    ensures
        cumdeg(es, n) == 2 * es.len(),
    decreases es.len(),
{
    if es.len() == 0 {
        lemma_cumdeg_empty(n);
        assert(es =~= Seq::<(usize, usize)>::empty());
    } else {
        let es0 = es.drop_last();
        assert(forall|k: int|
            0 <= k < es0.len() ==> (#[trigger] es0[k]).0 < n && es0[k].1 < n) by {
            assert(forall|k: int| 0 <= k < es0.len() ==> es0[k] == es[k]);
        }
        lemma_cumdeg_total(es0, n);
        lemma_cumdeg_push(es0, es.last(), n);
        assert(es0.push(es.last()) =~= es);
    }
}

/// An update outside a block leaves the block unchanged.
pub proof fn lemma_subrange_update_outside(s: Seq<usize>, p: int, x: usize, a: int, b: int)
    requires
        0 <= a <= b <= s.len(),
        0 <= p < s.len(),
        p < a || p >= b,
    ensures
        s.update(p, x).subrange(a, b) == s.subrange(a, b),
{
    assert(s.update(p, x).subrange(a, b) =~= s.subrange(a, b));
}

/// An update just past a block extends the block by the new element.
pub proof fn lemma_subrange_update_push(s: Seq<usize>, p: int, x: usize, a: int)
    requires
        0 <= a <= p < s.len(),
    ensures
        s.update(p, x).subrange(a, p + 1) == s.subrange(a, p).push(x),
{
    assert(s.update(p, x).subrange(a, p + 1) =~= s.subrange(a, p).push(x));
}

} // verus!
