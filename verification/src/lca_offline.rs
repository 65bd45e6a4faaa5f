//! Offline lowest-common-ancestor queries on a rooted tree, answered
//! in one pass over the tree in postorder, folding finished subtrees
//! into their parent's component with a rooted disjoint-set-union. All
//! query pairs must be given up front; answers are then looked up by
//! the pair, ordered smaller vertex first.

use vstd::prelude::*;

use crate::adjacency;
use crate::djsu_rooted::DjsuRooted;
use crate::graph_indexed::GraphIndexed;
use crate::tree_indexed::TreeIndexed;

verus! {

broadcast use vstd::seq_lib::group_seq_properties;

/// The batch asked for the unordered pair `{a, b}`.
pub open spec fn queried(qs: Seq<(usize, usize)>, a: int, b: int) -> bool {
    exists|k: int|
        0 <= k < qs.len() && ((qs[k].0 == a && qs[k].1 == b) || (qs[k].0 == b && qs[k].1 == a))
}

/// The first stored answer for the ordered pair `(a, b)`.
pub open spec fn lookup(rs: Seq<(usize, usize, usize)>, a: int, b: int) -> Option<usize>
    decreases rs.len(),
{
    if rs.len() == 0 {
        None
    } else if rs[0].0 == a && rs[0].1 == b {
        Some(rs[0].2)
    } else {
        lookup(rs.skip(1), a, b)
    }
}

proof fn lemma_lookup_push(rs: Seq<(usize, usize, usize)>, e: (usize, usize, usize))
    ensures
        forall|a: int, b: int|
            #[trigger] lookup(rs.push(e), a, b) == (if lookup(rs, a, b).is_some() {
                lookup(rs, a, b)
            } else if e.0 == a && e.1 == b {
                Some(e.2)
            } else {
                Option::<usize>::None
            }),
{
    assert forall|a: int, b: int| #[trigger] lookup(rs.push(e), a, b) == (if lookup(
        rs,
        a,
        b,
    ).is_some() {
        lookup(rs, a, b)
    } else if e.0 == a && e.1 == b {
        Some(e.2)
    } else {
        Option::<usize>::None
    }) by {
        lemma_lookup_push_one(rs, e, a, b);
    }
}

proof fn lemma_lookup_push_one(rs: Seq<(usize, usize, usize)>, e: (usize, usize, usize), a: int, b: int)
    ensures
        lookup(rs.push(e), a, b) == (if lookup(rs, a, b).is_some() {
            lookup(rs, a, b)
        } else if e.0 == a && e.1 == b {
            Some(e.2)
        } else {
            Option::<usize>::None
        }),
    decreases rs.len(),
{
    if rs.len() == 0 {
        assert(rs.push(e).skip(1) =~= Seq::<(usize, usize, usize)>::empty());
    } else {
        assert(rs.push(e).skip(1) =~= rs.skip(1).push(e));
        lemma_lookup_push_one(rs.skip(1), e, a, b);
    }
}

proof fn lemma_lookup_entry(rs: Seq<(usize, usize, usize)>, a: int, b: int)
    requires
        lookup(rs, a, b).is_some(),
    ensures
        exists|i: int|
            0 <= i < rs.len() && (#[trigger] rs[i]).0 == a && rs[i].1 == b && rs[i].2 == lookup(
                rs,
                a,
                b,
            ).unwrap(),
    decreases rs.len(),
{
    if rs[0].0 == a && rs[0].1 == b {
        assert(rs[0].0 == a && rs[0].1 == b && rs[0].2 == lookup(rs, a, b).unwrap());
    } else {
        lemma_lookup_entry(rs.skip(1), a, b);
        let i = choose|i: int|
            0 <= i < rs.skip(1).len() && (#[trigger] rs.skip(1)[i]).0 == a && rs.skip(1)[i].1 == b
                && rs.skip(1)[i].2 == lookup(rs.skip(1), a, b).unwrap();
        assert(rs[i + 1] == rs.skip(1)[i]);
    }
}

/// A recorded endpoint hit turns into a stored neighbor.
proof fn lemma_nbrseq_complete(es: Seq<(usize, usize)>, k: int, v: int)
    requires
        0 <= k < es.len(),
    ensures
        es[k].0 == v ==> adjacency::nbrseq(es, v).contains(es[k].1),
        es[k].1 == v ==> adjacency::nbrseq(es, v).contains(es[k].0),
    decreases es.len(),
{
    let pre = adjacency::nbrseq(es.drop_last(), v);
    if k == es.len() - 1 {
        if es[k].0 == v {
            assert(adjacency::nbrseq(es, v)[pre.len() as int] == es[k].1);
        }
        if es[k].1 == v {
            assert(adjacency::nbrseq(es, v).last() == es[k].0);
        }
    } else {
        lemma_nbrseq_complete(es.drop_last(), k, v);
        assert(es.drop_last()[k] == es[k]);
        if es[k].0 == v {
            let i = choose|i: int| 0 <= i < pre.len() && pre[i] == es[k].1;
            assert(adjacency::nbrseq(es, v)[i] == es[k].1);
        }
        if es[k].1 == v {
            let i = choose|i: int| 0 <= i < pre.len() && pre[i] == es[k].0;
            assert(adjacency::nbrseq(es, v)[i] == es[k].0);
        }
    }
}

/// A stored neighbor comes from some recorded pair.
proof fn lemma_nbrseq_sound(es: Seq<(usize, usize)>, v: int, x: usize)
    requires
        adjacency::nbrseq(es, v).contains(x),
    ensures
        queried(es, v, x as int),
    decreases es.len(),
{
    let all = adjacency::nbrseq(es, v);
    let pre = adjacency::nbrseq(es.drop_last(), v);
    let i = choose|i: int| 0 <= i < all.len() && all[i] == x;
    if i < pre.len() {
        assert(pre[i] == x);
        lemma_nbrseq_sound(es.drop_last(), v, x);
        let k = choose|k: int|
            0 <= k < es.drop_last().len() && (((#[trigger] es.drop_last()[k]).0 == v
                && es.drop_last()[k].1 == x as int) || (es.drop_last()[k].0 == x as int
                && es.drop_last()[k].1 == v));
        assert(es[k] == es.drop_last()[k]);
    } else {
        let k = es.len() - 1;
        assert((es[k].0 == v && es[k].1 == x) || (es[k].1 == v && es[k].0 == x));
    }
}

/// The answers of one batch of lowest-common-ancestor queries.
pub struct LcaOffline {
    result: Vec<(usize, usize, usize)>,
}

impl LcaOffline {
    /// The stored `(smaller, larger, ancestor)` triples.
    pub closed spec fn entries(self) -> Seq<(usize, usize, usize)> {
        self.result@
    }

    /// Given two vertices, order them smaller first.
    fn order(x: usize, y: usize) -> (r: (usize, usize))
        ensures
            r.0 == (if x < y {
                x
            } else {
                y
            }),
            r.1 == (if x < y {
                y
            } else {
                x
            }),
    {
        if x < y {
            (x, y)
        } else {
            (y, x)
        }
    }

    /// Perform the offline lowest-common-ancestor pass and return the
    /// structure holding the answers: exactly the requested unordered
    /// pairs have one, stored under the smaller-first key.
    pub fn new(tree: &TreeIndexed, queries: &[(usize, usize)]) -> (r: LcaOffline)
        requires
            tree.wf(),
            forall|k: int|
                0 <= k < queries@.len() ==> (#[trigger] queries@[k]).0 < tree.n()
                    && queries@[k].1 < tree.n(),
            queries@.len() <= usize::MAX / 2,
        ensures
            forall|a: int, b: int|
                0 <= a <= b < tree.n() ==> ((#[trigger] lookup(r.entries(), a, b)).is_some()
                    <==> queried(queries@, a, b)),
            forall|a: int, b: int|
                (#[trigger] lookup(r.entries(), a, b)).is_some() ==> 0 <= a <= b < tree.n()
                    && queried(queries@, a, b) && lookup(r.entries(), a, b).unwrap() < tree.n(),
            forall|a: int|
                0 <= a < tree.n() && queried(queries@, a, a) ==> #[trigger] lookup(
                    r.entries(),
                    a,
                    a,
                ) == Some(a as usize),
    {
        let ghost qs = queries@;
        let n = tree.n_vert();
        let qg = GraphIndexed::new(n, queries);
        let order = tree.postorder();
        let mut visited: Vec<bool> = Vec::new();
        let mut z: usize = 0;
        while z < n
            invariant
                z <= n,
                visited@.len() == z,
                forall|x: int| 0 <= x < z ==> !visited@[x],
            decreases n - z,
        {
            visited.push(false);
            z = z + 1;
        }
        let mut djsu = DjsuRooted::new(n);
        let mut result: Vec<(usize, usize, usize)> = Vec::new();
        let mut t: usize = 0;
        while t < order.len()
            invariant
                tree.wf(),
                n == tree.n(),
                qg.wf(),
                qg.n() == n,
                forall|v2: int| 0 <= v2 < n ==> qg.adj(v2) == adjacency::nbrseq(qs, v2),
                order@.len() == n,
                forall|i: int| 0 <= i < n ==> (#[trigger] order@[i]) < n,
                forall|i: int, j: int| 0 <= i < j < n ==> order@[i] != order@[j],
                t <= n,
                visited@.len() == n,
                djsu.wf(),
                djsu.n() == n,
                forall|x: int| 0 <= x < t ==> visited@[order@[x] as int],
                forall|x: int|
                    0 <= x < n && #[trigger] visited@[x] ==> order@.take(t as int).contains(
                        x as usize,
                    ),
                forall|x: int| 0 <= x < n && !visited@[x] ==> djsu.root_of(x) == x,
                forall|i: int|
                    0 <= i < result@.len() ==> (#[trigger] result@[i]).0 <= result@[i].1
                        && result@[i].1 < n && result@[i].2 < n && queried(
                        qs,
                        result@[i].0 as int,
                        result@[i].1 as int,
                    ) && (result@[i].0 == result@[i].1 ==> result@[i].2 == result@[i].0),
                forall|a: int, b: int|
                    0 <= a <= b < n && queried(qs, a, b) && visited@[a] && visited@[b] ==> (
                    #[trigger] lookup(result@, a, b)).is_some(),
            decreases n - t,
        {
            let v = order[t];
            let ghost vis0 = visited@;
            proof {
                assert(!vis0[v as int]) by {
                    if vis0[v as int] {
                        assert(order@.take(t as int).contains(v));
                        let wi = choose|i: int| 0 <= i < t && order@.take(t as int)[i] == v;
                        assert(order@[wi] == order@[t as int]);
                    }
                }
                assert(djsu.root_of(v as int) == v as int);
            }
            visited.set(v, true);
            proof {
                assert(order@.take(t as int + 1) =~= order@.take(t as int).push(v));
                assert forall|x: int|
                    0 <= x < n && #[trigger] visited@[x] implies order@.take(t as int + 1).contains(
                    x as usize,
                ) by {
                    if x != v as int {
                        assert(vis0[x]);
                    }
                }
            }
            let partners = qg.neighbors(v);
            let pn = partners.len();
            proof {
                crate::graph_indexed::lemma_adj_valid(qg, v as int);
            }
            let mut k: usize = 0;
            while k < pn
                invariant
                    k <= pn,
                    tree.wf(),
                    n == tree.n(),
                    v < n,
                    partners@ == adjacency::nbrseq(qs, v as int),
                    pn == partners@.len(),
                    forall|i: int| 0 <= i < pn ==> (#[trigger] partners@[i]) < n,
                    visited@.len() == n,
                    visited@[v as int],
                    djsu.wf(),
                    djsu.n() == n,
                    djsu.root_of(v as int) == v as int,
                    forall|x: int| 0 <= x < n && !visited@[x] ==> djsu.root_of(x) == x,
                    forall|i: int|
                        0 <= i < result@.len() ==> (#[trigger] result@[i]).0 <= result@[i].1
                            && result@[i].1 < n && result@[i].2 < n && queried(
                            qs,
                            result@[i].0 as int,
                            result@[i].1 as int,
                        ) && (result@[i].0 == result@[i].1 ==> result@[i].2 == result@[i].0),
                    forall|a: int, b: int|
                        0 <= a <= b < n && queried(qs, a, b) && visited@[a] && visited@[b] && a
                            != v as int && b != v as int ==> (#[trigger] lookup(
                            result@,
                            a,
                            b,
                        )).is_some(),
                    forall|i: int|
                        0 <= i < k && visited@[(#[trigger] partners@[i]) as int] ==> lookup(
                            result@,
                            if partners@[i] < v {
                                partners@[i] as int
                            } else {
                                v as int
                            },
                            if partners@[i] < v {
                                v as int
                            } else {
                                partners@[i] as int
                            },
                        ).is_some(),
                decreases pn - k,
            {
                let other = partners[k];
                if visited[other] {
                    let anc = djsu.find(other);
                    let pair = LcaOffline::order(v, other);
                    let ghost res0 = result@;
                    result.push((pair.0, pair.1, anc));
                    proof {
                        lemma_lookup_push(res0, (pair.0, pair.1, anc));
                        lemma_nbrseq_sound(qs, v as int, other);
                        assert(queried(qs, pair.0 as int, pair.1 as int));
                        if pair.0 == pair.1 {
                            assert(other == v);
                            assert(anc == v);
                        }
                    }
                } else {
                    proof {
                        assert(partners@[k as int] == other);
                    }
                }
                k = k + 1;
            }
            if v != tree.root() {
                match tree.parent(v) {
                    Some(p) => {
                        let ghost dj0 = djsu;
                        djsu.union(p, v);
                        proof {
                            assert forall|x: int|
                                0 <= x < n && !visited@[x] implies djsu.root_of(x) == x by {
                                if dj0.same_set(x, p as int) || dj0.same_set(x, v as int) {
                                    if dj0.same_set(x, p as int) {
                                        crate::djsu_rooted::lemma_root_of_same_set(
                                            dj0,
                                            x,
                                            p as int,
                                        );
                                    } else {
                                        crate::djsu_rooted::lemma_root_of_same_set(
                                            dj0,
                                            x,
                                            v as int,
                                        );
                                    }
                                }
                            }
                        }
                    },
                    None => {},
                }
            }
            proof {
                assert forall|a: int, b: int|
                    0 <= a <= b < n && queried(qs, a, b) && visited@[a] && visited@[b] implies (
                #[trigger] lookup(result@, a, b)).is_some() by {
                    if a == v as int || b == v as int {
                        let x = if a == v as int {
                            b
                        } else {
                            a
                        };
                        let kq = choose|kq: int|
                            0 <= kq < qs.len() && (((#[trigger] qs[kq]).0 == a && qs[kq].1 == b)
                                || (qs[kq].0 == b && qs[kq].1 == a));
                        lemma_nbrseq_complete(qs, kq, v as int);
                        assert(adjacency::nbrseq(qs, v as int).contains(x as usize));
                        let i = choose|i: int|
                            0 <= i < partners@.len() && partners@[i] == x as usize;
                        assert(visited@[(partners@[i]) as int]);
                    }
                }
            }
            t = t + 1;
        }
        let r = LcaOffline { result };
        proof {
            assert forall|a: int, b: int|
                0 <= a <= b < n && queried(qs, a, b) implies (#[trigger] lookup(
                r.entries(),
                a,
                b,
            )).is_some() by {
                assert(order@.contains((a as usize)));
                let ia = choose|i: int| 0 <= i < order@.len() && order@[i] == a as usize;
                assert(order@.take(n as int) =~= order@);
                assert(visited@[a]);
                assert(order@.contains((b as usize)));
                assert(visited@[b]);
            }
            assert forall|a: int, b: int|
                (#[trigger] lookup(r.entries(), a, b)).is_some() implies 0 <= a <= b < n
                && queried(qs, a, b) && lookup(r.entries(), a, b).unwrap() < n by {
                lemma_lookup_entry(r.entries(), a, b);
            }
            assert forall|a: int|
                0 <= a < n && queried(qs, a, a) implies #[trigger] lookup(r.entries(), a, a)
                    == Some(a as usize) by {
                lemma_lookup_entry(r.entries(), a, a);
            }
        }
        r
    }

    /// Return the stored lowest common ancestor of the two given
    /// vertices; if their unordered pair was not part of the original
    /// batch, return `Err(())`.
    pub fn ancestor(&self, v: usize, u: usize) -> (r: Result<usize, ()>)
        ensures
            ({
                let a = if v < u {
                    v as int
                } else {
                    u as int
                };
                let b = if v < u {
                    u as int
                } else {
                    v as int
                };
                r == match lookup(self.entries(), a, b) {
                    Some(x) => Result::<usize, ()>::Ok(x),
                    None => Result::<usize, ()>::Err(()),
                }
            }),
    {
        let pair = LcaOffline::order(v, u);
        let mut i: usize = 0;
        let len = self.result.len();
        proof {
            assert(self.entries().skip(0) =~= self.entries());
        }
        while i < len
            invariant
                i <= len,
                len == self.entries().len(),
                pair.0 == (if v < u {
                    v
                } else {
                    u
                }),
                pair.1 == (if v < u {
                    u
                } else {
                    v
                }),
                lookup(self.entries(), pair.0 as int, pair.1 as int) == lookup(
                    self.entries().skip(i as int),
                    pair.0 as int,
                    pair.1 as int,
                ),
            decreases len - i,
        {
            let e = self.result[i];
            proof {
                assert(self.entries().skip(i as int)[0] == self.entries()[i as int]);
                assert(self.entries().skip(i as int).skip(1) =~= self.entries().skip(i as int + 1));
            }
            if e.0 == pair.0 && e.1 == pair.1 {
                proof {
                    assert(lookup(self.entries().skip(i as int), pair.0 as int, pair.1 as int)
                        == Some(e.2));
                    assert(lookup(self.entries(), pair.0 as int, pair.1 as int) == Some(e.2));
                    assert(pair.0 as int == (if v < u {
                        v as int
                    } else {
                        u as int
                    }));
                    assert(pair.1 as int == (if v < u {
                        u as int
                    } else {
                        v as int
                    }));
                }
                return Ok(e.2);
            }
            i = i + 1;
        }
        proof {
            assert(self.entries().skip(len as int).len() == 0);
        }
        Err(())
    }
}

} // verus!
