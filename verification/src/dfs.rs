//! Depth-first search over a static graph, run with an explicit work
//! stack so that deep (path-shaped) graphs cannot exhaust the call
//! stack. The search records, for each discovered vertex, the vertex
//! that discovered it, counts the discovered vertices, and raises a
//! flag when it meets an already-discovered neighbor other than the
//! current vertex's parent.

use vstd::prelude::*;

use crate::forest;
use crate::graph_indexed::lemma_adj_valid;
use crate::graph_indexed::GraphIndexed;

verus! {

/// Number of vertices below `m` that the parent map marks as reached:
/// the source, and every vertex whose parent pointer moved off itself.
pub open spec fn count_reached(pm: Seq<usize>, src: int, m: int) -> int
    decreases m,
{
    if m <= 0 {
        0
    } else {
        count_reached(pm, src, m - 1) + (if m - 1 == src || pm[m - 1] != m - 1 {
            1int
        } else {
            0int
        })
    }
}

/// Some frame of the work stack holds vertex `x`.
pub open spec fn in_stack(st: Seq<(usize, usize)>, x: int) -> bool {
    exists|i: int| 0 <= i < st.len() && st[i].0 == x
}

/// Work still to be done: for every frame, its unscanned neighbors plus
/// one step for leaving the stack.
pub open spec fn frames_rem(g: GraphIndexed, st: Seq<(usize, usize)>) -> int
    decreases st.len(),
{
    if st.len() == 0 {
        0
    } else {
        frames_rem(g, st.drop_last()) + (g.adj(st.last().0 as int).len() - st.last().1) + 1
    }
}

proof fn lemma_frames_rem_nonneg(g: GraphIndexed, st: Seq<(usize, usize)>)
    requires
        forall|i: int|
            0 <= i < st.len() ==> (#[trigger] st[i]).1 <= g.adj(st[i].0 as int).len(),
    ensures
        frames_rem(g, st) >= 0,
    decreases st.len(),
{
    if st.len() > 0 {
        lemma_frames_rem_nonneg(g, st.drop_last());
        assert(st[st.len() - 1].1 <= g.adj(st[st.len() - 1].0 as int).len());
    }
}

proof fn lemma_count_reached_update(pm: Seq<usize>, src: int, u: int, v: usize, m: int)
    requires
        0 <= u < pm.len(),
        m <= pm.len(),
        u != src,
        pm[u] == u,
        v != u,
    ensures
        count_reached(pm.update(u, v), src, m) == count_reached(pm, src, m) + (if u < m {
            1int
        } else {
            0int
        }),
    decreases m,
{
    if m > 0 {
        lemma_count_reached_update(pm, src, u, v, m - 1);
    }
}

/// The result of one depth-first search.
pub struct DFS {
    source: usize,
    parent: Vec<usize>,
    cycle_found: bool,
    n_vert_reached: usize,
}

impl DFS {
    /// The source vertex the search started from.
    pub closed spec fn src(self) -> int {
        self.source as int
    }

    /// The parent map: the source and unreached vertices point at
    /// themselves, every other reached vertex at its discoverer.
    pub closed spec fn pmap(self) -> Seq<usize> {
        self.parent@
    }

    /// Number of vertices of the graph searched.
    pub closed spec fn n(self) -> nat {
        self.parent@.len()
    }

    /// Whether the search reached vertex `v`.
    pub open spec fn reached(self, v: int) -> bool {
        v == self.src() || (0 <= v < self.n() && self.pmap()[v] != v)
    }

    /// Whether the search met a non-tree edge.
    pub closed spec fn cycle(self) -> bool {
        self.cycle_found
    }

    /// Internal consistency: the source is a vertex and is its own
    /// parent.
    pub closed spec fn wf(self) -> bool {
        &&& self.source < self.parent@.len()
        &&& self.parent@[self.src()] == self.source
        &&& self.n_vert_reached == count_reached(self.parent@, self.src(), self.parent@.len() as int)
    }

    /// Launch a depth-first search on the given graph and return the
    /// structure holding the results: every vertex reachable from
    /// `source` is explored (the reached set contains `source` and is
    /// closed under adjacency), every reached vertex other than the
    /// source has as parent the reached vertex that discovered it
    /// through an edge, and following parents from any reached vertex
    /// leads to the source.
    #[verifier::rlimit(100)]
    pub fn new(graph: &GraphIndexed, source: usize) -> (r: DFS)
        requires
            graph.wf(),
            source < graph.n(),
        ensures
            r.wf(),
            r.n() == graph.n(),
            r.pmap().len() == graph.n(),
            r.src() == source as int,
            r.reached(source as int),
            forest::wf(r.pmap()),
            r.pmap()[source as int] == source,
            forall|x: int| 0 <= x < r.n() ==> (#[trigger] r.pmap()[x]) < r.n(),
            forall|x: int|
                0 <= x < r.n() ==> forest::rep(r.pmap(), x) == (if r.reached(x) {
                    source as int
                } else {
                    x
                }),
            forall|x: int|
                0 <= x < r.n() && r.reached(x) && x != source as int ==> graph.adj(
                    r.pmap()[x] as int,
                ).contains(x as usize) && r.reached(r.pmap()[x] as int),
            forall|x: int, k: int|
                0 <= x < r.n() && r.reached(x) && 0 <= k < graph.adj(x).len() ==> r.reached(
                    #[trigger] graph.adj(x)[k] as int,
                ),
            forall|v: int|
                0 <= v < r.n() ==> (r.reached(v) <==> crate::graph_indexed::reachable(
                    *graph,
                    source as int,
                    v,
                )),
            r.cycle() ==> exists|x: int, k: int|
                0 <= x < r.n() && r.reached(x) && 0 <= k < graph.adj(x).len() && (
                #[trigger] graph.adj(x)[k]) != r.pmap()[x],
            !r.cycle() ==> forall|x: int, k: int|
                0 <= x < r.n() && r.reached(x) && 0 <= k < graph.adj(x).len() ==> ((
                #[trigger] graph.adj(x)[k]) == r.pmap()[x] || r.pmap()[graph.adj(x)[k] as int]
                    == x),
    {
        let n = graph.n_vert();
        let ghost gr = *graph;
        let mut parent: Vec<usize> = Vec::new();
        let mut i: usize = 0;
        while i < n
            invariant
                i <= n,
                parent@.len() == i,
                forall|w: int| 0 <= w < i ==> parent@[w] == w,
            decreases n - i,
        {
            parent.push(i);
            i = i + 1;
        }
        let mut visited: Vec<bool> = Vec::new();
        let mut j: usize = 0;
        while j < n
            invariant
                j <= n,
                visited@.len() == j,
                forall|w: int| 0 <= w < j ==> !visited@[w],
            decreases n - j,
        {
            visited.push(false);
            j = j + 1;
        }
        visited.set(source, true);
        let mut reached_count: usize = 1;
        let mut cycle = false;
        let mut stack: Vec<(usize, usize)> = Vec::new();
        stack.push((source, 0));
        proof {
            assert forall|x: int| 0 <= x < n && !visited@[x] implies parent@[x] == x by {}
            assert forall|x: int| forest::in_range(parent@, x) implies forest::steps_opt(
                parent@,
                x,
                parent@.len(),
            ) == Some(0nat) by {
                assert(parent@[x] == x);
            }
            lemma_count_first(parent@, source as int, n as int);
            assert(in_stack(stack@, source as int)) by {
                assert(stack@[0].0 == source);
            }
        }

        while stack.len() != 0
            invariant
                graph.wf(),
                gr == *graph,
                n == graph.n(),
                source < n,
                parent@.len() == n,
                visited@.len() == n,
                visited@[source as int],
                parent@[source as int] == source,
                forall|x: int| 0 <= x < n ==> (#[trigger] parent@[x]) < n,
                forall|x: int| 0 <= x < n ==> (visited@[x] || parent@[x] == x),
                forall|x: int|
                    0 <= x < n && x != source as int && parent@[x] != x ==> visited@[x],
                forall|x: int|
                    0 <= x < n && #[trigger] visited@[x] && x != source as int ==> parent@[x]
                        != x,
                forall|x: int|
                    0 <= x < n && #[trigger] visited@[x] ==> visited@[parent@[x] as int],
                forall|x: int|
                    0 <= x < n && #[trigger] visited@[x] ==> forest::steps_opt(
                        parent@,
                        x,
                        n as nat,
                    ).is_some() && forest::steps(parent@, x) < reached_count && forest::rep(
                        parent@,
                        x,
                    ) == source as int,
                forall|x: int|
                    0 <= x < n && !(#[trigger] visited@[x]) ==> forest::steps_opt(
                        parent@,
                        x,
                        n as nat,
                    ) == Some(0nat),
                forall|x: int|
                    0 <= x < n && #[trigger] visited@[x] && x != source as int ==> graph.adj(
                        parent@[x] as int,
                    ).contains(x as usize),
                1 <= reached_count <= n,
                reached_count == count_reached(parent@, source as int, n as int),
                forall|i2: int| 0 <= i2 < stack@.len() ==> (#[trigger] stack@[i2]).0 < n,
                forall|i2: int|
                    0 <= i2 < stack@.len() ==> visited@[(#[trigger] stack@[i2]).0 as int],
                forall|i2: int|
                    0 <= i2 < stack@.len() ==> (#[trigger] stack@[i2]).1 <= graph.adj(
                        stack@[i2].0 as int,
                    ).len(),
                forall|i2: int, j2: int|
                    0 <= i2 < j2 < stack@.len() ==> (#[trigger] stack@[i2]).0 != (
                    #[trigger] stack@[j2]).0,
                forall|i2: int, k: int|
                    0 <= i2 < stack@.len() && 0 <= k < (#[trigger] stack@[i2]).1 ==> visited@[(
                    #[trigger] graph.adj(stack@[i2].0 as int)[k]) as int],
                forall|x: int, k: int|
                    0 <= x < n && visited@[x] && !in_stack(stack@, x) && 0 <= k < graph.adj(
                        x,
                    ).len() ==> visited@[#[trigger] graph.adj(x)[k] as int],
                cycle ==> exists|x: int, k: int|
                    0 <= x < n && visited@[x] && 0 <= k < graph.adj(x).len() && (
                    #[trigger] graph.adj(x)[k]) != parent@[x],
                !cycle ==> (forall|i2: int, k: int|
                    0 <= i2 < stack@.len() && 0 <= k < (#[trigger] stack@[i2]).1 ==> ((
                    #[trigger] graph.adj(stack@[i2].0 as int)[k]) == parent@[stack@[i2].0 as int]
                        || parent@[graph.adj(stack@[i2].0 as int)[k] as int] == stack@[i2].0)),
                !cycle ==> (forall|x: int, k: int|
                    0 <= x < n && visited@[x] && !in_stack(stack@, x) && 0 <= k < graph.adj(
                        x,
                    ).len() ==> ((#[trigger] graph.adj(x)[k]) == parent@[x] || parent@[graph.adj(
                        x,
                    )[k] as int] == x)),
            decreases
                    n - reached_count,
                    frames_rem(*graph, stack@),
        {
            let ghost st0 = stack@;
            let top = stack.len() - 1;
            let (v, idx) = stack[top];
            let nbrs = graph.neighbors(v);
            proof {
                lemma_adj_valid(*graph, v as int);
            }
            if idx < nbrs.len() {
                stack.set(top, (v, idx + 1));
                proof {
                    assert(stack@.drop_last() =~= st0.drop_last());
                    assert(frames_rem(*graph, stack@) == frames_rem(*graph, st0) - 1);
                    lemma_frames_rem_nonneg(*graph, stack@);
                }
                let u = nbrs[idx];
                if !visited[u] {
                    let ghost pm0 = parent@;
                    let ghost vis0 = visited@;
                    proof {
                        lemma_count_reached_missing(pm0, source as int, u as int, n as int);
                    }
                    visited.set(u, true);
                    parent.set(u, v);
                    reached_count = reached_count + 1;
                    stack.push((u, 0));
                    proof {
                        lemma_discover(pm0, vis0, u as int, v, source as int, n as int);
                        lemma_count_reached_update(pm0, source as int, u as int, v, n as int);
                        if cycle {
                            let (xw, kw) = choose|x: int, k: int|
                                0 <= x < n && vis0[x] && 0 <= k < gr.adj(x).len() && (
                                #[trigger] gr.adj(x)[k]) != pm0[x];
                            assert(visited@[xw] && parent@[xw] == pm0[xw]);
                            assert(graph.adj(xw)[kw] != parent@[xw]);
                        }
                        assert forall|i2: int, k: int|
                            0 <= i2 < stack@.len() && 0 <= k < (#[trigger] stack@[i2]).1 implies visited@[(
                            #[trigger] graph.adj(stack@[i2].0 as int)[k]) as int] by {
                            lemma_adj_valid(gr, stack@[i2].0 as int);
                            if i2 == top as int {
                                assert(stack@[i2].0 == v);
                                if k == idx as int {
                                    assert(graph.adj(v as int)[idx as int] == u);
                                } else {
                                    assert(k < st0[i2].1);
                                    assert(vis0[graph.adj(v as int)[k] as int]);
                                }
                            } else if i2 < top as int {
                                assert(stack@[i2] == st0[i2]);
                                assert(vis0[graph.adj(st0[i2].0 as int)[k] as int]);
                            } else {
                                assert(stack@[i2].1 == 0);
                            }
                        }
                        assert forall|x: int, k: int|
                            0 <= x < n && visited@[x] && !in_stack(stack@, x) && 0 <= k
                                < graph.adj(x).len() implies visited@[
                            #[trigger] graph.adj(x)[k] as int] by {
                            if x == u as int {
                                assert(stack@[stack@.len() - 1].0 == u);
                                assert(in_stack(stack@, x));
                            }
                            assert(vis0[x]);
                            assert(!in_stack(st0, x)) by {
                                if in_stack(st0, x) {
                                    let w = choose|i2: int|
                                        0 <= i2 < st0.len() && st0[i2].0 == x;
                                    assert(stack@[w] == st0[w] || w == top as int);
                                    assert(st0[top as int].0 == v);
                                    assert(stack@[top as int].0 == v);
                                    assert(stack@[w].0 == x);
                                    assert(in_stack(stack@, x));
                                }
                            }
                            lemma_adj_valid(gr, x);
                            assert(vis0[graph.adj(x)[k] as int]);
                        }
                        if !cycle {
                            assert forall|i2: int, k: int|
                                0 <= i2 < stack@.len() && 0 <= k < (
                            #[trigger] stack@[i2]).1 implies ((#[trigger] graph.adj(
                                stack@[i2].0 as int,
                            )[k]) == parent@[stack@[i2].0 as int] || parent@[graph.adj(
                                stack@[i2].0 as int,
                            )[k] as int] == stack@[i2].0) by {
                                lemma_adj_valid(gr, stack@[i2].0 as int);
                                if i2 == stack@.len() - 1 {
                                    assert(stack@[i2] == (u, 0usize));
                                } else if i2 == top as int {
                                    assert(stack@[i2].0 == v);
                                    if k == idx as int {
                                        assert(graph.adj(v as int)[idx as int] == u);
                                        assert(parent@[u as int] == v);
                                    } else {
                                        assert(k < st0[i2].1);
                                        assert(vis0[graph.adj(v as int)[k] as int]);
                                        assert(graph.adj(v as int)[k] as int != u as int);
                                        assert(vis0[v as int]);
                                    }
                                } else {
                                    assert(stack@[i2] == st0[i2]);
                                    assert(vis0[graph.adj(st0[i2].0 as int)[k] as int]);
                                    assert(vis0[st0[i2].0 as int]);
                                }
                            }
                            assert forall|x: int, k: int|
                                0 <= x < n && visited@[x] && !in_stack(stack@, x) && 0 <= k
                                    < graph.adj(x).len() implies ((#[trigger] graph.adj(x)[k])
                                == parent@[x] || parent@[graph.adj(x)[k] as int] == x) by {
                                if x == u as int {
                                    assert(stack@[stack@.len() - 1].0 == u);
                                    assert(in_stack(stack@, x));
                                }
                                assert(vis0[x]);
                                assert(!in_stack(st0, x)) by {
                                    if in_stack(st0, x) {
                                        let w = choose|i2: int|
                                            0 <= i2 < st0.len() && st0[i2].0 == x;
                                        assert(stack@[w] == st0[w] || w == top as int);
                                        assert(st0[top as int].0 == v);
                                        assert(stack@[top as int].0 == v);
                                        assert(stack@[w].0 == x);
                                        assert(in_stack(stack@, x));
                                    }
                                }
                                lemma_adj_valid(gr, x);
                                assert(vis0[graph.adj(x)[k] as int]);
                            }
                        }
                        assert forall|x: int|
                            0 <= x < n && #[trigger] visited@[x] && x != source as int implies graph
                            .adj(parent@[x] as int).contains(x as usize) by {
                            if x == u as int {
                                assert(graph.adj(v as int)[idx as int] == u);
                            }
                        }
                    }
                } else {
                    if u != parent[v] {
                        cycle = true;
                        proof {
                            assert(graph.adj(v as int)[idx as int] == u);
                            assert(visited@[v as int] && graph.adj(v as int)[idx as int]
                                != parent@[v as int]);
                        }
                    }
                    proof {
                        assert forall|i2: int, k: int|
                            0 <= i2 < stack@.len() && 0 <= k < (#[trigger] stack@[i2]).1 implies visited@[(
                            #[trigger] graph.adj(stack@[i2].0 as int)[k]) as int] by {
                            if i2 == top as int {
                                assert(stack@[i2].0 == v);
                                if k == idx as int {
                                    assert(graph.adj(v as int)[idx as int] == u);
                                } else {
                                    assert(k < st0[i2].1);
                                }
                            } else {
                                assert(stack@[i2] == st0[i2]);
                            }
                        }
                        assert forall|x: int, k: int|
                            0 <= x < n && visited@[x] && !in_stack(stack@, x) && 0 <= k
                                < graph.adj(x).len() implies visited@[
                            #[trigger] graph.adj(x)[k] as int] by {
                            assert(!in_stack(st0, x)) by {
                                if in_stack(st0, x) {
                                    let w = choose|i2: int|
                                        0 <= i2 < st0.len() && st0[i2].0 == x;
                                    assert(stack@[w] == st0[w] || w == top as int);
                                    assert(st0[top as int].0 == v);
                                    assert(stack@[top as int].0 == v);
                                    assert(stack@[w].0 == x);
                                    assert(in_stack(stack@, x));
                                }
                            }
                            lemma_adj_valid(gr, x);
                        }
                        if !cycle {
                            assert(u == parent@[v as int]);
                            assert forall|i2: int, k: int|
                                0 <= i2 < stack@.len() && 0 <= k < (
                            #[trigger] stack@[i2]).1 implies ((#[trigger] graph.adj(
                                stack@[i2].0 as int,
                            )[k]) == parent@[stack@[i2].0 as int] || parent@[graph.adj(
                                stack@[i2].0 as int,
                            )[k] as int] == stack@[i2].0) by {
                                lemma_adj_valid(gr, stack@[i2].0 as int);
                                if i2 == top as int {
                                    assert(stack@[i2].0 == v);
                                    if k == idx as int {
                                        assert(graph.adj(v as int)[idx as int] == u);
                                    } else {
                                        assert(k < st0[i2].1);
                                    }
                                } else {
                                    assert(stack@[i2] == st0[i2]);
                                }
                            }
                            assert forall|x: int, k: int|
                                0 <= x < n && visited@[x] && !in_stack(stack@, x) && 0 <= k
                                    < graph.adj(x).len() implies ((#[trigger] graph.adj(x)[k])
                                == parent@[x] || parent@[graph.adj(x)[k] as int] == x) by {
                                assert(!in_stack(st0, x)) by {
                                    if in_stack(st0, x) {
                                        let w = choose|i2: int|
                                            0 <= i2 < st0.len() && st0[i2].0 == x;
                                        assert(stack@[w] == st0[w] || w == top as int);
                                        assert(st0[top as int].0 == v);
                                        assert(stack@[top as int].0 == v);
                                        assert(stack@[w].0 == x);
                                        assert(in_stack(stack@, x));
                                    }
                                }
                            }
                        }
                    }
                }
            } else {
                let popped = stack.pop();
                proof {
                    assert(stack@ =~= st0.drop_last());
                    assert(frames_rem(*graph, stack@) == frames_rem(*graph, st0) - 1);
                    lemma_frames_rem_nonneg(*graph, stack@);
                    assert forall|x: int, k: int|
                        0 <= x < n && visited@[x] && !in_stack(stack@, x) && 0 <= k < graph.adj(
                            x,
                        ).len() implies visited@[#[trigger] graph.adj(x)[k] as int] by {
                        lemma_adj_valid(gr, x);
                        if x == v as int {
                            assert(st0[top as int].1 <= graph.adj(x).len());
                            assert(visited@[graph.adj(x)[k] as int]);
                        } else {
                            assert(!in_stack(st0, x)) by {
                                if in_stack(st0, x) {
                                    let w = choose|i2: int|
                                        0 <= i2 < st0.len() && st0[i2].0 == x;
                                    assert(w != st0.len() - 1);
                                    assert(stack@[w].0 == x);
                                    assert(in_stack(stack@, x));
                                }
                            }
                        }
                    }
                    if !cycle {
                        assert forall|x: int, k: int|
                            0 <= x < n && visited@[x] && !in_stack(stack@, x) && 0 <= k
                                < graph.adj(x).len() implies ((#[trigger] graph.adj(x)[k])
                            == parent@[x] || parent@[graph.adj(x)[k] as int] == x) by {
                            lemma_adj_valid(gr, x);
                            if x == v as int {
                                assert(st0[top as int].0 == v && st0[top as int].1 == idx);
                                assert(k < st0[top as int].1);
                            } else {
                                assert(!in_stack(st0, x)) by {
                                    if in_stack(st0, x) {
                                        let w = choose|i2: int|
                                            0 <= i2 < st0.len() && st0[i2].0 == x;
                                        assert(w != st0.len() - 1);
                                        assert(stack@[w].0 == x);
                                        assert(in_stack(stack@, x));
                                    }
                                }
                            }
                        }
                        assert forall|i2: int, k: int|
                            0 <= i2 < stack@.len() && 0 <= k < (
                        #[trigger] stack@[i2]).1 implies ((#[trigger] graph.adj(
                            stack@[i2].0 as int,
                        )[k]) == parent@[stack@[i2].0 as int] || parent@[graph.adj(
                            stack@[i2].0 as int,
                        )[k] as int] == stack@[i2].0) by {
                            assert(stack@[i2] == st0[i2]);
                        }
                    }
                }
            }
        }
        let dfs = DFS { source, parent, cycle_found: cycle, n_vert_reached: reached_count };
        proof {
            assert forall|x: int| 0 <= x < n implies dfs.reached(x) == visited@[x] by {}
            assert forall|x: int, k: int|
                0 <= x < n && dfs.reached(x) && 0 <= k < graph.adj(x).len() implies dfs.reached(
                    #[trigger] graph.adj(x)[k] as int,
                ) by {
                lemma_adj_valid(gr, x);
                assert(!in_stack(stack@, x));
                assert(visited@[graph.adj(x)[k] as int]);
            }
            assert(forest::wf(dfs.pmap())) by {
                assert forall|x: int| forest::in_range(dfs.pmap(), x) implies forest::steps_opt(
                    dfs.pmap(),
                    x,
                    dfs.pmap().len(),
                ).is_some() by {
                    assert(visited@[x] || parent@[x] == x);
                }
            }
            if !cycle {
                assert forall|x: int, k: int|
                    0 <= x < n && dfs.reached(x) && 0 <= k < gr.adj(x).len() implies ((
                #[trigger] gr.adj(x)[k]) == dfs.pmap()[x] || dfs.pmap()[gr.adj(x)[k] as int]
                    == x) by {
                    assert(visited@[x]);
                    assert(!in_stack(stack@, x));
                }
            }
            if cycle {
                let (xw, kw) = choose|x: int, k: int|
                    0 <= x < n && visited@[x] && 0 <= k < gr.adj(x).len() && (
                    #[trigger] gr.adj(x)[k]) != parent@[x];
                assert(dfs.reached(xw));
                assert(gr.adj(xw)[kw] != dfs.pmap()[xw]);
            }
            assert forall|v: int| 0 <= v < n implies (dfs.reached(v)
                <==> crate::graph_indexed::reachable(gr, source as int, v)) by {
                if dfs.reached(v) {
                    assert forall|s: Set<int>|
                        crate::graph_indexed::closed_set(gr, s) && s.contains(
                            source as int,
                        ) implies s.contains(v) by {
                        lemma_chain_in_closed(gr, dfs.pmap(), source as int, s, v as usize);
                    }
                    assert(crate::graph_indexed::reachable(gr, source as int, v));
                } else {
                    let rs = Set::new(|x: int| 0 <= x < n && dfs.reached(x));
                    assert(crate::graph_indexed::closed_set(gr, rs)) by {
                        assert forall|x: int, k2: int|
                            rs.contains(x) && 0 <= x < gr.n() && 0 <= k2 < gr.adj(
                                x,
                            ).len() implies rs.contains(#[trigger] gr.adj(x)[k2] as int) by {
                            assert(dfs.reached(x));
                            lemma_adj_valid(gr, x);
                            assert(visited@[gr.adj(x)[k2] as int]);
                        }
                    }
                    assert(rs.contains(source as int));
                    assert(!rs.contains(v));
                    assert(!crate::graph_indexed::reachable(gr, source as int, v));
                }
            }
            assert forall|x: int| 0 <= x < n implies forest::rep(dfs.pmap(), x) == (
            if dfs.reached(x) {
                source as int
            } else {
                x
            }) by {
                if !dfs.reached(x) {
                    forest::lemma_rep_of_root(dfs.pmap(), x);
                }
            }
        }
        dfs
    }

    /// Return the source vertex.
    pub fn source(&self) -> (r: usize)
        ensures
            r == self.src(),
    {
        self.source
    }

    /// If the given vertex was reached and is not the source, return
    /// the vertex that discovered it; otherwise return `None`.
    pub fn parent(&self, node: usize) -> (r: Option<usize>)
        requires
            self.wf(),
            node < self.n(),
        ensures
            r == (if self.reached(node as int) && node as int != self.src() {
                Some(self.pmap()[node as int])
            } else {
                Option::<usize>::None
            }),
    {
        if self.parent[node] == node {
            None
        } else {
            Some(self.parent[node])
        }
    }

    /// Return `true` if the given vertex was reached; the source always
    /// was.
    pub fn is_reached(&self, node: usize) -> (r: bool)
        requires
            node < self.n(),
        ensures
            r == self.reached(node as int),
    {
        (node == self.source) || (self.parent[node] != node)
    }

    /// Return `true` if the search met an already-discovered neighbor
    /// other than the current vertex's parent: on a graph that is a
    /// tree around the source this never happens.
    pub fn cycle_found(&self) -> (r: bool)
        ensures
            r == self.cycle(),
    {
        self.cycle_found
    }

    /// Number of vertices reached, the source included.
    pub fn n_vert_reached(&self) -> (r: usize)
        requires
            self.wf(),
        ensures
            r == count_reached(self.pmap(), self.src(), self.n() as int),
    {
        self.n_vert_reached
    }
}

proof fn lemma_count_first(pm: Seq<usize>, src: int, m: int)
    requires
        0 <= src < pm.len(),
        m <= pm.len(),
        forall|x: int| 0 <= x < pm.len() ==> pm[x] == x,
    ensures
        count_reached(pm, src, m) == (if src < m {
            1int
        } else {
            0int
        }),
    decreases m,
{
    if m > 0 {
        lemma_count_first(pm, src, m - 1);
    }
}

proof fn lemma_count_reached_le(pm: Seq<usize>, src: int, m: int)
    requires
        m >= 0,
    ensures
        0 <= count_reached(pm, src, m) <= m,
    decreases m,
{
    if m > 0 {
        lemma_count_reached_le(pm, src, m - 1);
    }
}

/// A full count means every vertex was reached.
pub proof fn lemma_count_reached_all(pm: Seq<usize>, src: int, m: int)
    requires
        0 <= m <= pm.len(),
        count_reached(pm, src, m) >= m,
    ensures
        forall|v: int| 0 <= v < m ==> (v == src || pm[v] != v),
    decreases m,
{
    if m > 0 {
        lemma_count_reached_le(pm, src, m - 1);
        lemma_count_reached_all(pm, src, m - 1);
    }
}

proof fn lemma_count_reached_missing(pm: Seq<usize>, src: int, u: int, m: int)
    requires
        0 <= u < m,
        u != src,
        pm[u] == u,
    ensures
        count_reached(pm, src, m) <= m - 1,
    decreases m,
{
    if u == m - 1 {
        lemma_count_reached_le(pm, src, m - 1);
    } else {
        lemma_count_reached_missing(pm, src, u, m - 1);
    }
}

/// Discovering `u` from the already-reached `v` keeps every reached
/// vertex's chain to the source intact and hangs `u`'s chain below
/// `v`'s.
proof fn lemma_discover(pm: Seq<usize>, vis: Seq<bool>, u: int, v: usize, src: int, n: int)
    requires
        pm.len() == n,
        vis.len() == n,
        0 <= u < n,
        0 <= (v as int) < n,
        !vis[u],
        vis[v as int],
        u != src,
        0 <= src < n,
        pm[src] == src,
        forall|x: int| 0 <= x < n ==> (#[trigger] pm[x]) < n,
        forall|x: int| 0 <= x < n && !(#[trigger] vis[x]) ==> pm[x] == x,
        forall|x: int| 0 <= x < n && #[trigger] vis[x] ==> vis[pm[x] as int],
        forall|x: int|
            0 <= x < n && #[trigger] vis[x] ==> forest::steps_opt(pm, x, n as nat).is_some()
                && forest::steps(pm, x) < n && forest::rep(pm, x) == src,
    ensures
        ({
            let pm2 = pm.update(u, v);
            let vis2 = vis.update(u, true);
            &&& forall|x: int|
                0 <= x < n && #[trigger] vis[x] ==> forest::steps_opt(pm2, x, n as nat)
                    == forest::steps_opt(pm, x, n as nat) && forest::rep(pm2, x) == forest::rep(
                    pm,
                    x,
                )
            &&& forest::steps_opt(pm2, u, n as nat).is_some()
            &&& forest::rep(pm2, u) == src
            &&& forall|x: int| 0 <= x < n && #[trigger] vis2[x] ==> vis2[pm2[x] as int]
            &&& forall|x: int| 0 <= x < n && !(#[trigger] vis2[x]) ==> forest::steps_opt(
                pm2,
                x,
                n as nat,
            ) == Some(0nat)
            &&& forest::steps(pm2, u) == forest::steps(pm, v as int) + 1
        }),
{
    let pm2 = pm.update(u, v);
    let vis2 = vis.update(u, true);
    assert forall|x: int| 0 <= x < n && #[trigger] vis[x] implies forest::steps_opt(
        pm2,
        x,
        n as nat,
    ) == forest::steps_opt(pm, x, n as nat) && forest::rep(pm2, x) == forest::rep(pm, x) by {
        lemma_untouched(pm, vis, u, v, x, n);
    }
    let dv = forest::steps(pm, v as int);
    assert(vis[v as int]);
    assert(forest::steps_opt(pm2, v as int, n as nat) == Some(dv));
    forest::lemma_steps_fuel(pm2, v as int, n as nat, (n - 1) as nat);
    assert(pm2[u] == v && v as int != u);
    assert(forest::steps_opt(pm2, u, n as nat) == Some((dv + 1) as nat));
    forest::lemma_chase_root(pm2, v as int, (n - 1) as nat, (n - 1) as nat);
    forest::lemma_chase_root(pm2, v as int, (n - 1) as nat, n as nat);
    assert(forest::chase(pm2, u, n as nat) == forest::chase(pm2, v as int, (n - 1) as nat));
    assert(forest::rep(pm2, u) == forest::rep(pm2, v as int));
    assert forall|x: int| 0 <= x < n && !(#[trigger] vis2[x]) implies forest::steps_opt(
        pm2,
        x,
        n as nat,
    ) == Some(0nat) by {
        assert(pm2[x] == pm[x] && pm[x] == x);
    }
}

/// A chain that runs through discovered vertices only is untouched by
/// hooking an undiscovered vertex into the forest.
proof fn lemma_untouched(pm: Seq<usize>, vis: Seq<bool>, u: int, v: usize, x: int, n: int)
    requires
        pm.len() == n,
        vis.len() == n,
        0 <= u < n,
        !vis[u],
        0 <= x < n,
        vis[x],
        forall|y: int| 0 <= y < n ==> (#[trigger] pm[y]) < n,
        forall|y: int| 0 <= y < n && #[trigger] vis[y] ==> vis[pm[y] as int],
        forall|y: int|
            0 <= y < n && #[trigger] vis[y] ==> forest::steps_opt(pm, y, n as nat).is_some(),
    ensures
        forest::steps_opt(pm.update(u, v), x, n as nat) == forest::steps_opt(pm, x, n as nat),
        forest::chase(pm.update(u, v), x, n as nat) == forest::chase(pm, x, n as nat),
    decreases forest::steps_opt(pm, x, n as nat).unwrap(),
{
    let pm2 = pm.update(u, v);
    assert(x != u);
    if pm[x] == x {
        assert(pm2[x] == x);
    } else {
        let d = forest::steps_opt(pm, x, n as nat).unwrap();
        forest::lemma_steps_le_fuel(pm, x, n as nat);
        assert(forest::steps_opt(pm, pm[x] as int, (n - 1) as nat) == Some((d - 1) as nat));
        forest::lemma_steps_fuel(pm, pm[x] as int, (n - 1) as nat, n as nat);
        lemma_untouched(pm, vis, u, v, pm[x] as int, n);
        forest::lemma_steps_fuel(pm2, pm[x] as int, n as nat, (n - 1) as nat);
        assert(pm2[x] == pm[x]);
        assert(forest::steps_opt(pm2, x, n as nat) == Some(d));
        forest::lemma_chase_root(pm2, pm[x] as int, (n - 1) as nat, (n - 1) as nat);
        forest::lemma_chase_root(pm2, pm[x] as int, (n - 1) as nat, n as nat);
        forest::lemma_chase_root(pm, pm[x] as int, (n - 1) as nat, (n - 1) as nat);
        forest::lemma_chase_root(pm, pm[x] as int, (n - 1) as nat, n as nat);
        assert(forest::chase(pm2, x, n as nat) == forest::chase(pm2, pm[x] as int, (n - 1) as nat));
        assert(forest::chase(pm, x, n as nat) == forest::chase(pm, pm[x] as int, (n - 1) as nat));
    }
}

/// A reached vertex's parent chain walks through edges, so any
/// adjacency-closed set holding the source holds the vertex.
proof fn lemma_chain_in_closed(g: GraphIndexed, pm: Seq<usize>, src: int, s: Set<int>, v: usize)
    requires
        pm.len() == g.n(),
        0 <= src < pm.len(),
        pm[src] == src,
        forest::wf(pm),
        crate::graph_indexed::closed_set(g, s),
        s.contains(src),
        (v as int) < pm.len(),
        v as int == src || pm[v as int] != v,
        forall|x: int| 0 <= x < pm.len() ==> (#[trigger] pm[x]) < pm.len(),
        forall|x: int|
            0 <= x < pm.len() && x != src && (#[trigger] pm[x]) != x ==> g.adj(
                pm[x] as int,
            ).contains(x as usize) && (pm[x] as int == src || pm[pm[x] as int] != pm[x]),
    ensures
        s.contains(v as int),
    decreases forest::steps(pm, v as int),
{
    if v as int == src {
    } else {
        forest::lemma_rep_basics(pm, v as int);
        lemma_chain_in_closed(g, pm, src, s, pm[v as int]);
        assert(g.adj(pm[v as int] as int).contains(v));
        let k = choose|k: int|
            0 <= k < g.adj(pm[v as int] as int).len() && g.adj(pm[v as int] as int)[k] == v;
        assert(g.adj(pm[v as int] as int)[k] as int == v as int);
        assert(s.contains(g.adj(pm[v as int] as int)[k] as int));
    }
}

} // verus!
