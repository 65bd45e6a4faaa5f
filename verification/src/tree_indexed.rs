//! An integer-indexed rooted tree, built from a static graph by
//! checking — via depth-first search and a validation pass — that the
//! graph really is a tree around the chosen root. Children lists are
//! stored compactly, one block per vertex.

use vstd::prelude::*;

use crate::dfs::DFS;
use crate::forest;
use crate::graph_indexed::GraphIndexed;

verus! {

broadcast use vstd::seq_lib::group_seq_properties;

/// How many entries of `s` are true.
pub open spec fn count_true(s: Seq<bool>, m: int) -> int
    decreases m,
{
    if m <= 0 {
        0
    } else {
        count_true(s, m - 1) + (if s[m - 1] {
            1int
        } else {
            0int
        })
    }
}

pub proof fn lemma_count_true_le(s: Seq<bool>, m: int)
    requires
        m >= 0,
    ensures
        0 <= count_true(s, m) <= m,
    decreases m,
{
    if m > 0 {
        lemma_count_true_le(s, m - 1);
    }
}

pub proof fn lemma_count_true_set(s: Seq<bool>, u: int, m: int)
    requires
        0 <= u < s.len(),
        m <= s.len(),
        !s[u],
    ensures
        count_true(s.update(u, true), m) == count_true(s, m) + (if u < m {
            1int
        } else {
            0int
        }),
    decreases m,
{
    if m > 0 {
        lemma_count_true_set(s, u, m - 1);
    }
}

/// The children block a vertex collects from its neighbor list: every
/// neighbor except copies of the given parent vertex; with `keep_all`
/// (used for the root, which has no parent) nothing is dropped.
pub open spec fn child_entries(a: Seq<usize>, keep_all: bool, p: usize) -> Seq<usize>
    decreases a.len(),
{
    if a.len() == 0 {
        Seq::empty()
    } else {
        child_entries(a.drop_last(), keep_all, p) + (if keep_all || a.last() != p {
            seq![a.last()]
        } else {
            Seq::empty()
        })
    }
}

/// The integer-indexed rooted tree.
pub struct TreeIndexed {
    root: usize,
    offset: Vec<usize>,
    children: Vec<usize>,
    parent: Vec<usize>,
}

impl TreeIndexed {
    /// Number of vertices.
    pub closed spec fn n(self) -> nat {
        self.offset@.len()
    }

    /// The root vertex.
    pub closed spec fn root_spec(self) -> int {
        self.root as int
    }

    /// The parent map; the root points at itself.
    pub closed spec fn pmap(self) -> Seq<usize> {
        self.parent@
    }

    /// The parent of `v`: the parent map read at `v`.
    pub open spec fn parent_of(self, v: int) -> int {
        self.pmap()[v] as int
    }

    spec fn seg_start(self, v: int) -> int {
        self.offset@[v] as int
    }

    spec fn seg_end(self, v: int) -> int {
        if v + 1 < self.offset@.len() {
            self.offset@[v + 1] as int
        } else {
            self.children@.len() as int
        }
    }

    /// The children of `v`, in their stored order.
    pub closed spec fn childs(self, v: int) -> Seq<usize> {
        self.children@.subrange(self.seg_start(v), self.seg_end(v))
    }

    /// Internal consistency: a parent forest whose every chain ends at
    /// the root, and children blocks that list every non-root vertex
    /// exactly once, each inside its parent's block.
    pub closed spec fn wf(self) -> bool {
        let n = self.offset@.len() as int;
        &&& self.root < n
        &&& self.parent@.len() == n
        &&& self.children@.len() == n - 1
        &&& (forall|v: int|
            0 <= v && v + 1 < n ==> (#[trigger] self.offset@[v]) <= self.offset@[v + 1])
        &&& (forall|v: int| 0 <= v < n ==> (#[trigger] self.offset@[v]) <= self.children@.len())
        &&& (n > 0 ==> self.offset@[0] == 0)
        &&& self.parent@[self.root as int] == self.root
        &&& (forall|v: int| 0 <= v < n ==> (#[trigger] self.parent@[v]) < n)
        &&& (forall|v: int|
            0 <= v < n && v != self.root as int ==> (#[trigger] self.parent@[v]) != v)
        &&& forest::wf(self.parent@)
        &&& (forall|v: int| 0 <= v < n ==> forest::rep(self.parent@, v) == self.root as int)
        &&& (forall|i: int|
            0 <= i < self.children@.len() ==> (#[trigger] self.children@[i]) < n)
        &&& (forall|i: int|
            0 <= i < self.children@.len() ==> (#[trigger] self.children@[i]) != self.root)
        &&& (forall|i: int, j: int|
            0 <= i < j < self.children@.len() ==> (#[trigger] self.children@[i]) != (
            #[trigger] self.children@[j]))
        &&& (forall|v: int, k: int|
            0 <= v < n && 0 <= k < self.childs(v).len() ==> self.parent@[(
            #[trigger] self.childs(v)[k]) as int] == v)
        &&& (forall|c: int|
            0 <= c < n && c != self.root as int ==> self.children@.contains(#[trigger] (
            c as usize)))
    }

    /// Return the root vertex.
    pub fn root(&self) -> (r: usize)
        ensures
            r == self.root_spec(),
    {
        self.root
    }

    /// Return the number of vertices.
    pub fn n_vert(&self) -> (r: usize)
        ensures
            r == self.n(),
    {
        self.offset.len()
    }

    /// Return the number of edges: one fewer than the vertices.
    pub fn n_edges(&self) -> (r: usize)
        requires
            self.wf(),
        ensures
            r + 1 == self.n(),
    {
        self.children.len()
    }

    /// Return the children of the given vertex as one block, in
    /// unspecified order.
    pub fn children(&self, node: usize) -> (r: &[usize])
        requires
            self.wf(),
            node < self.n(),
        ensures
            r@ == self.childs(node as int),
    {
        let start = self.offset[node];
        if node < self.offset.len() - 1 {
            let end = self.offset[node + 1];
            &self.children[start..end]
        } else {
            let end = self.children.len();
            &self.children[start..end]
        }
    }

    /// Return the parent of the given vertex, `None` for the root.
    pub fn parent(&self, node: usize) -> (r: Option<usize>)
        requires
            self.wf(),
            node < self.n(),
        ensures
            r == (if node as int == self.root_spec() {
                Option::<usize>::None
            } else {
                Some(self.pmap()[node as int])
            }),
            node as int != self.root_spec() ==> self.pmap()[node as int] < self.n(),
    {
        if node == self.root {
            None
        } else {
            Some(self.parent[node])
        }
    }

    /// If the graph is a tree, return it rooted at `root`; otherwise —
    /// a cycle is reachable from `root`, some vertex is not, the edge
    /// count is off, or the children found do not pair up with the
    /// parent map — return `Err(())`.
    #[verifier::rlimit(100)]
    pub fn new(graph: &GraphIndexed, root: usize) -> (r: Result<TreeIndexed, ()>)
        requires
            graph.wf(),
            root < graph.n(),
        ensures
            r.is_ok() ==> r.unwrap().wf(),
            r.is_ok() ==> r.unwrap().n() == graph.n(),
            r.is_ok() ==> r.unwrap().root_spec() == root as int,
            r.is_ok() ==> graph.n_dir() == 2 * (graph.n() - 1),
            r.is_ok() ==> forall|v: int|
                0 <= v < graph.n() ==> crate::graph_indexed::reachable(*graph, root as int, v),
            r.is_ok() ==> forall|v: int|
                0 <= v < graph.n() && v != root as int ==> graph.adj(
                    r.unwrap().parent_of(v),
                ).contains(v as usize),
            r.is_ok() ==> forall|w: int|
                0 <= w < graph.n() ==> r.unwrap().childs(w) == child_entries(
                    graph.adj(w),
                    w == root as int,
                    r.unwrap().pmap()[w],
                ),
            r.is_ok() ==> forall|x: int, k: int|
                0 <= x < graph.n() && 0 <= k < graph.adj(x).len() ==> ((
                #[trigger] graph.adj(x)[k]) == r.unwrap().pmap()[x] || r.unwrap().pmap()[graph.adj(
                    x,
                )[k] as int] == x),
    {
        let n = graph.n_vert();
        let dfs = DFS::new(graph, root);
        if dfs.cycle_found() {
            return Err(());
        }
        if dfs.n_vert_reached() < n {
            return Err(());
        }
        let ne = graph.n_edges();
        if ne != n - 1 {
            return Err(());
        }
        proof {
            crate::dfs::lemma_count_reached_all(dfs.pmap(), root as int, n as int);
        }
        let ghost pm = dfs.pmap();
        let mut parent: Vec<usize> = Vec::new();
        let mut v: usize = 0;
        while v < n
            invariant
                v <= n,
                n == dfs.n(),
                dfs.wf(),
                root < n,
                dfs.src() == root as int,
                pm == dfs.pmap(),
                pm.len() == n,
                pm[root as int] == root,
                forall|x: int| 0 <= x < n ==> dfs.reached(x),
                parent@.len() == v,
                forall|x: int| 0 <= x < v ==> parent@[x] == pm[x],
            decreases n - v,
        {
            match dfs.parent(v) {
                Some(p) => parent.push(p),
                None => parent.push(v),
            }
            v = v + 1;
        }
        proof {
            assert(parent@ =~= dfs.pmap());
        }

        let mut offset: Vec<usize> = Vec::new();
        let mut children: Vec<usize> = Vec::new();
        let mut w: usize = 0;
        while w < n
            invariant
                w <= n,
                n == graph.n(),
                graph.wf(),
                parent@.len() == n,
                root < n,
                offset@.len() == w,
                forall|x: int| 0 <= x < w ==> (#[trigger] offset@[x]) <= children@.len(),
                forall|x: int|
                    0 <= x && x + 1 < w ==> (#[trigger] offset@[x]) <= offset@[x + 1],
                w > 0 ==> offset@[0] == 0,
                w == 0 ==> children@.len() == 0,
                forall|i: int| 0 <= i < children@.len() ==> (#[trigger] children@[i]) < n,
                forall|w2: int|
                    0 <= w2 < w ==> children@.subrange(
                        (#[trigger] offset@[w2]) as int,
                        if w2 + 1 < w {
                            offset@[w2 + 1] as int
                        } else {
                            children@.len() as int
                        },
                    ) == child_entries(graph.adj(w2), w2 == root as int, parent@[w2]),
            decreases n - w,
        {
            offset.push(children.len());
            proof {
                assert(graph.adj(w as int).take(0) =~= Seq::<usize>::empty());
                assert(children@.subrange(children@.len() as int, children@.len() as int)
                    =~= Seq::<usize>::empty());
            }
            let nbrs = graph.neighbors(w);
            proof {
                crate::graph_indexed::lemma_adj_valid(*graph, w as int);
            }
            let mut k: usize = 0;
            while k < nbrs.len()
                invariant
                    k <= nbrs@.len(),
                    n == graph.n(),
                    graph.wf(),
                    w < n,
                    nbrs@ == graph.adj(w as int),
                    parent@.len() == n,
                    root < n,
                    offset@.len() == w + 1,
                    offset@[0] == 0,
                    forall|x: int|
                        0 <= x < offset@.len() ==> (#[trigger] offset@[x]) <= children@.len(),
                    forall|x: int|
                        0 <= x && x + 1 < offset@.len() ==> (#[trigger] offset@[x]) <= offset@[x
                            + 1],
                    forall|i: int| 0 <= i < children@.len() ==> (#[trigger] children@[i]) < n,
                    children@.subrange(offset@[w as int] as int, children@.len() as int)
                        == child_entries(nbrs@.take(k as int), w == root, parent@[w as int]),
                    forall|w2: int|
                        0 <= w2 < w ==> children@.subrange(
                            (#[trigger] offset@[w2]) as int,
                            offset@[w2 + 1] as int,
                        ) == child_entries(graph.adj(w2), w2 == root as int, parent@[w2]),
                decreases nbrs@.len() - k,
            {
                proof {
                    crate::graph_indexed::lemma_adj_valid(*graph, w as int);
                }
                let u = nbrs[k];
                let ghost ch0 = children@;
                if !(w != root && parent[w] == u) {
                    children.push(u);
                }
                k = k + 1;
                proof {
                    assert(nbrs@.take(k as int).drop_last() =~= nbrs@.take(k as int - 1));
                    assert(nbrs@.take(k as int).last() == u);
                    if !(w != root && parent@[w as int] == u) {
                        assert(children@.subrange(
                            offset@[w as int] as int,
                            children@.len() as int,
                        ) =~= ch0.subrange(offset@[w as int] as int, ch0.len() as int).push(u));
                        assert(child_entries(nbrs@.take(k as int), w == root, parent@[w as int])
                            =~= child_entries(
                            nbrs@.take(k as int - 1),
                            w == root,
                            parent@[w as int],
                        ).push(u));
                    } else {
                        assert(child_entries(nbrs@.take(k as int), w == root, parent@[w as int])
                            =~= child_entries(
                            nbrs@.take(k as int - 1),
                            w == root,
                            parent@[w as int],
                        ));
                    }
                    assert forall|w2: int| 0 <= w2 < w implies children@.subrange(
                        (#[trigger] offset@[w2]) as int,
                        offset@[w2 + 1] as int,
                    ) == child_entries(graph.adj(w2), w2 == root as int, parent@[w2]) by {
                        assert(children@.subrange(offset@[w2] as int, offset@[w2 + 1] as int)
                            =~= ch0.subrange(offset@[w2] as int, offset@[w2 + 1] as int));
                    }
                }
            }
            proof {
                assert(nbrs@.take(nbrs@.len() as int) =~= nbrs@);
            }
            w = w + 1;
        }
        if n - 1 != children.len() {
            return Err(());
        }

        // validate: every child entry pairs up with the parent map,
        // no vertex twice, every non-root vertex found once
        let mut seen: Vec<bool> = Vec::new();
        let mut z: usize = 0;
        while z < n
            invariant
                z <= n,
                seen@.len() == z,
                forall|x: int| 0 <= x < z ==> !seen@[x],
            decreases n - z,
        {
            seen.push(false);
            z = z + 1;
        }
        let clen = children.len();
        let mut si: usize = 0;
        while si < clen
            invariant
                si <= clen,
                clen == children@.len(),
                clen + 1 == n,
                seen@.len() == n,
                root < n,
                forall|i: int| 0 <= i < clen ==> (#[trigger] children@[i]) < n,
                forall|i: int| 0 <= i < si ==> (#[trigger] children@[i]) != root,
                forall|i: int, j: int|
                    0 <= i < j < si ==> (#[trigger] children@[i]) != (#[trigger] children@[j]),
                forall|c: int|
                    0 <= c < n ==> ((#[trigger] seen@[c]) <==> exists|i: int|
                        0 <= i < si && children@[i] == c),
            decreases clen - si,
        {
            let c = children[si];
            if c == root || seen[c] {
                return Err(());
            }
            seen.set(c, true);
            proof {
                assert forall|cc: int| 0 <= cc < n implies ((#[trigger] seen@[cc]) <==> exists|
                    i: int,
                |
                    0 <= i < si + 1 && children@[i] == cc) by {
                    if cc == c as int {
                        assert(children@[si as int] == cc);
                    }
                }
            }
            si = si + 1;
        }
        let mut vv: usize = 0;
        while vv < n
            invariant
                vv <= n,
                n == offset@.len(),
                clen == children@.len(),
                clen + 1 == n,
                parent@.len() == n,
                root < n,
                forall|x: int| 0 <= x < n ==> (#[trigger] offset@[x]) <= clen,
                forall|x: int| 0 <= x && x + 1 < n ==> (#[trigger] offset@[x]) <= offset@[x + 1],
                n > 0 ==> offset@[0] == 0,
                forall|i: int| 0 <= i < clen ==> (#[trigger] children@[i]) < n,
                forall|v2: int, k2: int|
                    0 <= v2 < vv && (#[trigger] offset@[v2]) <= k2 < (if v2 + 1 < n {
                        offset@[v2 + 1] as int
                    } else {
                        clen as int
                    }) ==> parent@[(#[trigger] children@[k2]) as int] == v2,
            decreases n - vv,
        {
            let start = offset[vv];
            let end = if vv + 1 < n {
                offset[vv + 1]
            } else {
                clen
            };
            let mut idx = start;
            while idx < end
                invariant
                    offset@[vv as int] <= idx <= end,
                    vv < n,
                    end as int == (if vv + 1 < n {
                        offset@[vv as int + 1] as int
                    } else {
                        clen as int
                    }),
                    end <= clen,
                    n == offset@.len(),
                    clen == children@.len(),
                    clen + 1 == n,
                    parent@.len() == n,
                    root < n,
                    forall|x: int| 0 <= x < n ==> (#[trigger] offset@[x]) <= clen,
                    forall|x: int|
                        0 <= x && x + 1 < n ==> (#[trigger] offset@[x]) <= offset@[x + 1],
                    n > 0 ==> offset@[0] == 0,
                    forall|i: int| 0 <= i < clen ==> (#[trigger] children@[i]) < n,
                    forall|v2: int, k2: int|
                        0 <= v2 < vv && (#[trigger] offset@[v2]) <= k2 < (if v2 + 1 < n {
                            offset@[v2 + 1] as int
                        } else {
                            clen as int
                        }) ==> parent@[(#[trigger] children@[k2]) as int] == v2,
                    forall|k2: int|
                        offset@[vv as int] <= k2 < idx ==> parent@[(
                        #[trigger] children@[k2]) as int] == vv,
                decreases end - idx,
            {
                let c = children[idx];
                if parent[c] != vv {
                    return Err(());
                }
                idx = idx + 1;
            }
            vv = vv + 1;
        }
        let mut sv: usize = 0;
        while sv < n
            invariant
                sv <= n,
                n == seen@.len(),
                root < n,
                forall|x: int| 0 <= x < sv && x != root as int ==> seen@[x],
            decreases n - sv,
        {
            if sv != root && !seen[sv] {
                return Err(());
            }
            sv = sv + 1;
        }

        let t = TreeIndexed { root, offset, children, parent };
        proof {
            assert(t.parent@ == dfs.pmap());
            assert(graph.n_dir() == 2 * (graph.n() - 1));
            lemma_new_surface(t, *graph, dfs, root);
            lemma_childs_from_segments(t, *graph);
            lemma_new_wf_pieces(t, dfs, root);
            lemma_new_coverage(t, seen@, root);
        }
        Ok(t)
    }

    /// Return the vertices of the tree in a postorder: every vertex
    /// exactly once, each one after the vertices of its subtree — in
    /// particular, every non-root vertex comes before its parent.
    #[verifier::rlimit(100)]
    pub fn postorder(&self) -> (r: Vec<usize>)
        requires
            self.wf(),
        ensures
            r@.len() == self.n(),
            forall|i: int| 0 <= i < r@.len() ==> (#[trigger] r@[i]) < self.n(),
            forall|i: int, j: int| 0 <= i < j < r@.len() ==> r@[i] != r@[j],
            forall|v: int| 0 <= v < self.n() ==> r@.contains(#[trigger] (v as usize)),
            forall|i: int|
                0 <= i < r@.len() && (#[trigger] r@[i]) as int != self.root_spec() ==> exists|
                    j: int,
                |
                    i < j < r@.len() && r@[j] == self.pmap()[r@[i] as int],
    {
        let n = self.offset.len();
        let mut placed: Vec<bool> = Vec::new();
        let mut z: usize = 0;
        while z < n
            invariant
                z <= n,
                placed@.len() == z,
                forall|x: int| 0 <= x < z ==> !placed@[x],
            decreases n - z,
        {
            placed.push(false);
            z = z + 1;
        }
        let mut order: Vec<usize> = Vec::new();
        let mut stack: Vec<usize> = Vec::new();
        stack.push(self.root);
        proof {
            lemma_count_true_zero(placed@, n as int);
            lemma_count_true_set(placed@, self.root_spec(), n as int);
        }
        placed.set(self.root, true);
        while stack.len() != 0
            invariant
                self.wf(),
                n == self.n(),
                placed@.len() == n,
                placed@[self.root_spec()],
                forall|i: int| 0 <= i < order@.len() ==> (#[trigger] order@[i]) < n,
                forall|i: int| 0 <= i < stack@.len() ==> (#[trigger] stack@[i]) < n,
                forall|i: int, j: int| 0 <= i < j < order@.len() ==> order@[i] != order@[j],
                forall|i: int, j: int| 0 <= i < j < stack@.len() ==> stack@[i] != stack@[j],
                forall|i: int, j: int|
                    0 <= i < order@.len() && 0 <= j < stack@.len() ==> order@[i] != stack@[j],
                forall|x: int|
                    0 <= x < n ==> ((#[trigger] placed@[x]) <==> (order@.contains(x as usize)
                        || stack@.contains(x as usize))),
                forall|i: int|
                    0 <= i < stack@.len() ==> ((#[trigger] stack@[i]) == self.root
                        || order@.contains(self.pmap()[stack@[i] as int])),
                forall|i: int|
                    0 <= i < order@.len() ==> ((#[trigger] order@[i]) == self.root || exists|
                        j: int,
                    |
                        0 <= j < i && order@[j] == self.pmap()[order@[i] as int]),
                forall|x: int|
                    0 <= x < n && order@.contains(#[trigger] (x as usize)) ==> (forall|k2: int|
                        0 <= k2 < self.childs(x).len() ==> placed@[
                        #[trigger] self.childs(x)[k2] as int]),
                count_true(placed@, n as int) == order@.len() + stack@.len(),
            decreases n - order@.len(),
        {
            proof {
                lemma_count_true_le(placed@, n as int);
            }
            let ghost ord0 = order@;
            let ghost stk0 = stack@;
            let v = match stack.pop() {
                Some(x) => x,
                None => 0,
            };
            order.push(v);
            proof {
                assert(stk0.drop_last() =~= stack@);
                assert(stk0[stk0.len() - 1] == v);
                assert forall|x: int|
                    0 <= x < n implies ((#[trigger] placed@[x]) <==> (order@.contains(x as usize)
                        || stack@.contains(x as usize))) by {
                    if placed@[x] {
                        if ord0.contains(x as usize) {
                            let wi = choose|i: int| 0 <= i < ord0.len() && ord0[i] == x as usize;
                            assert(order@[wi] == x as usize);
                        } else {
                            let wi = choose|i: int| 0 <= i < stk0.len() && stk0[i] == x as usize;
                            if wi == stk0.len() - 1 {
                                assert(order@[order@.len() - 1] == x as usize);
                            } else {
                                assert(stack@[wi] == x as usize);
                            }
                        }
                    } else {
                        if order@.contains(x as usize) {
                            let wi = choose|i: int|
                                0 <= i < order@.len() && order@[i] == x as usize;
                            if wi < ord0.len() {
                                assert(ord0[wi] == x as usize);
                            } else {
                                assert(stk0[stk0.len() - 1] == x as usize);
                            }
                        }
                        if stack@.contains(x as usize) {
                            let wi = choose|i: int|
                                0 <= i < stack@.len() && stack@[i] == x as usize;
                            assert(stk0[wi] == x as usize);
                        }
                    }
                }
                assert forall|i: int|
                    0 <= i < stack@.len() implies ((#[trigger] stack@[i]) == self.root
                        || order@.contains(self.pmap()[stack@[i] as int])) by {
                    assert(stack@[i] == stk0[i]);
                    if stk0[i] != self.root {
                        let wi = choose|j: int|
                            0 <= j < ord0.len() && ord0[j] == self.pmap()[stk0[i] as int];
                        assert(order@[wi] == self.pmap()[stack@[i] as int]);
                    }
                }
                assert forall|i: int|
                    0 <= i < order@.len() implies ((#[trigger] order@[i]) == self.root || exists|
                        j: int,
                    |
                        0 <= j < i && order@[j] == self.pmap()[order@[i] as int]) by {
                    if i == order@.len() - 1 {
                        if v != self.root {
                            let wi = choose|j: int|
                                0 <= j < ord0.len() && ord0[j] == self.pmap()[v as int];
                            assert(order@[wi] == self.pmap()[order@[i] as int]);
                        }
                    } else {
                        assert(order@[i] == ord0[i]);
                        if ord0[i] != self.root {
                            let wj = choose|j: int|
                                0 <= j < i && ord0[j] == self.pmap()[ord0[i] as int];
                            assert(order@[wj] == self.pmap()[order@[i] as int]);
                        }
                    }
                }
            }
            let cs = self.children(v);
            let cn = cs.len();
            let mut k: usize = 0;
            while k < cn
                invariant
                    k <= cn,
                    self.wf(),
                    n == self.n(),
                    v < n,
                    cs@ == self.childs(v as int),
                    cn == cs@.len(),
                    placed@.len() == n,
                    placed@[self.root_spec()],
                    order@.len() >= 1,
                    order@[order@.len() - 1] == v,
                    forall|i: int| 0 <= i < order@.len() ==> (#[trigger] order@[i]) < n,
                    forall|i: int| 0 <= i < stack@.len() ==> (#[trigger] stack@[i]) < n,
                    forall|i: int, j: int| 0 <= i < j < order@.len() ==> order@[i] != order@[j],
                    forall|i: int, j: int| 0 <= i < j < stack@.len() ==> stack@[i] != stack@[j],
                    forall|i: int, j: int|
                        0 <= i < order@.len() && 0 <= j < stack@.len() ==> order@[i] != stack@[j],
                    forall|x: int|
                        0 <= x < n ==> ((#[trigger] placed@[x]) <==> (order@.contains(x as usize)
                            || stack@.contains(x as usize))),
                    forall|i: int|
                        0 <= i < stack@.len() ==> ((#[trigger] stack@[i]) == self.root
                            || order@.contains(self.pmap()[stack@[i] as int])),
                    forall|i: int|
                        0 <= i < order@.len() ==> ((#[trigger] order@[i]) == self.root || exists|
                            j: int,
                        |
                            0 <= j < i && order@[j] == self.pmap()[order@[i] as int]),
                    forall|x: int|
                        0 <= x < n && order@.contains(#[trigger] (x as usize)) && x != v as int
                            ==> (forall|k2: int|
                            0 <= k2 < self.childs(x).len() ==> placed@[
                            #[trigger] self.childs(x)[k2] as int]),
                    forall|k2: int| 0 <= k2 < k ==> placed@[#[trigger] cs@[k2] as int],
                    count_true(placed@, n as int) == order@.len() + stack@.len(),
                decreases cn - k,
            {
                proof {
                    assert(cs@[k as int] == self.childs(v as int)[k as int]);
                    assert(self.childs(v as int)[k as int] == self.children@[self.seg_start(
                        v as int,
                    ) + k]);
                    assert(self.pmap()[cs@[k as int] as int] == v);
                }
                let c = cs[k];
                if !placed[c] {
                    let ghost stk1 = stack@;
                    proof {
                        lemma_count_true_set(placed@, c as int, n as int);
                    }
                    stack.push(c);
                    placed.set(c, true);
                    proof {
                        assert forall|x: int|
                            0 <= x < n implies ((#[trigger] placed@[x]) <==> (order@.contains(
                            x as usize,
                        ) || stack@.contains(x as usize))) by {
                            if x == c as int {
                                assert(stack@[stack@.len() - 1] == c);
                            } else {
                                if stk1.contains(x as usize) {
                                    let wi = choose|i: int|
                                        0 <= i < stk1.len() && stk1[i] == x as usize;
                                    assert(stack@[wi] == x as usize);
                                }
                                if stack@.contains(x as usize) {
                                    let wi = choose|i: int|
                                        0 <= i < stack@.len() && stack@[i] == x as usize;
                                    assert(wi < stk1.len());
                                    assert(stk1[wi] == x as usize);
                                }
                            }
                        }
                        assert forall|i: int|
                            0 <= i < stack@.len() implies ((#[trigger] stack@[i]) == self.root
                                || order@.contains(self.pmap()[stack@[i] as int])) by {
                            if i == stack@.len() - 1 {
                                assert(stack@[i] == c);
                                assert(self.pmap()[c as int] == v);
                                assert(order@[order@.len() - 1] == v);
                            } else {
                                assert(stack@[i] == stk1[i]);
                            }
                        }
                    }
                }
                k = k + 1;
            }
            proof {
                assert forall|x: int|
                    0 <= x < n && order@.contains(#[trigger] (x as usize)) implies (forall|
                        k2: int,
                    |
                        0 <= k2 < self.childs(x).len() ==> placed@[
                        #[trigger] self.childs(x)[k2] as int]) by {}
            }
        }
        proof {
            assert forall|x: int| 0 <= x < n implies placed@[x] by {
                lemma_postorder_all(*self, order@, placed@, x as usize);
            }
            lemma_count_true_all(placed@, n as int);
            assert(order@.len() == n);
            assert forall|v: int| 0 <= v < n implies order@.contains(#[trigger] (
            v as usize)) by {
                assert(placed@[v]);
            }
        }
        let mut rev: Vec<usize> = Vec::new();
        let mut ri: usize = order.len();
        while ri > 0
            invariant
                ri <= n,
                self.wf(),
                n == self.n(),
                order@.len() == n,
                rev@.len() == n - ri,
                forall|i: int| 0 <= i < n ==> (#[trigger] order@[i]) < n,
                forall|i: int, j: int| 0 <= i < j < n ==> order@[i] != order@[j],
                forall|v: int| 0 <= v < n ==> order@.contains(#[trigger] (v as usize)),
                forall|i: int|
                    0 <= i < order@.len() ==> ((#[trigger] order@[i]) == self.root || exists|
                        j: int,
                    |
                        0 <= j < i && order@[j] == self.pmap()[order@[i] as int]),
                forall|j: int| 0 <= j < rev@.len() ==> rev@[j] == order@[n - 1 - j],
            decreases ri,
        {
            ri = ri - 1;
            rev.push(order[ri]);
        }
        proof {
            assert forall|v: int| 0 <= v < n implies rev@.contains(#[trigger] (
            v as usize)) by {
                assert(order@.contains((v as usize)));
                let i = choose|i: int| 0 <= i < order@.len() && order@[i] == v as usize;
                assert(rev@[n - 1 - i] == v as usize);
            }
            assert forall|i: int|
                0 <= i < rev@.len() && (#[trigger] rev@[i]) as int != self.root_spec() implies
                exists|j: int| i < j < rev@.len() && rev@[j] == self.pmap()[rev@[i] as int] by {
                let oi = n - 1 - i;
                assert(rev@[i] == order@[oi]);
                assert(order@[oi] != self.root);
                let jp = choose|j: int|
                    0 <= j < oi && order@[j] == self.pmap()[order@[oi] as int];
                assert(rev@[n - 1 - jp] == order@[jp]);
                assert(i < n - 1 - jp < rev@.len());
            }
        }
        rev
    }
}

/// With the work stack empty, everything the order holds is closed
/// under taking children, and parent chains lead to the root, so every
/// vertex has been placed.
proof fn lemma_postorder_all(t: TreeIndexed, ord: Seq<usize>, placed: Seq<bool>, x: usize)
    requires
        t.wf(),
        placed.len() == t.n(),
        (x as int) < t.n(),
        placed[t.root_spec()],
        forall|y: int| 0 <= y < t.n() ==> ((#[trigger] placed[y]) <==> ord.contains(y as usize)),
        forall|y: int|
            0 <= y < t.n() && ord.contains(#[trigger] (y as usize)) ==> (forall|k: int|
                0 <= k < t.childs(y).len() ==> placed[#[trigger] t.childs(y)[k] as int]),
    ensures
        placed[x as int],
    decreases forest::steps(t.pmap(), x as int),
{
    if x as int == t.root_spec() {
    } else {
        forest::lemma_rep_basics(t.pmap(), x as int);
        lemma_postorder_all(t, ord, placed, t.pmap()[x as int]);
        lemma_tree_structure(t, x);
        let p = t.parent_of(x as int);
        assert(placed[p]);
        assert(ord.contains((p as usize)));
        assert(t.childs(p).contains(x));
        let kk = choose|k: int| 0 <= k < t.childs(p).len() && t.childs(p)[k] == x;
        assert(placed[t.childs(p)[kk] as int]);
    }
}

proof fn lemma_count_true_all(s: Seq<bool>, m: int)
    requires
        m >= 0,
        forall|x: int| 0 <= x < m ==> s[x],
    ensures
        count_true(s, m) == m,
    decreases m,
{
    if m > 0 {
        lemma_count_true_all(s, m - 1);
    }
}

proof fn lemma_count_true_zero(s: Seq<bool>, m: int)
    requires
        forall|x: int| 0 <= x < s.len() ==> !s[x],
        m <= s.len(),
    ensures
        count_true(s, m) == 0,
    decreases m,
{
    if m > 0 {
        lemma_count_true_zero(s, m - 1);
    }
}

/// Every non-root vertex stands in exactly one children block: its
/// parent's; and no block repeats a vertex.
pub proof fn lemma_tree_structure(t: TreeIndexed, v: usize)
    requires
        t.wf(),
        (v as int) < t.n(),
        v as int != t.root_spec(),
    ensures
        0 <= t.parent_of(v as int) < t.n(),
        t.childs(t.parent_of(v as int)).contains(v),
        forall|u: int, k1: int, k2: int|
            0 <= u < t.n() && 0 <= k1 < k2 < t.childs(u).len() ==> (#[trigger] t.childs(u)[k1]) != (
            #[trigger] t.childs(u)[k2]),
        forall|u: int, k: int|
            0 <= u < t.n() && 0 <= k < t.childs(u).len() ==> (#[trigger] t.childs(u)[k]) < t.n()
                && t.childs(u)[k] != t.root_spec() && t.parent_of(t.childs(u)[k] as int) == u,
{
    assert(t.children@.contains((v as int) as usize));
    let i = choose|i: int| 0 <= i < t.children@.len() && t.children@[i] == v;
    let p = t.parent_of(v as int);
    assert(t.childs(p).contains(v)) by {
        lemma_block_of_slot(t, i, p);
    }
}

/// A slot of the flat children array lies inside the block of the
/// vertex that the parent map names.
proof fn lemma_block_of_slot(t: TreeIndexed, i: int, p: int)
    requires
        t.wf(),
        0 <= i < t.children@.len(),
        p == t.parent_of(t.children@[i] as int),
    ensures
        t.childs(p).contains(t.children@[i]),
{
    let n = t.n() as int;
    let c = t.children@[i];
    // find the vertex whose block holds slot i: the largest v with
    // offset[v] <= i
    let v = choose|v: int|
        0 <= v < n && t.seg_start(v) <= i < t.seg_end(v) && t.childs(v)[i - t.seg_start(v)] == c;
    assert(exists|v: int|
        0 <= v < n && t.seg_start(v) <= i < t.seg_end(v) && t.childs(v)[i - t.seg_start(v)]
            == c) by {
        lemma_slot_has_block(t, i, 0);
    }
    assert(t.parent@[c as int] == v);
    assert(t.childs(v).contains(c)) by {
        assert(t.childs(v)[i - t.seg_start(v)] == c);
    }
}

/// Walking the offsets from `w` upward finds the block containing
/// slot `i`.
proof fn lemma_slot_has_block(t: TreeIndexed, i: int, w: int)
    requires
        t.wf(),
        0 <= i < t.children@.len(),
        0 <= w < t.n(),
        t.seg_start(w) <= i,
    ensures
        exists|v: int|
            0 <= v < t.n() && t.seg_start(v) <= i < t.seg_end(v) && t.childs(v)[i - t.seg_start(v)]
                == t.children@[i],
    decreases t.n() - w,
{
    if i < t.seg_end(w) {
        assert(t.childs(w)[i - t.seg_start(w)] == t.children@[i]);
        assert(0 <= w < t.n() && t.seg_start(w) <= i < t.seg_end(w) && t.childs(w)[i - t.seg_start(
            w,
        )] == t.children@[i]);
    } else {
        assert(w + 1 < t.n());
        lemma_slot_has_block(t, i, w + 1);
    }
}

/// What a successful construction says of the source graph: all of it
/// reachable from the root, every parent a neighbor, every edge a
/// parent link one way or the other.
proof fn lemma_new_surface(t: TreeIndexed, g: GraphIndexed, d: DFS, root: usize)
    requires
        t.pmap() == d.pmap(),
        t.n() == g.n(),
        d.n() == g.n(),
        d.src() == root as int,
        !d.cycle(),
        forall|v: int| 0 <= v < d.n() ==> d.reached(v),
        forall|v: int|
            0 <= v < d.n() ==> (d.reached(v) <==> crate::graph_indexed::reachable(
                g,
                root as int,
                v,
            )),
        forall|x: int|
            0 <= x < d.n() && d.reached(x) && x != root as int ==> g.adj(
                d.pmap()[x] as int,
            ).contains(x as usize),
        forall|x: int, k: int|
            0 <= x < d.n() && d.reached(x) && 0 <= k < g.adj(x).len() ==> ((
            #[trigger] g.adj(x)[k]) == d.pmap()[x] || d.pmap()[g.adj(x)[k] as int] == x),
    ensures
        forall|v: int| 0 <= v < t.n() ==> crate::graph_indexed::reachable(g, root as int, v),
        forall|v: int|
            0 <= v < t.n() && v != root as int ==> g.adj(t.parent_of(v)).contains(v as usize),
        forall|x: int, k: int|
            0 <= x < t.n() && 0 <= k < g.adj(x).len() ==> ((#[trigger] g.adj(x)[k]) == t.pmap()[x]
                || t.pmap()[g.adj(x)[k] as int] == x),
{
    assert forall|v: int| 0 <= v < t.n() implies crate::graph_indexed::reachable(
        g,
        root as int,
        v,
    ) by {
        assert(d.reached(v));
    }
    assert forall|v: int| 0 <= v < t.n() && v != root as int implies g.adj(t.parent_of(v)).contains(
        v as usize,
    ) by {
        assert(d.reached(v));
    }
    assert forall|x: int, k: int|
        0 <= x < t.n() && 0 <= k < g.adj(x).len() implies ((#[trigger] g.adj(x)[k]) == t.pmap()[x]
            || t.pmap()[g.adj(x)[k] as int] == x) by {
        assert(d.reached(x));
    }
}

/// Validation marked every non-root vertex seen, so each stands in the
/// flat children array.
proof fn lemma_new_coverage(t: TreeIndexed, seen: Seq<bool>, root: usize)
    requires
        seen.len() == t.n(),
        forall|c: int| 0 <= c < seen.len() && c != root as int ==> seen[c],
        forall|c: int|
            0 <= c < seen.len() ==> ((#[trigger] seen[c]) <==> exists|i: int|
                0 <= i < t.children@.len() && t.children@[i] == c),
    ensures
        forall|c: int|
            0 <= c < t.n() && c != root as int ==> t.children@.contains(#[trigger] (c as usize)),
{
    assert forall|c: int|
        0 <= c < t.n() && c != root as int implies t.children@.contains(#[trigger] (
    c as usize)) by {
        assert(seen[c]);
        let i = choose|i: int| 0 <= i < t.children@.len() && t.children@[i] == c;
        assert(t.children@[i] == c as usize);
    }
}

/// The remaining well-formedness pieces a successful construction
/// needs: every child slot pairs up with the parent map, and every
/// parent chain ends at the root.
proof fn lemma_new_wf_pieces(t: TreeIndexed, d: DFS, root: usize)
    requires
        t.pmap() == d.pmap(),
        t.n() == d.n(),
        t.offset@.len() == t.parent@.len(),
        forall|x: int| 0 <= x < t.offset@.len() ==> (#[trigger] t.offset@[x]) <= t.children@.len(),
        forall|x: int|
            0 <= x && x + 1 < t.offset@.len() ==> (#[trigger] t.offset@[x]) <= t.offset@[x + 1],
        d.src() == root as int,
        forall|v: int| 0 <= v < d.n() ==> d.reached(v),
        forall|v: int|
            0 <= v < d.n() ==> forest::rep(d.pmap(), v) == (if d.reached(v) {
                root as int
            } else {
                v
            }),
        forall|v2: int, k2: int|
            0 <= v2 < t.offset@.len() && (#[trigger] t.offset@[v2]) <= k2 < (if v2 + 1
                < t.offset@.len() {
                t.offset@[v2 + 1] as int
            } else {
                t.children@.len() as int
            }) ==> t.parent@[(#[trigger] t.children@[k2]) as int] == v2,
    ensures
        forall|v2: int, k2: int|
            0 <= v2 < t.n() && 0 <= k2 < t.childs(v2).len() ==> t.parent@[(
            #[trigger] t.childs(v2)[k2]) as int] == v2,
        forall|v2: int| 0 <= v2 < t.n() ==> forest::rep(t.parent@, v2) == root as int,
{
    assert forall|v2: int, k2: int|
        0 <= v2 < t.n() && 0 <= k2 < t.childs(v2).len() implies t.parent@[(
    #[trigger] t.childs(v2)[k2]) as int] == v2 by {
        assert(t.childs(v2)[k2] == t.children@[t.seg_start(v2) + k2]);
    }
    assert forall|v2: int| 0 <= v2 < t.n() implies forest::rep(t.parent@, v2) == root as int by {
        assert(d.reached(v2));
    }
}

/// Blocks laid out by the builder read back as `childs`.
proof fn lemma_childs_from_segments(t: TreeIndexed, g: GraphIndexed)
    requires
        t.offset@.len() == g.n(),
        forall|w2: int|
            0 <= w2 < t.offset@.len() ==> t.children@.subrange(
                (#[trigger] t.offset@[w2]) as int,
                if w2 + 1 < t.offset@.len() {
                    t.offset@[w2 + 1] as int
                } else {
                    t.children@.len() as int
                },
            ) == child_entries(g.adj(w2), w2 == t.root_spec(), t.pmap()[w2]),
    ensures
        forall|w2: int|
            0 <= w2 < t.n() ==> t.childs(w2) == child_entries(
                g.adj(w2),
                w2 == t.root_spec(),
                t.pmap()[w2],
            ),
{
    assert forall|w2: int| 0 <= w2 < t.n() implies t.childs(w2) == child_entries(
        g.adj(w2),
        w2 == t.root_spec(),
        t.pmap()[w2],
    ) by {
        assert(t.seg_start(w2) == t.offset@[w2] as int);
    }
}

} // verus!
