//! A disjoint-set-union structure over the elements `0, 1, ..., n - 1`,
//! with two-pass path compression and union by height.

use vstd::prelude::*;

use crate::forest;

verus! {

/// The disjoint-set-union structure indexed with natural numbers.
///
/// `root` holds the parent pointers (a representative points to itself),
/// `height` the approximate subtree heights used to pick the merge
/// direction, and `count` the number of live components.
pub struct DjsuIndex {
    root: Vec<usize>,
    height: Vec<usize>,
    count: usize,
}

impl DjsuIndex {
    /// Internal consistency: the parent pointers form a forest, paths
    /// and heights leave room for future unions, and `count` matches
    /// the number of parent-pointer roots.
    pub closed spec fn wf(self) -> bool {
        &&& forest::wf(self.root@)
        &&& forest::bounded(self.root@)
        &&& self.height@.len() == self.root@.len()
        &&& forall|i: int|
            0 <= i < self.height@.len() ==> self.height@[i] + self.components() <= self.root@.len()
        &&& self.count == self.components()
    }

    /// Number of elements the structure was created with.
    pub closed spec fn n(self) -> nat {
        self.root@.len()
    }

    /// The representative of the component that `i` belongs to.
    pub closed spec fn repr_of(self, i: int) -> int {
        forest::rep(self.root@, i)
    }

    /// Whether `a` and `b` belong to the same component.
    pub open spec fn same_set(self, a: int, b: int) -> bool {
        self.repr_of(a) == self.repr_of(b)
    }

    /// The stored height of element `i`: meaningful at representatives,
    /// where it bounds the depth of the attached tree and decides the
    /// merge direction.
    pub closed spec fn height_of(self, i: int) -> int {
        self.height@[i] as int
    }

    /// Number of components, read off the parent pointers.
    pub closed spec fn components(self) -> int {
        forest::count_roots(self.root@, self.root@.len() as int)
    }

    /// Return a structure with `count` singleton components.
    pub fn new(count: usize) -> (r: DjsuIndex)
        ensures
            r.wf(),
            r.n() == count,
            r.components() == count,
            forall|i: int| 0 <= i < count ==> r.repr_of(i) == i,
            forall|i: int| 0 <= i < count ==> r.height_of(i) == 0,
    {
        let mut root: Vec<usize> = Vec::new();
        let mut i: usize = 0;
        while i < count
            invariant
                i <= count,
                root@.len() == i,
                forall|k: int| 0 <= k < i ==> root@[k] == k,
            decreases count - i,
        {
            root.push(i);
            i = i + 1;
        }
        let mut height: Vec<usize> = Vec::new();
        let mut k: usize = 0;
        while k < count
            invariant
                k <= count,
                height@.len() == k,
                forall|j: int| 0 <= j < k ==> height@[j] == 0,
            decreases count - k,
        {
            height.push(0);
            k = k + 1;
        }
        proof {
            forest::lemma_identity(root@);
            assert forall|j: int| forest::in_range(root@, j) implies forest::steps(root@, j)
                == 0 by {
                assert(root@[j] == j);
            }
        }
        DjsuIndex { root, height, count }
    }

    /// Return the current number of connected components.
    pub fn n_components(&self) -> (r: usize)
        requires
            self.wf(),
        ensures
            r == self.components(),
    {
        self.count
    }

    /// Return the representative of the component that `ind` belongs
    /// to, compressing the path from `ind` to the representative.
    pub fn find(&mut self, ind: usize) -> (r: usize)
        requires
            old(self).wf(),
            ind < old(self).n(),
        ensures
            final(self).wf(),
            final(self).n() == old(self).n(),
            forall|j: int|
                0 <= j < old(self).n() ==> final(self).repr_of(j) == old(self).repr_of(j),
            final(self).components() == old(self).components(),
            forall|i: int| 0 <= i < old(self).n() ==> final(self).height_of(i) == old(
                self,
            ).height_of(i),
            r == old(self).repr_of(ind as int),
            r < old(self).n(),
    {
        let ghost s0 = self.root@;
        let mut top = ind;
        while self.root[top] != top
            invariant
                self.root@ == s0,
                forest::wf(s0),
                top < s0.len(),
                forest::rep(s0, top as int) == forest::rep(s0, ind as int),
            decreases forest::steps(s0, top as int),
        {
            proof {
                forest::lemma_rep_basics(s0, top as int);
            }
            top = self.root[top];
        }
        let found = top;
        proof {
            forest::lemma_rep_of_root(s0, found as int);
        }
        let mut node = ind;
        while self.root[node] != node
            invariant
                forest::wf(self.root@),
                forest::bounded(self.root@),
                self.root@.len() == s0.len(),
                self.height@ == old(self).height@,
                self.count == old(self).count,
                node < s0.len(),
                found < s0.len(),
                forest::rep(self.root@, node as int) == found as int,
                forall|j: int|
                    0 <= j < s0.len() ==> forest::rep(self.root@, j) == forest::rep(s0, j),
                forest::count_roots(self.root@, s0.len() as int) == forest::count_roots(
                    s0,
                    s0.len() as int,
                ),
            decreases forest::steps(self.root@, node as int),
        {
            let ghost sp = self.root@;
            let next = self.root[node];
            proof {
                forest::lemma_rep_basics(sp, node as int);
            }
            self.root.set(node, found);
            proof {
                forest::lemma_compress_all(sp, node as int);
                assert(self.root@ == sp.update(node as int, forest::rep(sp, node as int) as usize));
            }
            node = next;
        }
        found
    }

    /// Return `true` if the two given elements belong to the same
    /// connected component, `false` otherwise.
    pub fn connected(&mut self, left: usize, right: usize) -> (r: bool)
        requires
            old(self).wf(),
            left < old(self).n(),
            right < old(self).n(),
        ensures
            final(self).wf(),
            final(self).n() == old(self).n(),
            forall|j: int|
                0 <= j < old(self).n() ==> final(self).repr_of(j) == old(self).repr_of(j),
            final(self).components() == old(self).components(),
            forall|i: int| 0 <= i < old(self).n() ==> final(self).height_of(i) == old(
                self,
            ).height_of(i),
            r == old(self).same_set(left as int, right as int),
    {
        let a = self.find(left);
        let b = self.find(right);
        a == b
    }

    /// Connect the components that the two given elements belong to.
    /// Return the representative of the merged component. Merging two
    /// already-connected elements changes nothing.
    pub fn union(&mut self, left: usize, right: usize) -> (r: usize)
        requires
            old(self).wf(),
            left < old(self).n(),
            right < old(self).n(),
        ensures
            final(self).wf(),
            final(self).n() == old(self).n(),
            r < old(self).n(),
            r == final(self).repr_of(left as int),
            r == final(self).repr_of(right as int),
            r == old(self).repr_of(left as int) || r == old(self).repr_of(right as int),
            !old(self).same_set(left as int, right as int) ==> r as int == (if old(
                self,
            ).height_of(old(self).repr_of(left as int)) >= old(self).height_of(
                old(self).repr_of(right as int),
            ) {
                old(self).repr_of(left as int)
            } else {
                old(self).repr_of(right as int)
            }),
            forall|i: int|
                0 <= i < old(self).n() ==> final(self).height_of(i) == (if !old(self).same_set(
                    left as int,
                    right as int,
                ) && old(self).height_of(old(self).repr_of(left as int)) == old(self).height_of(
                    old(self).repr_of(right as int),
                ) && i == old(self).repr_of(left as int) {
                    old(self).height_of(i) + 1
                } else {
                    old(self).height_of(i)
                }),
            forall|j: int|
                0 <= j < old(self).n() ==> final(self).repr_of(j) == (if old(self).same_set(
                    j,
                    left as int,
                ) || old(self).same_set(j, right as int) {
                    r as int
                } else {
                    old(self).repr_of(j)
                }),
            final(self).components() == old(self).components() - (if old(self).same_set(
                left as int,
                right as int,
            ) {
                0int
            } else {
                1int
            }),
    {
        let rl = self.find(left);
        let rr = self.find(right);
        if rl == rr {
            return rl;
        }
        let ghost s1 = self.root@;
        let cap = self.root.len();
        proof {
            forest::lemma_rep_basics(s1, left as int);
            forest::lemma_rep_basics(s1, right as int);
            forest::lemma_count_two_roots(s1, rl as int, rr as int, s1.len() as int);
        }
        self.count = self.count - 1;
        let hl = self.height[rl];
        let hr = self.height[rr];
        if hl < hr {
            self.root.set(rl, rr);
            proof {
                forest::lemma_link_all(s1, rr as int, rl as int);
            }
            rr
        } else if hl > hr {
            self.root.set(rr, rl);
            proof {
                forest::lemma_link_all(s1, rl as int, rr as int);
            }
            rl
        } else {
            self.root.set(rr, rl);
            proof {
                assert(hl + 2 <= cap);
            }
            self.height.set(rl, hl + 1);
            proof {
                forest::lemma_link_all(s1, rl as int, rr as int);
            }
            rl
        }
    }
}

/// The representative of an in-range element is in range and is its
/// own representative.
pub proof fn lemma_repr_in_range(d: DjsuIndex, i: int)
    requires
        d.wf(),
        0 <= i < d.n(),
    ensures
        0 <= d.repr_of(i) < d.n(),
        d.repr_of(d.repr_of(i)) == d.repr_of(i),
{
    forest::lemma_rep_basics(d.root@, i);
    forest::lemma_rep_of_root(d.root@, d.repr_of(i));
}

/// Same-component membership is an equivalence relation over the
/// elements: reflexive, symmetric and transitive, whatever unions have
/// been performed.
pub proof fn lemma_same_set_equivalence(d: DjsuIndex, a: int, b: int, c: int)
    ensures
        d.same_set(a, a),
        d.same_set(a, b) <==> d.same_set(b, a),
        d.same_set(a, b) && d.same_set(b, c) ==> d.same_set(a, c),
{
}

} // verus!
