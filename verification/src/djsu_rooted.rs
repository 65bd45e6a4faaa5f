//! A rooted disjoint-set-union structure indexed with natural numbers
//! `0, 1, ..., n - 1`. Every connected component carries a designated
//! root, independent of the representative that the underlying
//! disjoint-set-union happens to pick: after `union(major, minor)` the
//! merged component is rooted at the node the `major` side had been
//! rooted at.

use vstd::prelude::*;

use crate::djsu_index::DjsuIndex;

verus! {

/// The rooted disjoint-set-union structure.
///
/// `root` maps each representative of the underlying structure to the
/// designated root of its component; entries at non-representatives are
/// stale and never read.
pub struct DjsuRooted {
    djsu: DjsuIndex,
    root: Vec<usize>,
}

impl DjsuRooted {
    /// Internal consistency: the underlying structure is consistent and
    /// every designated-root entry is a valid element.
    pub closed spec fn wf(self) -> bool {
        &&& self.djsu.wf()
        &&& self.root@.len() == self.djsu.n()
        &&& forall|i: int| 0 <= i < self.root@.len() ==> self.root@[i] < self.root@.len()
    }

    /// Number of elements the structure was created with.
    pub closed spec fn n(self) -> nat {
        self.djsu.n()
    }

    /// The designated root of the component that `x` belongs to.
    pub closed spec fn root_of(self, x: int) -> int {
        self.root@[self.djsu.repr_of(x)] as int
    }

    /// Whether `a` and `b` belong to the same component.
    pub closed spec fn same_set(self, a: int, b: int) -> bool {
        self.djsu.same_set(a, b)
    }

    /// Number of components.
    pub closed spec fn components(self) -> int {
        self.djsu.components()
    }

    /// Return a structure with `count` singleton components, each
    /// rooted at its only element.
    pub fn new(count: usize) -> (r: DjsuRooted)
        ensures
            r.wf(),
            r.n() == count,
            r.components() == count,
            forall|i: int| 0 <= i < count ==> r.root_of(i) == i,
            forall|a: int, b: int|
                0 <= a < count && 0 <= b < count ==> (r.same_set(a, b) <==> a == b),
    {
        let djsu = DjsuIndex::new(count);
        let mut root: Vec<usize> = Vec::new();
        let mut i: usize = 0;
        while i < count
            invariant
                i <= count,
                root@.len() == i,
                forall|k: int| 0 <= k < i ==> root@[k] == k,
            decreases count - i,
        {
            root.push(i);
            i = i + 1;
        }
        DjsuRooted { djsu, root }
    }

    /// Return the current number of connected components.
    pub fn n_components(&self) -> (r: usize)
        requires
            self.wf(),
        ensures
            r == self.components(),
    {
        self.djsu.n_components()
    }

    /// Return the designated root of the component that `ind` belongs
    /// to.
    pub fn find(&mut self, ind: usize) -> (r: usize)
        requires
            old(self).wf(),
            ind < old(self).n(),
        ensures
            final(self).wf(),
            final(self).n() == old(self).n(),
            forall|j: int|
                0 <= j < old(self).n() ==> final(self).root_of(j) == old(self).root_of(j),
            forall|a: int, b: int|
                0 <= a < old(self).n() && 0 <= b < old(self).n() ==> (final(self).same_set(a, b)
                    <==> old(self).same_set(a, b)),
            final(self).components() == old(self).components(),
            r == old(self).root_of(ind as int),
            r < old(self).n(),
    {
        let repr = self.djsu.find(ind);
        self.root[repr]
    }

    /// Return `true` if the two given elements belong to the same
    /// connected component, `false` otherwise.
    pub fn connected(&mut self, left: usize, right: usize) -> (r: bool)
        requires
            old(self).wf(),
            left < old(self).n(),
            right < old(self).n(),
        ensures
            final(self).wf(),
            final(self).n() == old(self).n(),
            forall|j: int|
                0 <= j < old(self).n() ==> final(self).root_of(j) == old(self).root_of(j),
            forall|a: int, b: int|
                0 <= a < old(self).n() && 0 <= b < old(self).n() ==> (final(self).same_set(a, b)
                    <==> old(self).same_set(a, b)),
            final(self).components() == old(self).components(),
            r == old(self).same_set(left as int, right as int),
    {
        self.djsu.connected(left, right)
    }

    /// Connect the components that the two given elements belong to.
    /// The merged component is rooted at the designated root that the
    /// `major` side had before the merge; the `minor` side's root is
    /// forsaken. Return the root of the merged component.
    pub fn union(&mut self, major: usize, minor: usize) -> (r: usize)
        requires
            old(self).wf(),
            major < old(self).n(),
            minor < old(self).n(),
        ensures
            final(self).wf(),
            final(self).n() == old(self).n(),
            r == old(self).root_of(major as int),
            r < old(self).n(),
            final(self).root_of(major as int) == r,
            final(self).root_of(minor as int) == r,
            forall|j: int|
                0 <= j < old(self).n() ==> final(self).root_of(j) == (if old(self).same_set(
                    j,
                    major as int,
                ) || old(self).same_set(j, minor as int) {
                    r as int
                } else {
                    old(self).root_of(j)
                }),
            forall|a: int, b: int|
                0 <= a < old(self).n() && 0 <= b < old(self).n() ==> (final(self).same_set(a, b)
                    <==> (old(self).same_set(a, b) || (old(self).same_set(a, major as int)
                        || old(self).same_set(a, minor as int)) && (old(self).same_set(
                        b,
                        major as int,
                    ) || old(self).same_set(b, minor as int)))),
            final(self).components() == old(self).components() - (if old(self).same_set(
                major as int,
                minor as int,
            ) {
                0int
            } else {
                1int
            }),
    {
        let mroot = self.find(major);
        let ghost mid = *self;
        let repr = self.djsu.union(major, minor);
        self.root.set(repr, mroot);
        proof {
            crate::djsu_index::lemma_repr_in_range(mid.djsu, major as int);
            crate::djsu_index::lemma_repr_in_range(mid.djsu, minor as int);
            assert forall|j: int| 0 <= j < old(self).n() implies final(self).root_of(j) == (
            if old(self).same_set(j, major as int) || old(self).same_set(j, minor as int) {
                mroot as int
            } else {
                old(self).root_of(j)
            }) by {
                crate::djsu_index::lemma_repr_in_range(mid.djsu, j);
            }
        }
        mroot
    }
}

/// Elements of one component share their designated root.
pub proof fn lemma_root_of_same_set(d: DjsuRooted, a: int, b: int)
    requires
        d.same_set(a, b),
    ensures
        d.root_of(a) == d.root_of(b),
{
}

/// Same-component membership is an equivalence relation over the
/// elements: reflexive, symmetric and transitive, whatever unions have
/// been performed.
pub proof fn lemma_same_set_equivalence(d: DjsuRooted, a: int, b: int, c: int)
    ensures
        d.same_set(a, a),
        d.same_set(a, b) <==> d.same_set(b, a),
        d.same_set(a, b) && d.same_set(b, c) ==> d.same_set(a, c),
{
    crate::djsu_index::lemma_same_set_equivalence(d.djsu, a, b, c);
}

} // verus!
