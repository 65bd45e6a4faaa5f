//! Specification machinery for parent-pointer arrays.
//!
//! A `Seq<usize>` is read as a forest: `s[i]` is the parent of `i`, and a
//! node with `s[i] == i` is a root. Disjoint-set structures, the
//! depth-first-search parent map and the rooted tree all maintain such an
//! array, so the definitions and lemmas about following parent pointers
//! live here.

use vstd::prelude::*;

verus! {

/// `i` is a valid index into `s`.
pub open spec fn in_range(s: Seq<usize>, i: int) -> bool {
    0 <= i < s.len()
}

/// `i` is its own parent.
pub open spec fn is_root(s: Seq<usize>, i: int) -> bool {
    s[i] == i
}

/// Number of steps from `i` to its root, if a root is reached within
/// `fuel` steps without leaving the array.
pub open spec fn steps_opt(s: Seq<usize>, i: int, fuel: nat) -> Option<nat>
    decreases fuel,
{
    if !in_range(s, i) {
        None
    } else if s[i] == i {
        Some(0)
    } else if fuel == 0 {
        None
    } else {
        match steps_opt(s, s[i] as int, (fuel - 1) as nat) {
            Some(d) => Some((d + 1) as nat),
            None => None,
        }
    }
}

/// Follow parent pointers from `i` for at most `fuel` steps, stopping at
/// a root or when leaving the array.
pub open spec fn chase(s: Seq<usize>, i: int, fuel: nat) -> int
    decreases fuel,
{
    if fuel == 0 || !in_range(s, i) || s[i] == i {
        i
    } else {
        chase(s, s[i] as int, (fuel - 1) as nat)
    }
}

/// Every node is in range and reaches a root within `s.len()` steps.
pub open spec fn wf(s: Seq<usize>) -> bool {
    forall|i: int| in_range(s, i) ==> steps_opt(s, i, s.len()).is_some()
}

/// Number of steps from `i` to its root (meaningful under `wf`).
pub open spec fn steps(s: Seq<usize>, i: int) -> nat {
    steps_opt(s, i, s.len()).unwrap()
}

/// The root that `i` reaches (meaningful under `wf`).
pub open spec fn rep(s: Seq<usize>, i: int) -> int {
    chase(s, i, s.len())
}

/// Paths are short enough to survive a link: every union removes one
/// root and lengthens paths by at most one step, so the sum of any
/// path length and the root count never exceeds the node count.
pub open spec fn bounded(s: Seq<usize>) -> bool {
    forall|k: int| in_range(s, k) ==> steps(s, k) + count_roots(s, s.len() as int) <= s.len()
}

/// Number of roots among the first `n` indices.
pub open spec fn count_roots(s: Seq<usize>, n: int) -> int
    decreases n,
{
    if n <= 0 {
        0
    } else {
        count_roots(s, n - 1) + if s[n - 1] == n - 1 { 1int } else { 0int }
    }
}

/// A found number of steps is never more than the fuel that found it.
pub proof fn lemma_steps_le_fuel(s: Seq<usize>, i: int, fuel: nat)
    requires
        steps_opt(s, i, fuel).is_some(),
    ensures
        steps_opt(s, i, fuel).unwrap() <= fuel,
    decreases fuel,
{
    if in_range(s, i) && s[i] != i {
        lemma_steps_le_fuel(s, s[i] as int, (fuel - 1) as nat);
    }
}

/// A found number of steps does not depend on the fuel, as long as the
/// fuel suffices.
pub proof fn lemma_steps_fuel(s: Seq<usize>, i: int, f1: nat, f2: nat)
    requires
        steps_opt(s, i, f1).is_some(),
        steps_opt(s, i, f1).unwrap() <= f2,
    ensures
        steps_opt(s, i, f2) == steps_opt(s, i, f1),
    decreases f1,
{
    if in_range(s, i) && s[i] != i {
        lemma_steps_fuel(s, s[i] as int, (f1 - 1) as nat, (f2 - 1) as nat);
    }
}

/// With enough fuel, `chase` arrives at the root that `steps_opt` found.
pub proof fn lemma_chase_root(s: Seq<usize>, i: int, fuel: nat, f2: nat)
    requires
        steps_opt(s, i, fuel).is_some(),
        steps_opt(s, i, fuel).unwrap() <= f2,
    ensures
        in_range(s, chase(s, i, f2)),
        is_root(s, chase(s, i, f2)),
        chase(s, i, f2) == chase(s, i, steps_opt(s, i, fuel).unwrap()),
    decreases fuel,
{
    if s[i] == i {
    } else {
        let d = steps_opt(s, i, fuel).unwrap();
        lemma_chase_root(s, s[i] as int, (fuel - 1) as nat, (f2 - 1) as nat);
        lemma_chase_root(s, s[i] as int, (fuel - 1) as nat, (d - 1) as nat);
    }
}

/// Under `wf`, the root of `i` is a root, is in range, and unfolds one
/// parent step at a time.
pub proof fn lemma_rep_basics(s: Seq<usize>, i: int)
    requires
        wf(s),
        in_range(s, i),
    ensures
        in_range(s, rep(s, i)),
        is_root(s, rep(s, i)),
        is_root(s, i) ==> rep(s, i) == i,
        steps(s, i) <= s.len(),
        !is_root(s, i) ==> in_range(s, s[i] as int),
        !is_root(s, i) ==> rep(s, i) == rep(s, s[i] as int),
        !is_root(s, i) ==> steps(s, i) == steps(s, s[i] as int) + 1,
{
    let n = s.len();
    let d = steps_opt(s, i, n).unwrap();
    lemma_steps_le_fuel(s, i, n);
    lemma_chase_root(s, i, n, n);
    if s[i] != i {
        assert(n > 0);
        assert(steps_opt(s, s[i] as int, (n - 1) as nat) == Some((d - 1) as nat));
        lemma_steps_fuel(s, s[i] as int, (n - 1) as nat, n);
        lemma_chase_root(s, s[i] as int, (n - 1) as nat, (n - 1) as nat);
        lemma_chase_root(s, s[i] as int, (n - 1) as nat, n);
        assert(chase(s, i, n) == chase(s, s[i] as int, (n - 1) as nat));
    }
}

/// A root is its own representative.
pub proof fn lemma_rep_of_root(s: Seq<usize>, r: int)
    requires
        in_range(s, r),
        is_root(s, r),
    ensures
        rep(s, r) == r,
        steps_opt(s, r, s.len()) == Some(0nat),
{
}

/// Rewriting `j`'s parent pointer to `j`'s own root preserves every
/// node's root and never lengthens a path.
pub proof fn lemma_compress(s: Seq<usize>, j: int, k: int)
    requires
        wf(s),
        in_range(s, j),
        in_range(s, k),
    ensures
        ({
            let s2 = s.update(j, rep(s, j) as usize);
            &&& steps_opt(s2, k, s2.len()).is_some()
            &&& steps_opt(s2, k, s2.len()).unwrap() <= steps(s, k)
            &&& rep(s2, k) == rep(s, k)
        }),
    decreases steps(s, k),
{
    let n = s.len();
    let r = rep(s, j);
    let s2 = s.update(j, r as usize);
    lemma_rep_basics(s, j);
    lemma_rep_basics(s, k);
    if is_root(s, j) {
        assert(s2 =~= s);
    } else {
        assert(r != j);
        assert(is_root(s2, r));
        if k == j {
            assert(steps_opt(s2, r as int, (n - 1) as nat) == Some(0nat));
            assert(steps_opt(s2, k, n) == Some(1nat));
            assert(chase(s2, k, n) == chase(s2, r as int, (n - 1) as nat));
            assert(steps(s, k) >= 1);
        } else if is_root(s, k) {
            assert(is_root(s2, k));
            assert(rep(s2, k) == k);
            assert(rep(s, k) == k);
        } else {
            let sk = s[k] as int;
            lemma_compress(s, j, sk);
            let e = steps_opt(s2, sk, n).unwrap();
            assert(e <= steps(s, sk));
            assert(steps(s, sk) + 1 == steps(s, k));
            assert(steps(s, k) <= n);
            lemma_steps_fuel(s2, sk, n, (n - 1) as nat);
            assert(s2[k] == s[k]);
            assert(steps_opt(s2, k, n) == Some((e + 1) as nat));
            lemma_chase_root(s2, sk, (n - 1) as nat, (n - 1) as nat);
            lemma_chase_root(s2, sk, (n - 1) as nat, n);
            assert(chase(s2, k, n) == chase(s2, sk, (n - 1) as nat));
            assert(rep(s2, k) == rep(s2, sk));
        }
    }
}

/// `lemma_compress` for every node at once: the compressed array is
/// well formed, roots and root-ness are unchanged everywhere.
pub proof fn lemma_compress_all(s: Seq<usize>, j: int)
    requires
        wf(s),
        in_range(s, j),
    ensures
        ({
            let s2 = s.update(j, rep(s, j) as usize);
            &&& wf(s2)
            &&& forall|k: int| in_range(s, k) ==> rep(s2, k) == rep(s, k)
            &&& forall|k: int| in_range(s, k) ==> steps(s2, k) <= steps(s, k)
            &&& forall|k: int| in_range(s, k) ==> (is_root(s2, k) <==> is_root(s, k))
            &&& count_roots(s2, s.len() as int) == count_roots(s, s.len() as int)
            &&& bounded(s) ==> bounded(s2)
        }),
{
    let s2 = s.update(j, rep(s, j) as usize);
    lemma_rep_basics(s, j);
    assert forall|k: int| in_range(s2, k) implies steps_opt(s2, k, s2.len()).is_some()
        && steps_opt(s2, k, s2.len()).unwrap() <= steps(s, k) && rep(s2, k) == rep(s, k) by {
        lemma_compress(s, j, k);
    }
    assert(wf(s2));
    assert forall|k: int| in_range(s, k) implies (is_root(s2, k) <==> is_root(s, k)) by {
        if k == j && !is_root(s, j) {
            assert(rep(s, j) != j);
        }
    }
    lemma_count_same(s, s2, s.len() as int);
    if bounded(s) {
        assert forall|k: int| in_range(s2, k) implies steps(s2, k) + count_roots(
            s2,
            s2.len() as int,
        ) <= s2.len() by {
            assert(steps(s, k) + count_roots(s, s.len() as int) <= s.len());
        }
    }
}

/// Attaching root `b` under root `a` merges exactly the two classes
/// and lengthens a path by at most one step.
pub proof fn lemma_link(s: Seq<usize>, a: int, b: int, k: int)
    requires
        wf(s),
        in_range(s, a),
        in_range(s, b),
        in_range(s, k),
        is_root(s, a),
        is_root(s, b),
        a != b,
        steps(s, k) + 2 <= s.len(),
    ensures
        ({
            let s2 = s.update(b, a as usize);
            &&& steps_opt(s2, k, s2.len()).is_some()
            &&& steps_opt(s2, k, s2.len()).unwrap() <= steps(s, k) + 1
            &&& rep(s2, k) == (if rep(s, k) == b { a } else { rep(s, k) })
        }),
    decreases steps(s, k),
{
    let n = s.len();
    let s2 = s.update(b, a as usize);
    lemma_rep_basics(s, k);
    assert(is_root(s2, a));
    if k == b {
        assert(steps_opt(s2, a, (n - 1) as nat) == Some(0nat));
        assert(steps_opt(s2, k, n) == Some(1nat));
        assert(chase(s2, k, n) == chase(s2, a, (n - 1) as nat));
        lemma_rep_of_root(s, b);
    } else if is_root(s, k) {
        assert(is_root(s2, k));
        assert(rep(s, k) == k);
        lemma_rep_of_root(s2, k);
    } else {
        let sk = s[k] as int;
        lemma_link(s, a, b, sk);
        let e = steps_opt(s2, sk, n).unwrap();
        assert(e <= steps(s, sk) + 1);
        assert(e + 1 < n);
        lemma_steps_fuel(s2, sk, n, (n - 1) as nat);
        assert(s2[k] == s[k]);
        assert(steps_opt(s2, k, n) == Some((e + 1) as nat));
        lemma_chase_root(s2, sk, (n - 1) as nat, (n - 1) as nat);
        lemma_chase_root(s2, sk, (n - 1) as nat, n);
        assert(chase(s2, k, n) == chase(s2, sk, (n - 1) as nat));
        assert(rep(s2, k) == rep(s2, sk));
    }
}

/// `lemma_link` for every node at once, with the root count and the
/// path bound carried along.
pub proof fn lemma_link_all(s: Seq<usize>, a: int, b: int)
    requires
        wf(s),
        bounded(s),
        in_range(s, a),
        in_range(s, b),
        is_root(s, a),
        is_root(s, b),
        a != b,
    ensures
        ({
            let s2 = s.update(b, a as usize);
            &&& wf(s2)
            &&& bounded(s2)
            &&& forall|k: int|
                in_range(s, k) ==> rep(s2, k) == (if rep(s, k) == b { a } else { rep(s, k) })
            &&& count_roots(s2, s.len() as int) == count_roots(s, s.len() as int) - 1
        }),
{
    let n = s.len();
    let s2 = s.update(b, a as usize);
    lemma_count_two_roots(s, a, b, n as int);
    assert forall|k: int| in_range(s2, k) implies steps_opt(s2, k, s2.len()).is_some()
        && steps_opt(s2, k, s2.len()).unwrap() <= steps(s, k) + 1
        && rep(s2, k) == (if rep(s, k) == b { a } else { rep(s, k) }) by {
        assert(steps(s, k) + count_roots(s, n as int) <= n);
        lemma_link(s, a, b, k);
    }
    assert(wf(s2));
    assert forall|i: int| 0 <= i < n && i != b implies (is_root(s, i) <==> is_root(s2, i)) by {}
    lemma_count_drop(s, s2, b, n as int);
    assert forall|k: int| in_range(s2, k) implies steps(s2, k) + count_roots(
        s2,
        s2.len() as int,
    ) <= s2.len() by {
        assert(steps(s2, k) <= steps(s, k) + 1);
    }
}

/// Root-for-root equal arrays have equally many roots.
pub proof fn lemma_count_same(s1: Seq<usize>, s2: Seq<usize>, n: int)
    requires
        forall|i: int| 0 <= i < n ==> (is_root(s1, i) <==> is_root(s2, i)),
    ensures
        count_roots(s1, n) == count_roots(s2, n),
    decreases n,
{
    if n > 0 {
        lemma_count_same(s1, s2, n - 1);
        assert(is_root(s1, n - 1) <==> is_root(s2, n - 1));
    }
}

/// Turning exactly one root into a non-root lowers the count by one.
pub proof fn lemma_count_drop(s1: Seq<usize>, s2: Seq<usize>, b: int, n: int)
    requires
        0 <= b < n,
        is_root(s1, b),
        !is_root(s2, b),
        forall|i: int| 0 <= i < n && i != b ==> (is_root(s1, i) <==> is_root(s2, i)),
    ensures
        count_roots(s2, n) == count_roots(s1, n) - 1,
    decreases n,
{
    if b == n - 1 {
        lemma_count_same(s1, s2, n - 1);
    } else {
        lemma_count_drop(s1, s2, b, n - 1);
        assert(is_root(s1, n - 1) <==> is_root(s2, n - 1));
    }
}

/// The root count only grows with the prefix length.
pub proof fn lemma_count_mono(s: Seq<usize>, m: int, n: int)
    requires
        0 <= m <= n,
    ensures
        count_roots(s, m) <= count_roots(s, n),
        count_roots(s, n) <= count_roots(s, m) + (n - m),
    decreases n,
{
    if m < n {
        lemma_count_mono(s, m, n - 1);
    }
}

/// Two distinct roots make the count at least two.
pub proof fn lemma_count_two_roots(s: Seq<usize>, a: int, b: int, n: int)
    requires
        0 <= a < n,
        0 <= b < n,
        a != b,
        is_root(s, a),
        is_root(s, b),
    ensures
        count_roots(s, n) >= 2,
{
    let lo = if a < b { a } else { b };
    let hi = if a < b { b } else { a };
    lemma_count_mono(s, 0, lo);
    assert(count_roots(s, lo) >= 0);
    assert(count_roots(s, lo + 1) == count_roots(s, lo) + 1);
    lemma_count_mono(s, lo + 1, hi);
    assert(count_roots(s, hi + 1) == count_roots(s, hi) + 1);
    lemma_count_mono(s, hi + 1, n);
}

/// The identity array: every node is a singleton root.
pub proof fn lemma_identity(s: Seq<usize>)
    requires
        forall|i: int| in_range(s, i) ==> s[i] == i,
    ensures
        wf(s),
        forall|i: int| in_range(s, i) ==> rep(s, i) == i,
        forall|n: int| 0 <= n <= s.len() ==> count_roots(s, n) == n,
{
    assert forall|i: int| in_range(s, i) implies steps_opt(s, i, s.len()).is_some() by {
        assert(s[i] == i);
    }
    assert forall|i: int| in_range(s, i) implies rep(s, i) == i by {
        assert(s[i] == i);
    }
    assert forall|n: int| 0 <= n <= s.len() implies count_roots(s, n) == n by {
        lemma_identity_count(s, n);
    }
}

proof fn lemma_identity_count(s: Seq<usize>, n: int)
    requires
        0 <= n <= s.len(),
        forall|i: int| in_range(s, i) ==> s[i] == i,
    ensures
        count_roots(s, n) == n,
    decreases n,
{
    if n > 0 {
        lemma_identity_count(s, n - 1);
        assert(s[n - 1] == n - 1);
    }
}

} // verus!
