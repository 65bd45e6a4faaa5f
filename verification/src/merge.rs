//! The bottom-up mergesort algorithm over 64-bit integers, with the
//! two helper passes it is built from: merging two sorted runs, and
//! merging every adjacent pair of runs of a given width.

use vstd::prelude::*;

verus! {

/// The sequence is non-decreasing.
pub open spec fn sorted(s: Seq<i64>) -> bool {
    forall|i: int, j: int| 0 <= i <= j < s.len() ==> s[i] <= s[j]
}

/// Number of occurrences of `x` in `s`: the yardstick for saying that
/// one sequence is a permutation of another.
pub open spec fn count_val(s: Seq<i64>, x: i64) -> int
    decreases s.len(),
{
    if s.len() == 0 {
        0
    } else {
        (if s[0] == x {
            1int
        } else {
            0int
        }) + count_val(s.skip(1), x)
    }
}

/// What merging two runs yields: always the smaller head first, the
/// right run winning ties.
pub open spec fn merge_seq(a: Seq<i64>, b: Seq<i64>) -> Seq<i64>
    decreases a.len() + b.len(),
{
    if a.len() == 0 {
        b
    } else if b.len() == 0 {
        a
    } else if a[0] < b[0] {
        seq![a[0]] + merge_seq(a.skip(1), b)
    } else {
        seq![b[0]] + merge_seq(a, b.skip(1))
    }
}

/// Every run of `step` consecutive elements is sorted (the last run
/// may be shorter).
pub open spec fn chunks_sorted(s: Seq<i64>, step: int) -> bool
    decreases s.len(),
{
    if step <= 0 {
        true
    } else if s.len() <= step {
        sorted(s)
    } else {
        sorted(s.take(step)) && chunks_sorted(s.skip(step), step)
    }
}

pub proof fn lemma_merge_seq_len(a: Seq<i64>, b: Seq<i64>)
    ensures
        merge_seq(a, b).len() == a.len() + b.len(),
    decreases a.len() + b.len(),
{
    if a.len() > 0 && b.len() > 0 {
        if a[0] < b[0] {
            lemma_merge_seq_len(a.skip(1), b);
        } else {
            lemma_merge_seq_len(a, b.skip(1));
        }
    }
}

pub proof fn lemma_count_concat(s: Seq<i64>, t: Seq<i64>, x: i64)
    ensures
        count_val(s + t, x) == count_val(s, x) + count_val(t, x),
    decreases s.len(),
{
    if s.len() == 0 {
        assert(s + t =~= t);
    } else {
        assert((s + t).skip(1) =~= s.skip(1) + t);
        lemma_count_concat(s.skip(1), t, x);
    }
}

pub proof fn lemma_merge_seq_count(a: Seq<i64>, b: Seq<i64>, x: i64)
    ensures
        count_val(merge_seq(a, b), x) == count_val(a, x) + count_val(b, x),
    decreases a.len() + b.len(),
{
    if a.len() == 0 || b.len() == 0 {
    } else if a[0] < b[0] {
        lemma_merge_seq_count(a.skip(1), b, x);
        assert((seq![a[0]] + merge_seq(a.skip(1), b)).skip(1) =~= merge_seq(a.skip(1), b));
    } else {
        lemma_merge_seq_count(a, b.skip(1), x);
        assert((seq![b[0]] + merge_seq(a, b.skip(1))).skip(1) =~= merge_seq(a, b.skip(1)));
    }
}

pub proof fn lemma_merge_seq_sorted(a: Seq<i64>, b: Seq<i64>)
    requires
        sorted(a),
        sorted(b),
    ensures
        sorted(merge_seq(a, b)),
        merge_seq(a, b).len() > 0 ==> (a.len() > 0 && merge_seq(a, b)[0] == a[0]) || (b.len() > 0
            && merge_seq(a, b)[0] == b[0]),
    decreases a.len() + b.len(),
{
    lemma_merge_seq_len(a, b);
    if a.len() == 0 || b.len() == 0 {
    } else if a[0] < b[0] {
        assert(sorted(a.skip(1)));
        lemma_merge_seq_sorted(a.skip(1), b);
        let m = seq![a[0]] + merge_seq(a.skip(1), b);
        lemma_merge_seq_len(a.skip(1), b);
        assert forall|i: int, j: int| 0 <= i <= j < m.len() implies m[i] <= m[j] by {
            if i == 0 && j > 0 {
                assert(m[j] == merge_seq(a.skip(1), b)[j - 1]);
                if j == 1 {
                    assert(merge_seq(a.skip(1), b)[0] == a.skip(1)[0] || merge_seq(a.skip(1), b)[0]
                        == b[0]);
                } else {
                    assert(merge_seq(a.skip(1), b)[0] <= merge_seq(a.skip(1), b)[j - 1]);
                    assert(merge_seq(a.skip(1), b)[0] == a.skip(1)[0] || merge_seq(a.skip(1), b)[0]
                        == b[0]);
                }
            }
        }
    } else {
        assert(sorted(b.skip(1)));
        lemma_merge_seq_sorted(a, b.skip(1));
        let m = seq![b[0]] + merge_seq(a, b.skip(1));
        lemma_merge_seq_len(a, b.skip(1));
        assert forall|i: int, j: int| 0 <= i <= j < m.len() implies m[i] <= m[j] by {
            if i == 0 && j > 0 {
                assert(m[j] == merge_seq(a, b.skip(1))[j - 1]);
                if j == 1 {
                    assert(merge_seq(a, b.skip(1))[0] == a[0] || merge_seq(a, b.skip(1))[0]
                        == b.skip(1)[0]);
                } else {
                    assert(merge_seq(a, b.skip(1))[0] <= merge_seq(a, b.skip(1))[j - 1]);
                    assert(merge_seq(a, b.skip(1))[0] == a[0] || merge_seq(a, b.skip(1))[0]
                        == b.skip(1)[0]);
                }
            }
        }
    }
}

/// Merge two runs into `output`, which must have exactly the combined
/// length. The result is the interleaving `merge_seq` describes: a
/// permutation of the inputs, sorted whenever both runs are.
pub fn merge(first: &Vec<i64>, second: &Vec<i64>, output: &mut Vec<i64>)
    requires
        old(output).len() == first.len() + second.len(),
    ensures
        final(output)@ == merge_seq(first@, second@),
{
    let mut i: usize = 0;
    let mut j: usize = 0;
    let mut k: usize = 0;
    let n = output.len();
    proof {
        assert(first@.skip(0) =~= first@);
        assert(second@.skip(0) =~= second@);
        assert(output@.take(0) =~= Seq::<i64>::empty());
        assert(Seq::<i64>::empty() + merge_seq(first@, second@) =~= merge_seq(first@, second@));
    }
    while k < n
        invariant
            n == output@.len(),
            n == first@.len() + second@.len(),
            i <= first@.len(),
            j <= second@.len(),
            k == i + j,
            merge_seq(first@, second@) == output@.take(k as int) + merge_seq(
                first@.skip(i as int),
                second@.skip(j as int),
            ),
        decreases n - k,
    {
        let ghost ra = first@.skip(i as int);
        let ghost rb = second@.skip(j as int);
        proof {
            lemma_merge_seq_len(ra, rb);
        }
        let take_first: bool = if i >= first.len() {
            false
        } else if j >= second.len() {
            true
        } else {
            first[i] < second[j]
        };
        if take_first {
            let val = first[i];
            output.set(k, val);
            i = i + 1;
            proof {
                assert(ra[0] == val);
                if rb.len() > 0 {
                    assert(merge_seq(ra, rb) == seq![val] + merge_seq(ra.skip(1), rb));
                } else {
                    assert(merge_seq(ra, rb) == ra);
                    assert(merge_seq(ra.skip(1), rb) =~= ra.skip(1));
                    assert(merge_seq(ra, rb) =~= seq![val] + merge_seq(ra.skip(1), rb));
                }
                assert(first@.skip(i as int) =~= ra.skip(1));
                assert(output@.take(k as int + 1) =~= output@.take(k as int).push(val));
                assert(output@.take(k as int) + merge_seq(ra, rb) =~= output@.take(k as int + 1)
                    + merge_seq(first@.skip(i as int), rb));
            }
        } else {
            let val = second[j];
            output.set(k, val);
            j = j + 1;
            proof {
                assert(rb[0] == val);
                if ra.len() > 0 {
                    assert(merge_seq(ra, rb) == seq![val] + merge_seq(ra, rb.skip(1)));
                } else {
                    assert(merge_seq(ra, rb) == rb);
                    assert(merge_seq(ra, rb.skip(1)) =~= rb.skip(1));
                    assert(merge_seq(ra, rb) =~= seq![val] + merge_seq(ra, rb.skip(1)));
                }
                assert(second@.skip(j as int) =~= rb.skip(1));
                assert(output@.take(k as int + 1) =~= output@.take(k as int).push(val));
                assert(output@.take(k as int) + merge_seq(ra, rb) =~= output@.take(k as int + 1)
                    + merge_seq(ra, second@.skip(j as int)));
            }
        }
        k = k + 1;
    }
    proof {
        assert(first@.skip(first@.len() as int) =~= Seq::<i64>::empty());
        assert(second@.skip(second@.len() as int) =~= Seq::<i64>::empty());
        assert(merge_seq(first@.skip(i as int), second@.skip(j as int)).len() == 0) by {
            lemma_merge_seq_len(first@.skip(i as int), second@.skip(j as int));
        }
        assert(output@.take(k as int) =~= output@);
        assert(merge_seq(first@, second@) =~= output@ + merge_seq(
            first@.skip(i as int),
            second@.skip(j as int),
        ));
        assert(output@ + merge_seq(first@.skip(i as int), second@.skip(j as int)) =~= output@);
    }
}

/// What one bottom-up pass yields: every adjacent pair of `step`-wide
/// runs merged, a trailing lone run kept as it is.
pub open spec fn merge_pass(s: Seq<i64>, step: int) -> Seq<i64>
    decreases s.len(),
{
    if step <= 0 || s.len() <= step {
        s
    } else {
        let m = if 2 * step < s.len() {
            2 * step
        } else {
            s.len() as int
        };
        merge_seq(s.subrange(0, step), s.subrange(step, m)) + merge_pass(s.skip(m), step)
    }
}

pub proof fn lemma_merge_pass_len(s: Seq<i64>, step: int)
    ensures
        merge_pass(s, step).len() == s.len(),
    decreases s.len(),
{
    if step > 0 && s.len() > step {
        let m = if 2 * step < s.len() {
            2 * step
        } else {
            s.len() as int
        };
        lemma_merge_seq_len(s.subrange(0, step), s.subrange(step, m));
        lemma_merge_pass_len(s.skip(m), step);
    }
}

pub proof fn lemma_merge_pass_count(s: Seq<i64>, step: int, x: i64)
    ensures
        count_val(merge_pass(s, step), x) == count_val(s, x),
    decreases s.len(),
{
    if step > 0 && s.len() > step {
        let m = if 2 * step < s.len() {
            2 * step
        } else {
            s.len() as int
        };
        let a = s.subrange(0, step);
        let b = s.subrange(step, m);
        lemma_merge_seq_count(a, b, x);
        lemma_merge_pass_count(s.skip(m), step, x);
        lemma_count_concat(merge_seq(a, b), merge_pass(s.skip(m), step), x);
        lemma_count_concat(a, b, x);
        lemma_count_concat(a + b, s.skip(m), x);
        assert((a + b) + s.skip(m) =~= s);
    }
}

pub proof fn lemma_merge_pass_chunks(s: Seq<i64>, step: int)
    requires
        step >= 1,
        chunks_sorted(s, step),
    ensures
        chunks_sorted(merge_pass(s, step), 2 * step),
    decreases s.len(),
{
    if s.len() <= step {
    } else {
        let m = if 2 * step < s.len() {
            2 * step
        } else {
            s.len() as int
        };
        let a = s.subrange(0, step);
        let b = s.subrange(step, m);
        let rest = merge_pass(s.skip(m), step);
        assert(a =~= s.take(step));
        assert(sorted(a));
        assert(chunks_sorted(s.skip(step), step));
        assert(sorted(b)) by {
            if s.len() <= 2 * step {
                assert(b =~= s.skip(step));
            } else {
                assert(b =~= s.skip(step).take(step));
                assert(s.skip(step).len() > step);
            }
        }
        lemma_merge_seq_sorted(a, b);
        lemma_merge_seq_len(a, b);
        let merged = merge_seq(a, b);
        lemma_merge_pass_len(s.skip(m), step);
        if s.len() <= 2 * step {
            assert(s.skip(m).len() == 0);
            assert(rest =~= Seq::<i64>::empty());
            assert(merged + rest =~= merged);
            assert(merge_pass(s, step).len() <= 2 * step) by {
                lemma_merge_pass_len(s, step);
            }
        } else {
            assert(m == 2 * step);
            assert(s.skip(m) =~= s.skip(step).skip(step));
            assert(chunks_sorted(s.skip(m), step)) by {
                assert(s.skip(step).len() > step);
            }
            lemma_merge_pass_chunks(s.skip(m), step);
            let whole = merged + rest;
            assert(whole.take(2 * step) =~= merged);
            assert(whole.skip(2 * step) =~= rest);
            assert(whole.len() > 2 * step);
        }
    }
}

pub proof fn lemma_chunks_one(s: Seq<i64>)
    ensures
        chunks_sorted(s, 1),
    decreases s.len(),
{
    if s.len() > 1 {
        assert(sorted(s.take(1)));
        lemma_chunks_one(s.skip(1));
    }
}

/// Return a copy of `src[from..to]`.
fn copy_range(src: &Vec<i64>, from: usize, to: usize) -> (r: Vec<i64>)
    requires
        from <= to <= src.len(),
    ensures
        r@ == src@.subrange(from as int, to as int),
{
    let mut r: Vec<i64> = Vec::new();
    let mut k = from;
    while k < to
        invariant
            from <= k <= to <= src@.len(),
            r@ =~= src@.subrange(from as int, k as int),
        decreases to - k,
    {
        r.push(src[k]);
        proof {
            assert(r@ =~= src@.subrange(from as int, k as int + 1));
        }
        k = k + 1;
    }
    r
}

/// Overwrite `dst[at..at + src.len()]` with `src`.
fn write_range(dst: &mut Vec<i64>, at: usize, src: &Vec<i64>)
    requires
        at <= old(dst).len(),
        src.len() <= old(dst).len() - at,
    ensures
        final(dst)@.len() == old(dst)@.len(),
        forall|idx: int|
            0 <= idx < old(dst)@.len() ==> final(dst)@[idx] == (if at <= idx < at + src@.len() {
                src@[idx - at]
            } else {
                old(dst)@[idx]
            }),
{
    let dl = dst.len();
    let mut k: usize = 0;
    while k < src.len()
        invariant
            k <= src@.len(),
            at <= dst@.len(),
            src@.len() <= dst@.len() - at,
            dl == dst@.len(),
            dst@.len() == old(dst)@.len(),
            forall|idx: int|
                0 <= idx < dst@.len() ==> dst@[idx] == (if at <= idx < at + k {
                    src@[idx - at]
                } else {
                    old(dst)@[idx]
                }),
        decreases src@.len() - k,
    {
        dst.set(at + k, src[k]);
        k = k + 1;
    }
}

/// Merge every adjacent pair of sorted `step`-wide runs of `input`
/// into `output`, copying a trailing lone run over unchanged. The
/// output is exactly what `merge_pass` describes.
pub fn merge_intervals(input: &Vec<i64>, output: &mut Vec<i64>, step: usize)
    requires
        old(output).len() == input.len(),
        step >= 1,
    ensures
        final(output)@ == merge_pass(input@, step as int),
{
    let n = input.len();
    let mut i: usize = 0;
    proof {
        assert(input@.skip(0) =~= input@);
        assert(output@.take(0) =~= Seq::<i64>::empty());
        assert(Seq::<i64>::empty() + merge_pass(input@, step as int) =~= merge_pass(
            input@,
            step as int,
        ));
    }
    while step < n - i
        invariant
            i <= n,
            n == input@.len(),
            output@.len() == n,
            step >= 1,
            merge_pass(input@, step as int) == output@.take(i as int) + merge_pass(
                input@.skip(i as int),
                step as int,
            ),
        decreases n - i,
    {
        let ghost out0 = output@;
        let ghost tail = input@.skip(i as int);
        let rem = n - i;
        let m_rel = if rem - step < step {
            rem
        } else {
            2 * step
        };
        let m = i + m_rel;
        let a = copy_range(input, i, i + step);
        let b = copy_range(input, i + step, m);
        let mut buf: Vec<i64> = Vec::new();
        let mut z: usize = 0;
        while z < m_rel
            invariant
                z <= m_rel,
                buf@.len() == z,
            decreases m_rel - z,
        {
            buf.push(0);
            z = z + 1;
        }
        proof {
            assert(a@ =~= tail.subrange(0, step as int));
            assert(b@ =~= tail.subrange(step as int, m_rel as int));
        }
        merge(&a, &b, &mut buf);
        proof {
            lemma_merge_seq_len(a@, b@);
        }
        write_range(output, i, &buf);
        proof {
            lemma_merge_seq_len(a@, b@);
            assert(tail.len() > step);
            assert(m_rel == (if 2 * (step as int) < tail.len() {
                2 * (step as int)
            } else {
                tail.len() as int
            }));
            assert(merge_pass(tail, step as int) == merge_seq(a@, b@) + merge_pass(
                tail.skip(m_rel as int),
                step as int,
            ));
            assert(input@.skip(m as int) =~= tail.skip(m_rel as int));
            assert(output@.take(m as int) =~= out0.take(i as int) + buf@);
            assert(output@.take(m as int) + merge_pass(input@.skip(m as int), step as int)
                =~= out0.take(i as int) + merge_pass(tail, step as int));
        }
        i = m;
    }
    let ghost out1 = output@;
    let tail2 = copy_range(input, i, n);
    write_range(output, i, &tail2);
    proof {
        assert(input@.skip(i as int).len() <= step);
        assert(merge_pass(input@.skip(i as int), step as int) == input@.skip(i as int));
        assert(output@.take(i as int) =~= out1.take(i as int));
        assert(output@ =~= output@.take(i as int) + input@.skip(i as int));
        assert(output@ =~= merge_pass(input@, step as int));
    }
}

/// Sort the vector in place with bottom-up mergesort: the result is
/// non-decreasing and a permutation of the input.
pub fn mergesort(array: &mut Vec<i64>)
    ensures
        final(array)@.len() == old(array)@.len(),
        sorted(final(array)@),
        forall|x: i64| count_val(final(array)@, x) == count_val(old(array)@, x),
{
    let n = array.len();
    if n < 2 {
        return ;
    }
    let mut primary = copy_range(array, 0, n);
    let mut secondary = copy_range(array, 0, n);
    let mut step: usize = 1;
    proof {
        assert(primary@ =~= array@);
        assert(secondary@ =~= array@);
        lemma_chunks_one(primary@);
    }
    while step < n
        invariant
            2 <= n == array@.len(),
            array@ == old(array)@,
            primary@.len() == n,
            secondary@.len() == n,
            step >= 1,
            chunks_sorted(primary@, step as int),
            forall|x: i64| count_val(primary@, x) == count_val(array@, x),
        decreases n - step,
    {
        let ghost before = primary@;
        merge_intervals(&primary, &mut secondary, step);
        proof {
            lemma_merge_pass_len(before, step as int);
            lemma_merge_pass_chunks(before, step as int);
            assert forall|x: i64| count_val(secondary@, x) == count_val(array@, x) by {
                lemma_merge_pass_count(before, step as int, x);
            }
        }
        let tmp = primary;
        primary = secondary;
        secondary = tmp;
        if step > n / 2 {
            proof {
                assert(chunks_sorted(primary@, 2 * (step as int)));
                assert(primary@.len() <= 2 * (step as int));
                assert(sorted(primary@));
                assert(primary@.len() <= n as int);
            }
            step = n;
        } else {
            step = 2 * step;
        }
    }
    proof {
        assert(sorted(primary@)) by {
            assert(chunks_sorted(primary@, step as int));
            assert(primary@.len() <= step as int);
        }
    }
    write_range(array, 0, &primary);
    proof {
        assert(array@ =~= primary@);
    }
}

} // verus!
