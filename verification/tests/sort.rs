use ralgo::merge;
use ralgo::merge_intervals;
use ralgo::mergesort;

fn test_merge(first: Vec<i64>, second: Vec<i64>, expected: Vec<i64>) {
    let mut merged = vec![0; expected.len()];
    merge(&first, &second, &mut merged);
    assert_eq!(merged, expected);
}

fn test_merge_intervals(input: Vec<i64>, step: usize, expected: Vec<i64>) {
    let mut output = vec![0; expected.len()];
    merge_intervals(&input, &mut output, step);
    assert_eq!(output, expected);
}

fn test_mergesort(mut input: Vec<i64>) {
    let mut copy = input.clone();
    copy.sort();
    mergesort(&mut input);
    assert_eq!(input, copy);
}

#[test]
fn merge_works() {
    test_merge(vec![1], vec![2], vec![1, 2]);
    test_merge(vec![1, 3, 5], vec![2, 4, 6], vec![1, 2, 3, 4, 5, 6]);
    test_merge(vec![1], vec![2, 4, 6], vec![1, 2, 4, 6]);
    test_merge(vec![7], vec![2, 4, 6], vec![2, 4, 6, 7]);
    test_merge(vec![1, 3, 5], vec![0], vec![0, 1, 3, 5]);
    test_merge(vec![1, 3, 5], vec![8], vec![1, 3, 5, 8]);
}

#[test]
fn merge_intervals_works() {
    test_merge_intervals(vec![1, 2], 1, vec![1, 2]);
    test_merge_intervals(vec![2, 1], 1, vec![1, 2]);
    test_merge_intervals(vec![1, 3, 2, 4], 2, vec![1, 2, 3, 4]);
    test_merge_intervals(vec![1, 4, 2, 3], 2, vec![1, 2, 3, 4]);
    test_merge_intervals(vec![3, 4, 1, 2], 2, vec![1, 2, 3, 4]);
    test_merge_intervals(vec![4, 3, 2, 1], 1, vec![3, 4, 1, 2]);
}

#[test]
fn mergesort_works() {
    test_mergesort(vec![]);
    test_mergesort(vec![1]);
    test_mergesort(vec![1, 2]);
    test_mergesort(vec![2, 1]);
    test_mergesort(vec![9, 3, 3, 3, 3]);
    test_mergesort(vec![5, 3, 7, 4, 2, 2, 2, 3]);
    test_mergesort(vec![9, 8, 7, 6, 5, 4, 3, 2, 1]);
}

#[test]
fn mergesort_negative_and_sorted_inputs() {
    test_mergesort(vec![-5, 3, -7, 0, 2, -2]);
    test_mergesort(vec![1, 2, 3, 4, 5, 6, 7]);
    test_mergesort(vec![0, 0, 0]);
}
