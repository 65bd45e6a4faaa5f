use std::collections::HashSet;
use std::iter::FromIterator;

use ralgo::GraphIndexed;
use ralgo::TreeIndexed;

fn vertices_equal(left: &[usize], right: &[usize]) -> bool {
    let left = HashSet::<usize>::from_iter(left.iter().cloned());
    let right = HashSet::<usize>::from_iter(right.iter().cloned());
    left == right
}

#[test]
fn simple_tree_works() {
    let graph = GraphIndexed::new(5, &[(3, 2), (2, 1), (0, 2), (4, 3)]);
    let tree = TreeIndexed::new(&graph, 3).unwrap();
    assert_eq!(tree.root(), 3);
    assert_eq!(tree.n_vert(), 5);
    assert_eq!(tree.n_edges(), 4);
    assert!(tree.parent(3).is_none());
    assert!(vertices_equal(tree.children(3), &[2, 4]));
    assert_eq!(tree.parent(2).unwrap(), 3);
    assert!(vertices_equal(tree.children(2), &[0, 1]));
    assert_eq!(tree.parent(0).unwrap(), 2);
    assert!(vertices_equal(tree.children(0), &[]));
    assert_eq!(tree.parent(1).unwrap(), 2);
    assert!(vertices_equal(tree.children(1), &[]));
    assert_eq!(tree.parent(4).unwrap(), 3);
    assert!(vertices_equal(tree.children(4), &[]));
}

#[test]
fn cycle_detection_works() {
    let graph = GraphIndexed::new(4, &[(0, 1), (1, 2), (2, 3), (3, 0)]);
    let tree = TreeIndexed::new(&graph, 1);
    assert!(tree.is_err());
}

#[test]
fn disconnected_graph_detection_works() {
    let graph = GraphIndexed::new(4, &[(0, 1), (2, 3)]);
    let tree = TreeIndexed::new(&graph, 1);
    assert!(tree.is_err());
}

#[test]
fn every_non_root_has_one_parent_slot() {
    let graph = GraphIndexed::new(6, &[(0, 1), (1, 2), (1, 3), (3, 4), (3, 5)]);
    let tree = TreeIndexed::new(&graph, 0).unwrap();
    assert_eq!(tree.n_edges(), 5);
    let mut counts = vec![0usize; 6];
    for v in 0..6 {
        for &c in tree.children(v) {
            counts[c] += 1;
        }
    }
    assert_eq!(counts[0], 0);
    for v in 1..6 {
        assert_eq!(counts[v], 1);
        assert!(tree.children(tree.parent(v).unwrap()).contains(&v));
    }
}
