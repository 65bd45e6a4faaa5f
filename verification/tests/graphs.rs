use std::collections::HashSet;
use std::iter::FromIterator;

use ralgo::GraphIndexed;
use ralgo::StaticGraph;

fn vertices_equal(left: &[usize], right: &[usize]) -> bool {
    let left = HashSet::<usize>::from_iter(left.iter().cloned());
    let right = HashSet::<usize>::from_iter(right.iter().cloned());
    left == right
}

#[test]
fn indexed_simple_graph_works() {
    let graph = GraphIndexed::new(5, &[(0, 1), (2, 1), (3, 1)]);
    assert_eq!(graph.n_vert(), 5);
    assert!(vertices_equal(graph.neighbors(0), &[1]));
    assert!(vertices_equal(graph.neighbors(1), &[0, 2, 3]));
    assert!(vertices_equal(graph.neighbors(2), &[1]));
    assert!(vertices_equal(graph.neighbors(3), &[1]));
    assert!(vertices_equal(graph.neighbors(4), &[]));
}

#[test]
fn indexed_empty_graph_works() {
    let graph = GraphIndexed::new(5, &[]);
    assert_eq!(graph.n_vert(), 5);
}

#[test]
fn indexed_full_graph_works() {
    let graph = GraphIndexed::new(4, &[(0, 1), (0, 2), (0, 3), (1, 2), (1, 3), (2, 3)]);
    assert_eq!(graph.n_vert(), 4);
    assert!(vertices_equal(graph.neighbors(0), &[1, 2, 3]));
    assert!(vertices_equal(graph.neighbors(1), &[0, 2, 3]));
    assert!(vertices_equal(graph.neighbors(2), &[0, 1, 3]));
    assert!(vertices_equal(graph.neighbors(3), &[0, 1, 2]));
}

#[test]
fn static_graph_simple_graph_works() {
    let graph = StaticGraph::new(5, &[(0, 1), (2, 1), (3, 1)]);
    assert_eq!(graph.n_vert(), 5);
    assert_eq!(graph.n_edges(), 3);
    assert!(vertices_equal(graph.neighbors(0), &[1]));
    assert!(vertices_equal(graph.neighbors(1), &[0, 2, 3]));
    assert!(vertices_equal(graph.neighbors(2), &[1]));
    assert!(vertices_equal(graph.neighbors(3), &[1]));
    assert!(vertices_equal(graph.neighbors(4), &[]));
}

#[test]
fn static_graph_empty_graph_works() {
    let graph = StaticGraph::new(5, &[]);
    assert_eq!(graph.n_vert(), 5);
    assert_eq!(graph.n_edges(), 0);
}

#[test]
fn static_graph_full_graph_works() {
    let graph = StaticGraph::new(4, &[(0, 1), (0, 2), (0, 3), (1, 2), (1, 3), (2, 3)]);
    assert_eq!(graph.n_vert(), 4);
    assert_eq!(graph.n_edges(), 6);
    assert!(vertices_equal(graph.neighbors(0), &[1, 2, 3]));
    assert!(vertices_equal(graph.neighbors(1), &[0, 2, 3]));
    assert!(vertices_equal(graph.neighbors(2), &[0, 1, 3]));
    assert!(vertices_equal(graph.neighbors(3), &[0, 1, 2]));
}

#[test]
fn static_graph_ordered_blocks() {
    let graph = StaticGraph::new(5, &[(0, 1), (2, 3)]);
    assert_eq!(graph.n_vert(), 5);
    assert_eq!(graph.n_edges(), 2);
    assert_eq!(graph.neighbors(0), &[1]);
    assert_eq!(graph.neighbors(1), &[0]);
    assert_eq!(graph.neighbors(2), &[3]);
    assert_eq!(graph.neighbors(3), &[2]);
    let empty: &[usize] = &[];
    assert_eq!(graph.neighbors(4), empty);
}
