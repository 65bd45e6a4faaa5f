use ralgo::GraphIndexed;
use ralgo::DFS;

#[test]
fn dfs_empty_graph_works() {
    let graph = GraphIndexed::new(5, &[]);
    let dfs = DFS::new(&graph, 0);

    assert_eq!(dfs.source(), 0);
    assert_eq!(dfs.n_vert_reached(), 1);
    assert!(!dfs.cycle_found());

    for v in 0..5 {
        assert_eq!(dfs.is_reached(v), v == 0);
        assert!(dfs.parent(v).is_none());
    }
}

#[test]
fn cycle_works() {
    let graph = GraphIndexed::new(10, &[(0, 1), (1, 2), (2, 3), (3, 4), (4, 0)]);
    let dfs = DFS::new(&graph, 0);

    assert_eq!(dfs.source(), 0);
    assert_eq!(dfs.n_vert_reached(), 5);
    assert!(dfs.cycle_found());

    for v in 0..5 {
        assert!(dfs.is_reached(v));
        assert_eq!(dfs.parent(v).is_none(), v == 0);
    }

    for v in 5..10 {
        assert!(!dfs.is_reached(v));
        assert!(dfs.parent(v).is_none());
    }
}

#[test]
fn dfs_full_graph_works() {
    let graph = GraphIndexed::new(4, &[(0, 1), (0, 2), (0, 3), (1, 2), (1, 3), (2, 3)]);
    let dfs = DFS::new(&graph, 3);
    assert_eq!(dfs.source(), 3);
    assert_eq!(dfs.n_vert_reached(), 4);
    assert!(dfs.cycle_found());
    for v in 0..4 {
        assert!(dfs.is_reached(v));
        assert_eq!(dfs.parent(v).is_none(), v == 3);
    }
}
