use ralgo::GraphIndexed;
use ralgo::LcaOffline;
use ralgo::TreeIndexed;

#[test]
fn test_basic() {
    let graph = GraphIndexed::new(5, &[(3, 2), (2, 1), (0, 2), (4, 3)]);
    let tree = TreeIndexed::new(&graph, 3).unwrap();
    let lca = LcaOffline::new(
        &tree,
        &[
            (1, 0),
            (1, 2),
            (1, 3),
            (1, 4),
            (2, 3),
            (2, 4),
            (3, 4),
            (2, 0),
            (3, 0),
            (4, 0),
            (2, 2),
        ],
    );

    assert_eq!(lca.ancestor(1, 0).unwrap(), 2);
    assert_eq!(lca.ancestor(2, 1).unwrap(), 2);
    assert_eq!(lca.ancestor(1, 3).unwrap(), 3);
    assert_eq!(lca.ancestor(4, 1).unwrap(), 3);
    assert_eq!(lca.ancestor(2, 3).unwrap(), 3);
    assert_eq!(lca.ancestor(4, 2).unwrap(), 3);
    assert_eq!(lca.ancestor(4, 3).unwrap(), 3);
    assert_eq!(lca.ancestor(2, 0).unwrap(), 2);
    assert_eq!(lca.ancestor(0, 3).unwrap(), 3);
    assert_eq!(lca.ancestor(4, 0).unwrap(), 3);
    assert_eq!(lca.ancestor(2, 2).unwrap(), 2);

    assert!(lca.ancestor(0, 0).is_err());
    assert!(lca.ancestor(1, 1).is_err());
    assert!(lca.ancestor(3, 3).is_err());
    assert!(lca.ancestor(4, 4).is_err());
}

#[test]
fn path_graph_lca_is_shallower() {
    // a chain 0 - 1 - 2 - 3 - 4 rooted at 0: the ancestor of any two
    // vertices is the one closer to the root
    let graph = GraphIndexed::new(5, &[(0, 1), (1, 2), (2, 3), (3, 4)]);
    let tree = TreeIndexed::new(&graph, 0).unwrap();
    let mut queries = Vec::new();
    for a in 0..5usize {
        for b in (a + 1)..5usize {
            queries.push((a, b));
        }
    }
    let lca = LcaOffline::new(&tree, &queries);
    for a in 0..5usize {
        for b in (a + 1)..5usize {
            assert_eq!(lca.ancestor(a, b).unwrap(), a);
            assert_eq!(lca.ancestor(b, a).unwrap(), a);
        }
    }
}

#[test]
fn star_graph_lca_is_center() {
    // a star with center 0 and leaves 1..=4: the ancestor of any two
    // leaves is the center
    let graph = GraphIndexed::new(5, &[(0, 1), (0, 2), (0, 3), (0, 4)]);
    let tree = TreeIndexed::new(&graph, 0).unwrap();
    let queries = [(1, 2), (1, 3), (1, 4), (2, 3), (2, 4), (3, 4)];
    let lca = LcaOffline::new(&tree, &queries);
    for a in 1..5usize {
        for b in (a + 1)..5usize {
            assert_eq!(lca.ancestor(a, b).unwrap(), 0);
        }
    }
}
