use ralgo::DjsuIndex;
use ralgo::DjsuRooted;

#[test]
fn index_init_works() {
    let mut djsu = DjsuIndex::new(25);
    assert_eq!(djsu.n_components(), 25);
    for i in 0..25 {
        assert_eq!(djsu.find(i), i);
    }
}

#[test]
fn index_union_works() {
    let mut djsu = DjsuIndex::new(8);
    djsu.union(0, 1);
    djsu.union(1, 2);
    djsu.union(2, 3);
    djsu.union(4, 5);
    djsu.union(5, 6);

    assert_eq!(djsu.n_components(), 3);
    for i in 0..4 {
        for k in 0..4 {
            assert!(djsu.connected(i, k));
        }
    }
    for i in 4..7 {
        for k in 4..7 {
            assert!(djsu.connected(i, k));
        }
    }
    for i in 0..4 {
        for k in 4..7 {
            assert!(!djsu.connected(i, k));
        }
    }
    for i in 0..7 {
        assert!(!djsu.connected(i, 7));
    }
}

#[test]
fn rooted_init_works() {
    let mut djsu = DjsuRooted::new(25);
    assert_eq!(djsu.n_components(), 25);
    for i in 0..25 {
        assert_eq!(djsu.find(i), i);
    }
}

#[test]
fn rooted_union_works() {
    let mut djsu = DjsuIndex::new(8);
    djsu.union(0, 1);
    djsu.union(1, 2);
    djsu.union(2, 3);
    djsu.union(4, 5);
    djsu.union(5, 6);

    assert_eq!(djsu.n_components(), 3);
    for i in 0..4 {
        for k in 0..4 {
            assert!(djsu.connected(i, k));
        }
        assert_eq!(djsu.find(i), 0);
    }
    for i in 4..7 {
        for k in 4..7 {
            assert!(djsu.connected(i, k));
        }
        assert_eq!(djsu.find(i), 4);
    }
    for i in 0..4 {
        for k in 4..7 {
            assert!(!djsu.connected(i, k));
        }
    }
    for i in 0..7 {
        assert!(!djsu.connected(i, 7));
    }
}

#[test]
fn simple_test() {
    let mut djsu = DjsuIndex::new(5);
    djsu.union(3, 4);
    djsu.union(3, 2);
    djsu.union(2, 0);
    assert_eq!(djsu.find(3), 3);
}

#[test]
fn rooted_union_keeps_major_root() {
    let mut djsu = DjsuRooted::new(5);
    djsu.union(1, 0);
    djsu.union(1, 2);
    assert_eq!(djsu.n_components(), 3);
    assert_eq!(djsu.find(0), 1);
    assert_eq!(djsu.find(1), 1);
    assert_eq!(djsu.find(2), 1);
    let before = djsu.find(1);
    djsu.union(1, 3);
    assert_eq!(djsu.find(1), before);
    assert_eq!(djsu.find(3), before);
}

#[test]
fn no_op_union_keeps_count() {
    let mut djsu = DjsuIndex::new(4);
    djsu.union(0, 1);
    assert_eq!(djsu.n_components(), 3);
    djsu.union(1, 0);
    assert_eq!(djsu.n_components(), 3);
    djsu.union(2, 3);
    assert_eq!(djsu.n_components(), 2);
}
