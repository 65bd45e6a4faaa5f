use ralgo::UnionFind;

#[test]
fn union_find_init_works() {
    let mut uf = UnionFind::new(25);
    assert_eq!(uf.n_components(), 25);
    for i in 0..25 {
        assert_eq!(uf.find(i), i);
    }
}

#[test]
fn union_find_union_works() {
    let mut uf = UnionFind::new(8);
    uf.union(0, 1);
    uf.union(1, 2);
    uf.union(2, 3);
    uf.union(4, 5);
    uf.union(5, 6);

    assert_eq!(uf.n_components(), 3);
    for i in 0..4 {
        for k in 0..4 {
            assert!(uf.connected(i, k));
        }
    }
    for i in 4..7 {
        for k in 4..7 {
            assert!(uf.connected(i, k));
        }
    }
    for i in 0..4 {
        for k in 4..7 {
            assert!(!uf.connected(i, k));
        }
    }
    for i in 0..7 {
        assert!(!uf.connected(i, 7));
    }
}

#[test]
fn big_case_works() {
    let mut uf = UnionFind::new(99999);
    for i in (5..99999).step_by(3) {
        uf.union(i, i - 3);
        uf.union(i - 1, i - 4);
    }
    for i in (2..99999).step_by(3) {
        assert_eq!(uf.find(i), uf.find(2));
        assert_eq!(uf.find(i - 1), uf.find(1));
        assert_eq!(uf.find(i - 2), i - 2);
    }
}
