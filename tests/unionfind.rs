use regalloc2::unionfind::UnionFind;

#[test]
fn singletons_then_unions() {
    let mut uf = UnionFind::new(6);
    for i in 0..6 {
        assert_eq!(uf.find(i), i);
    }
    assert!(uf.union(0, 1));
    assert_eq!(uf.find(0), 1);
    assert!(uf.union(2, 3));
    assert!(uf.union(1, 3));
    assert_eq!(uf.find(0), uf.find(2));
    assert_eq!(uf.find(0), 3);
    assert!(!uf.union(0, 2));
    assert_ne!(uf.find(4), uf.find(0));
    assert_eq!(uf.find(5), 5);
}

#[test]
fn union_with_itself_changes_nothing() {
    let mut uf = UnionFind::new(2);
    assert!(!uf.union(1, 1));
    assert_eq!(uf.find(1), 1);
    assert_eq!(uf.find(0), 0);
}
