use meshcore::sim::union_find::UnionFind;

#[test]
fn fresh_nodes_are_their_own_roots() {
    let mut uf = UnionFind::new(4);
    for i in 0..4 {
        assert_eq!(uf.find(i), i);
    }
}

#[test]
fn union_joins_components_and_keeps_others_apart() {
    let mut uf = UnionFind::new(6);
    uf.union(0, 1);
    uf.union(2, 3);
    uf.union(1, 3);
    let r = uf.find(0);
    assert_eq!(uf.find(1), r);
    assert_eq!(uf.find(2), r);
    assert_eq!(uf.find(3), r);
    assert_ne!(uf.find(4), r);
    assert_ne!(uf.find(5), r);
    assert_ne!(uf.find(4), uf.find(5));
    // The first union hangs 0's root under 1's.
    let mut uf2 = UnionFind::new(2);
    uf2.union(0, 1);
    assert_eq!(uf2.find(0), 1);
}

#[test]
fn a_line_of_unions_is_one_component() {
    let n = 50;
    let mut uf = UnionFind::new(n);
    for i in 0..n - 1 {
        uf.union(i, i + 1);
    }
    let r = uf.find(0);
    for i in 0..n {
        assert_eq!(uf.find(i), r);
    }
    // Repeated finds after path compression still agree.
    for i in (0..n).rev() {
        assert_eq!(uf.find(i), r);
    }
}
