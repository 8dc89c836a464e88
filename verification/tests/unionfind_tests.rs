use percolation::UnionFind;

#[test]
fn fresh_store_is_all_singletons() {
    let mut uf = UnionFind::new(5);
    assert_eq!(uf.max_size(), 1);
    for i in 0..5 {
        assert_eq!(uf.size(i), 1);
        assert!(uf.same(i, i));
        assert_eq!(uf.find(i), i);
    }
}

#[test]
fn union_merges_and_sums_sizes() {
    let mut uf = UnionFind::new(10);
    uf.union(2, 7);
    assert!(uf.same(2, 7));
    let r2 = uf.find(2);
    let r7 = uf.find(7);
    assert_eq!(r2, r7);
    assert_eq!(uf.size(r2), 2);
    uf.union(2, 7);
    assert_eq!(uf.size(2), 2);
    assert_eq!(uf.max_size(), 2);
}

#[test]
fn union_tie_breaks_by_smaller_index() {
    let mut uf = UnionFind::new(6);
    uf.union(5, 3);
    assert_eq!(uf.find(5), 3);
    assert_eq!(uf.find(3), 3);
    uf.union(5, 4);
    assert_eq!(uf.find(4), 3);
    uf.union(1, 3);
    assert_eq!(uf.find(5), 1);
}

#[test]
fn sizes_partition_the_store() {
    let mut uf = UnionFind::new(8);
    uf.union(0, 1);
    uf.union(2, 3);
    uf.union(1, 3);
    uf.union(6, 7);
    let mut total: i64 = 0;
    for i in 0..8 {
        if uf.find(i) == i {
            total += uf.size(i);
        }
    }
    assert_eq!(total, 8);
}

#[test]
fn max_size_tracks_largest_component() {
    let mut uf = UnionFind::new(7);
    uf.union(0, 1);
    uf.union(1, 2);
    uf.union(4, 5);
    assert_eq!(uf.max_size(), 3);
    assert_eq!(uf.size(5), 2);
}

#[test]
fn empty_store_max_size_is_zero() {
    let mut uf = UnionFind::new(0);
    assert_eq!(uf.max_size(), 0);
}
