use rand::Rng;
use rsalgo::ds::DisjointSet;

#[test]
fn disjoint_set() {
    let mut rng = rand::thread_rng();

    const SIZE: usize = 100;

    let mut sa = DisjointSet::new(SIZE, true);
    let mut sb = DisjointSet::new(SIZE, false);

    assert_eq!(SIZE, sa.len());

    for _ in 0..5 {
        let a = rng.gen_range(0, SIZE);
        let b = rng.gen_range(0, SIZE);

        assert_eq!(sa.in_same(a, b), sb.in_same(a, b));

        sa.unite(a, b);
        sb.unite(a, b);

        assert!(sa.in_same(a, b));
        assert!(sb.in_same(a, b));
    }
}

#[test]
fn new_sets_are_singletons() {
    let mut s = DisjointSet::new(4, true);
    assert_eq!(4, s.len());
    assert_eq!(4, s.capacity());
    assert!(!s.is_empty());
    assert!(!s.is_one());
    for i in 0..4 {
        assert_eq!(i, s.find(i));
    }
    assert!(!s.in_same(0, 1));
    assert!(DisjointSet::new(0, false).is_empty());
    assert!(DisjointSet::new(1, false).is_one());
}

#[test]
fn unite_counts_each_merge_once() {
    let mut s = DisjointSet::new(5, true);
    s.unite(0, 1);
    assert_eq!(4, s.len());
    s.unite(1, 0);
    assert_eq!(4, s.len());
    s.unite(2, 3);
    assert_eq!(3, s.len());
    s.unite(0, 3);
    assert_eq!(2, s.len());
    s.unite(1, 2);
    assert_eq!(2, s.len());
    s.unite(4, 0);
    assert_eq!(1, s.len());
    assert!(s.is_one());
}

#[test]
fn in_same_follows_chains() {
    let mut s = DisjointSet::new(6, false);
    s.unite(0, 1);
    s.unite(1, 2);
    s.unite(4, 5);
    assert!(s.in_same(0, 2));
    assert!(s.in_same(2, 0));
    assert!(s.in_same(5, 4));
    assert!(!s.in_same(0, 3));
    assert!(!s.in_same(2, 4));
    assert!(s.in_same(3, 3));
}

#[test]
fn rank_decides_the_representative() {
    let mut s = DisjointSet::new(4, true);
    // equal ranks: the first argument's root stays
    s.unite(0, 1);
    assert_eq!(0, s.find(1));
    // rank of 0 is now 1, rank of 2 is 0: 2 goes below 0 whichever comes first
    s.unite(2, 1);
    assert_eq!(0, s.find(2));
    s.unite(3, 0);
    assert_eq!(0, s.find(3));

    let mut t = DisjointSet::new(3, false);
    t.unite(0, 1);
    t.unite(2, 0);
    // without ranks the first argument's root always stays
    assert_eq!(2, t.find(1));
}
