use rand::Rng;
use rsalgo::ds::sparse_table::floor_log2;
use rsalgo::ds::{FenwickTree, MonotonicQueue, PrefixSum1D, SparseTable};

#[test]
fn monotonic_queue() {
    let a = [1, 2, 2, 1, 3, 9, 4, 5, 20, 80];
    let expect = [1, 1, 3, 4, 5, 20, 80];

    let mut q: MonotonicQueue<u32> = MonotonicQueue::new();
    assert!(q.is_empty());

    for x in &a {
        q.enqueue(x);
    }

    assert_eq!(q.len(), expect.len());

    for x in &expect {
        assert_eq!(&x, q.head().unwrap());
        assert_eq!(x, q.dequeue().unwrap());
    }

    assert!(q.is_empty());
}

#[test]
fn d1() {
    let source: Vec<usize> = (0..100).collect();
    let ps = PrefixSum1D::new(&source, 0);

    assert_eq!(ps.sum(1..1), (1..1).sum());
    assert_eq!(ps.sum(10..15), (10..15).sum());
    assert_eq!(ps.sum(0..100), (0..100).sum());
}

#[test]
fn m1_qp() {
    const LEN: usize = 100;
    let mut source: Vec<usize> = vec![0; LEN];
    let mut ft = FenwickTree::new(LEN, 0);

    let mut rng = rand::thread_rng();

    for _ in 1..1000 {
        if rng.gen_ratio(2, 3) {
            let pos = rng.gen_range(0, LEN);
            let delta = rng.gen_range(0, LEN);
            source[pos] += delta;
            ft.add(pos, delta);
        } else {
            let pos = rng.gen_range(0, LEN);
            let mut exp = 0;
            for i in 0..pos {
                exp += source[i]
            }
            assert_eq!(exp, ft.prefix_sum(pos));
        }
    }
}

#[test]
fn monotonic_queue_drops_larger_items() {
    let mut buf = MonotonicQueue::new();
    buf.enqueue(&1);
    buf.enqueue(&3);
    buf.enqueue(&2);
    assert_eq!(2, buf.len());
    assert_eq!(Some(&&1), buf.head());
    assert_eq!(Some(&1), buf.dequeue());
    assert_eq!(Some(&2), buf.dequeue());
    assert_eq!(None, buf.dequeue());
    assert_eq!(None, buf.head());
    buf.enqueue(&5);
    buf.clear();
    assert!(buf.is_empty());
    let d: MonotonicQueue<u8> = Default::default();
    assert_eq!(0, d.len());
}

#[test]
fn prefix_sum_exact_values() {
    let ps = PrefixSum1D::new(&[3i64, -1, 4, 1], 10);
    assert_eq!(0, ps.sum(0..0));
    assert_eq!(3, ps.sum(0..1));
    assert_eq!(7, ps.sum(0..4));
    assert_eq!(3, ps.sum(1..3));
    let none = PrefixSum1D::new(&[0u8; 0], 0);
    assert_eq!(0, none.sum(0..0));
}

#[test]
fn fenwick_exact_values() {
    let mut v: FenwickTree<u32> = FenwickTree::new(10, 0);
    assert_eq!(10, v.len());
    assert!(!v.is_empty());
    v.add(0, 1);
    assert_eq!(1, v.prefix_sum(1));
    v.add(1, 2);
    assert_eq!(3, v.prefix_sum(2));
    v.add(9, 5);
    assert_eq!(3, v.prefix_sum(9));
    assert_eq!(8, v.prefix_sum(10));
    assert_eq!(0, v.prefix_sum(0));
    // a position past the end changes nothing
    v.add(10, 7);
    assert_eq!(8, v.prefix_sum(10));
    assert!(FenwickTree::<u32>::new(0, 0).is_empty());
}

#[test]
fn st() {
    const LEN: usize = 50;
    let mut rng = rand::thread_rng();
    let mut ori = [0; LEN];
    rng.fill(&mut ori[..]);
    let st = SparseTable::new(&ori[..]);

    for _ in 0..1000 {
        let l = rng.gen_range(0, LEN / 2);
        let r = rng.gen_range(LEN / 2, LEN);
        println!("{:?}", (l, r));
        assert_eq!(ori[l..r].iter().min().unwrap(), st.min(l..r));
    }
}

#[test]
fn sparse_table_exact_values() {
    let values = [5, 2, 9, 2, 7, 1, 8];
    let st = SparseTable::new(&values);
    assert_eq!(7, st.len());
    assert!(!st.is_empty());
    for l in 0..values.len() {
        for r in l + 1..=values.len() {
            assert_eq!(values[l..r].iter().min().unwrap(), st.min(l..r));
        }
    }
    assert_eq!(&1, st.min(0..7));
    assert_eq!(&5, st.min(0..1));
    assert_eq!(&2, st.min(1..4));
    let none: [u8; 0] = [];
    assert!(SparseTable::new(&none).is_empty());
    let one = [3];
    assert_eq!(&3, SparseTable::new(&one).min(0..1));
}

#[test]
fn floor_log2_exact_values() {
    assert_eq!(0, floor_log2(1));
    assert_eq!(1, floor_log2(2));
    assert_eq!(1, floor_log2(3));
    assert_eq!(2, floor_log2(4));
    assert_eq!(9, floor_log2(1023));
    assert_eq!(10, floor_log2(1024));
    assert_eq!(63, floor_log2(usize::MAX));
}
