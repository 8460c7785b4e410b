use rand::Rng;
use rsalgo::base::search;
use rsalgo::base::SubsetGenerator;

#[test]
fn dichotomy() {
    assert_eq!(Some(5), rsalgo::base::dichotomy(0, 10, |val| val >= 5));
    assert_eq!(None, rsalgo::base::dichotomy(0, 10, |val| val > 10));
}

#[test]
fn lower_bound() {
    let slice = [0, 1, 2, 3, 4, 5, 6, 7, 8, 9];
    assert_eq!(Some(5), rsalgo::base::lower_bound(&slice, &5));
    assert_eq!(Some(0), rsalgo::base::lower_bound(&slice, &-1));
    assert_eq!(None, rsalgo::base::lower_bound(&slice, &10));
}

#[test]
fn upper_bound() {
    let slice = [0, 1, 2, 3, 4, 5, 6, 7, 8, 9];
    assert_eq!(Some(6), rsalgo::base::upper_bound(&slice, &5));
    assert_eq!(Some(0), rsalgo::base::upper_bound(&slice, &-1));
    assert_eq!(None, rsalgo::base::upper_bound(&slice, &10));
}

#[test]
fn equal_range() {
    let slice = [0, 1, 2, 2, 2, 5, 6, 7, 8, 9];
    assert_eq!(Some((2, 5)), rsalgo::base::equal_range(&slice, &2));
}

#[test]
fn next_subset() {
    let mut gen = SubsetGenerator::new(0b110, 0b110);
    assert_eq!(Some(0b100), gen.next());
    assert_eq!(Some(0b010), gen.next());
    assert_eq!(Some(0b000), gen.next());
    assert_eq!(None, gen.next());
}

#[test]
fn dichotomy_edges() {
    // an empty interval has no first value
    assert_eq!(None, search::dichotomy(3, 3, |_| true));
    assert_eq!(None, search::dichotomy(5, 3, |_| true));
    assert_eq!(Some(0), search::dichotomy(0, 10, |_| true));
    assert_eq!(Some(9), search::dichotomy(0, 10, |val| val >= 9));
    assert_eq!(Some(7), search::dichotomy(7, 8, |val| val >= 2));
    let top = isize::MAX;
    assert_eq!(Some(top - 1), search::dichotomy(top - 5, top, |val| val >= top - 1));
}

#[test]
fn bounds_on_empty_and_equal_items() {
    let empty: [i32; 0] = [];
    assert_eq!(None, search::lower_bound(&empty, &1));
    assert_eq!(None, search::upper_bound(&empty, &1));
    assert_eq!(None, search::equal_range(&empty, &1));
    let same = [4, 4, 4];
    assert_eq!(Some(0), search::lower_bound(&same, &4));
    assert_eq!(None, search::upper_bound(&same, &4));
    assert_eq!(Some((0, 3)), search::equal_range(&same, &4));
    assert_eq!(Some((0, 0)), search::equal_range(&same, &1));
    assert_eq!(None, search::equal_range(&same, &9));
}

#[test]
fn subset_generator_stays_within_the_full_set() {
    let mut gen = SubsetGenerator::new(0b100, 0b110);
    assert_eq!(Some(0b010), gen.next());
    let mut gen = SubsetGenerator::new(0b1011, 0b1011);
    let mut seen = Vec::new();
    while let Some(s) = gen.next() {
        assert_eq!(s, s & 0b1011);
        seen.push(s);
    }
    assert_eq!(vec![0b1010, 0b1001, 0b1000, 0b0011, 0b0010, 0b0001, 0b0000], seen);
    assert_eq!(None, SubsetGenerator::new(0, 0b11).next());
}

#[test]
fn inversion_pairs_count() {
    assert_eq!(
        9,
        rsalgo::base::inversion_pairs_count(&[1, 3, 5, 3, 2, 4, 7, 9, 6, 6])
    );
}

#[test]
fn discretization() {
    let slice = [0, 1, 2, 1, 5];
    assert_eq!([0, 1, 2, 1, 3], rsalgo::base::discretization(&slice).as_slice());

    const LEN: usize = 128;
    let mut data = [0; LEN];
    let mut rng = rand::thread_rng();
    rng.fill(&mut data[..]);

    let d_data = rsalgo::base::discretization(&data);
    for &val in &d_data {
        assert!(val < LEN);
    }

    for i in 0..LEN {
        for j in 0..LEN {
            assert!(data[i].cmp(&data[j]) == d_data[i].cmp(&d_data[j]));
        }
    }
}

#[test]
fn inversion_pairs_edges() {
    let none: [u8; 0] = [];
    assert_eq!(0, rsalgo::base::inversion_pairs_count(&none));
    assert_eq!(0, rsalgo::base::inversion_pairs_count(&[7]));
    assert_eq!(0, rsalgo::base::inversion_pairs_count(&[1, 2, 2, 3]));
    assert_eq!(6, rsalgo::base::inversion_pairs_count(&[4, 3, 2, 1]));
    assert_eq!(0, rsalgo::base::inversion_pairs_count(&[5, 5, 5]));
    assert_eq!(2, rsalgo::base::inversion_pairs_count(&["b", "c", "a"]));
    let data = [9u32, 1, 8, 2, 7, 3, 7, 1];
    let mut plain = 0;
    for i in 0..data.len() {
        for j in i + 1..data.len() {
            if data[i] > data[j] {
                plain += 1;
            }
        }
    }
    assert_eq!(plain, rsalgo::base::inversion_pairs_count(&data));
}

#[test]
fn discretization_edges() {
    let none: [i32; 0] = [];
    assert!(rsalgo::base::discretization(&none).is_empty());
    assert_eq!(vec![0, 0, 0], rsalgo::base::discretization(&[3, 3, 3]));
    assert_eq!(vec![2, 1, 0], rsalgo::base::discretization(&[30, 20, -10]));
    assert_eq!(vec![1, 0, 1, 2], rsalgo::base::discretization(&["m", "a", "m", "z"]));
}
