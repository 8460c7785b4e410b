use rand::Rng;
use rsalgo::math::number_theory::prime::{passes, witness};
use rsalgo::math::number_theory::root::{ceil_sqrt, floor_sqrt};
use rsalgo::math::number_theory::{
    decompose, exgcd, gcd, gcd_euclid, inverse, is_prime, is_prime_trial, lcm, linear_modulo,
    log, modulo, phi, quick_multiply, quick_pow,
};

#[test]
fn number_theory_gcd() {
    assert_eq!(3, gcd(3, 6));
    assert_eq!(12, gcd(24, 36));
    assert_eq!(5, gcd(5, 0));
}

#[test]
fn number_theory_lcm() {
    assert_eq!(6, lcm(3, 6));
    assert_eq!(72, lcm(24, 36));
    assert_eq!(245, lcm(35, 49));
    assert_eq!(0, lcm(5, 0));
}

#[test]
fn number_theory_quick_pow_multiply_test() {
    let mut rng = rand::thread_rng();

    for _ in 0..5 {
        let a = rng.gen_range(0, 1000);
        let b = rng.gen_range(0, 1000);
        let md = rng.gen_range(1, 1000);

        assert_eq!(a * b % md, quick_multiply(a, b, md));

        let mut rpow = 1;
        for _ in 0..b {
            rpow *= a;
            rpow %= md;
        }

        assert_eq!(rpow, quick_pow(a, b, md));
    }
}

#[test]
fn gcd_gcd() {
    assert_eq!(3, gcd_euclid(3, 6));
    assert_eq!(12, gcd_euclid(24, 36));
    assert_eq!(5, gcd_euclid(5, 0));

    assert_eq!(3, gcd(3, 6));
    assert_eq!(12, gcd(24, 36));
    assert_eq!(5, gcd(5, 0));
}

#[test]
fn binary_gcd_agrees_with_division() {
    assert_eq!(0, gcd(0, 0));
    assert_eq!(7, gcd(0, 7));
    assert_eq!(8, gcd(8, 8));
    assert_eq!(4, gcd(12, 8));
    assert_eq!(1, gcd(1 << 40, 3));
    assert_eq!(1 << 20, gcd(1 << 40, 3 << 20));
    for a in 0..40usize {
        for b in 0..40usize {
            assert_eq!(gcd_euclid(a, b), gcd(a, b));
        }
    }
}

#[test]
fn is_prime_never_rejects_a_prime() {
    for p in [2usize, 3, 5, 7, 11, 13, 97, 7919, 1_000_000_007] {
        assert!(is_prime(p));
    }
    // an even number above two is shown composite by every number drawn but one
    assert!(!is_prime(1_000_000_008));
    assert!(!is_prime(561 * 1_000_003));
}

#[test]
fn log_finds_an_exponent() {
    assert_eq!(Some(0), log(3, 1, 7));
    assert_eq!(Some(3), log(2, 8, 11));
    let x = log(5, 3, 23).unwrap();
    assert_eq!(3, quick_pow(5, x, 23));
    // two is no power of four modulo seven
    assert_eq!(None, log(4, 3, 7));
    // no inverse of the giant step
    assert_eq!(None, log(2, 3, 8));
}

#[test]
fn gcd_lcm() {
    assert_eq!(6, lcm(3, 6));
    assert_eq!(72, lcm(24, 36));
    assert_eq!(245, lcm(35, 49));
    assert_eq!(0, lcm(5, 0));
}

#[test]
fn mod_quick_pow_multiply_test() {
    let mut rng = rand::thread_rng();

    for _ in 0..5 {
        let a = rng.gen_range(0, 1000);
        let b = rng.gen_range(0, 1000);
        let md = rng.gen_range(1, 1000);

        assert_eq!(a * b % md, quick_multiply(a, b, md));

        let mut rpow = 1;
        for _ in 0..b {
            rpow *= a;
            rpow %= md;
        }

        assert_eq!(rpow, quick_pow(a, b, md));
    }
}

#[test]
fn trial() {
    assert!(is_prime_trial(2));
    assert!(is_prime_trial(3));
    assert!(!is_prime_trial(4));
    assert!(is_prime_trial(5));
    assert!(!is_prime_trial(6));
    assert!(is_prime_trial(7));
}

#[test]
fn trial_on_squares_and_larger_primes() {
    assert!(!is_prime_trial(9));
    assert!(!is_prime_trial(49));
    assert!(!is_prime_trial(7919 * 7919));
    assert!(is_prime_trial(7919));
    assert!(is_prime_trial(1_000_000_007));
}

#[test]
fn gcd_euclid_of_zeros_and_order() {
    assert_eq!(0, gcd_euclid(0, 0));
    assert_eq!(7, gcd_euclid(0, 7));
    assert_eq!(1, gcd_euclid(17, 5));
    assert_eq!(gcd_euclid(36, 24), gcd_euclid(24, 36));
}

#[test]
fn exgcd_gives_bezout_numbers() {
    for (a, b) in [(240usize, 46usize), (46, 240), (7, 0), (0, 7), (0, 0), (17, 17), (1, 1)] {
        let (x, y, d) = exgcd(a, b);
        assert_eq!(gcd_euclid(a, b), d);
        assert_eq!(d as isize, a as isize * x + b as isize * y);
    }
    assert_eq!((1, 0, 7), exgcd(7, 0));
    assert_eq!((-9, 47, 2), exgcd(240, 46));
}

#[test]
fn quick_pow_exact_values() {
    assert_eq!(25, quick_pow(5, 7, 100));
    assert_eq!(1, quick_pow(5, 0, 100));
    // the power zero is one whatever the modulus
    assert_eq!(1, quick_pow(5, 0, 1));
    assert_eq!(0, quick_pow(5, 3, 1));
    assert_eq!(0, quick_pow(0, 3, 7));
    assert_eq!(1, quick_pow(2, 10, 1023));
}

#[test]
fn quick_multiply_exact_values() {
    assert_eq!(5, quick_multiply(5, 7, 10));
    assert_eq!(0, quick_multiply(5, 0, 10));
    assert_eq!(0, quick_multiply(5, 7, 1));
    assert_eq!(1, quick_multiply(1 << 40, 1 << 40, (1 << 40) - 1));
}

#[test]
fn modulo_of_negative_values() {
    assert_eq!(2, modulo(7, 5));
    assert_eq!(3, modulo(-7, 5));
    assert_eq!(0, modulo(10, 5));
    // a negative multiple comes back as the modulus itself
    assert_eq!(5, modulo(-10, 5));
    assert_eq!(1, modulo(isize::MIN + 1, 2));
}

#[test]
fn inverse_exists_for_coprime_values() {
    assert_eq!(Some(4), inverse(3, 11));
    assert_eq!(Some(5), inverse(3, 7));
    assert_eq!(None, inverse(4, 8));
    assert_eq!(None, inverse(0, 8));
    for v in 1..13 {
        let i = inverse(v, 13).unwrap();
        assert_eq!(1, v * i % 13);
    }
}

#[test]
fn linear_modulo_answers() {
    assert_eq!(None, linear_modulo(4, 3, 8));
    // 4 * x = 4 (mod 8) with the number that exgcd finds
    let x = linear_modulo(4, 12, 8).unwrap();
    assert_eq!(4, 4 * x % 8);
    assert_eq!(Some(4), linear_modulo(3, 1, 11));
}

#[test]
fn decompose_into_prime_powers() {
    assert_eq!(Vec::<(usize, usize)>::new(), decompose(0));
    assert_eq!(Vec::<(usize, usize)>::new(), decompose(1));
    assert_eq!(vec![(2, 1)], decompose(2));
    assert_eq!(vec![(2, 3), (3, 2), (5, 1)], decompose(360));
    assert_eq!(vec![(7, 2)], decompose(49));
    assert_eq!(vec![(2, 1), (1_000_000_007, 1)], decompose(2_000_000_014));
}

#[test]
fn phi_counts_coprime_numbers() {
    assert_eq!(0, phi(0));
    assert_eq!(1, phi(1));
    assert_eq!(1, phi(2));
    assert_eq!(4, phi(12));
    assert_eq!(96, phi(360));
    assert_eq!(42, phi(49));
    assert_eq!(1_000_000_006, phi(1_000_000_007));
    for n in 1..60usize {
        let count = (1..=n).filter(|&k| gcd_euclid(k, n) == 1).count();
        assert_eq!(count, phi(n));
    }
}

#[test]
fn witness_of_composites() {
    // 9 - 1 = 1 * 2^3
    assert!(witness(2, 1, 3, 9));
    // one never shows anything
    assert!(!witness(1, 1, 3, 9));
    // 8 = -1 modulo 9 neither
    assert!(!witness(8, 1, 3, 9));
    // 13 - 1 = 3 * 2^2: no number shows a prime composite
    for a in 1..13 {
        assert!(!witness(a, 3, 2, 13));
    }
    // 561 - 1 = 35 * 2^4, and 2 shows it composite by a root of one
    assert!(witness(2, 35, 4, 561));
}

#[test]
fn square_roots_round_as_told() {
    assert_eq!(0, floor_sqrt(0));
    assert_eq!(1, floor_sqrt(1));
    assert_eq!(1, floor_sqrt(3));
    assert_eq!(2, floor_sqrt(4));
    assert_eq!(9, floor_sqrt(99));
    assert_eq!(10, floor_sqrt(100));
    assert_eq!(0, ceil_sqrt(0));
    assert_eq!(1, ceil_sqrt(1));
    assert_eq!(2, ceil_sqrt(2));
    assert_eq!(2, ceil_sqrt(4));
    assert_eq!(3, ceil_sqrt(5));
    assert_eq!(10, ceil_sqrt(100));
    assert_eq!(11, ceil_sqrt(101));
}

#[test]
fn passes_for_given_bases() {
    // nothing drawn, nothing shown
    assert!(passes(9, &[]));
    // one and minus one show nothing against any number
    assert!(passes(9, &[1, 8]));
    assert!(!passes(9, &[1, 2, 8]));
    assert!(!passes(9, &[2]));
    let all: Vec<usize> = (1..13).collect();
    assert!(passes(13, &all));
    assert!(passes(2, &[1]));
    // 561 passes for some bases and fails for others
    assert!(passes(561, &[1, 560]));
    assert!(!passes(561, &[1, 560, 2]));
}
