use super::divisors::{divides, lemma_divides_multiple, lemma_multiple_divides};
use super::root::floor_sqrt;
use super::{pow_mod, quick_pow, Uint};
use crate::base::bits::{lemma_lowbit, lemma_strip_zeros, low_zeros, lowbit};
use rand::rngs::ThreadRng;
use rand::Rng;
use vstd::arithmetic::div_mod::lemma_small_mod;
use vstd::arithmetic::power::pow;
use vstd::arithmetic::power2::pow2;
use vstd::prelude::*;

verus! {

/// `n` has no divisors but one and itself, and is not one.
pub open spec fn is_prime_spec(n: nat) -> bool {
    n >= 2 && forall|d: nat| #[trigger] divides(d, n) ==> d == 1 || d == n
}

/// No number from two up to but not including `bound` divides `n`.
pub open spec fn no_divisor_below(n: nat, bound: nat) -> bool {
    forall|d: nat| 2 <= d < bound ==> !#[trigger] divides(d, n)
}

/// A number without a divisor up to its square root is prime.
pub proof fn lemma_prime_by_root(n: nat, root: nat)
    requires
        n >= 2,
        n < (root + 1) * (root + 1),
        no_divisor_below(n, root + 1),
    ensures
        is_prime_spec(n),
{
    assert forall|d: nat| #[trigger] divides(d, n) implies d == 1 || d == n by {
        if d != 1 && d != n {
            lemma_divides_multiple(d, n);
            let q = n / d;
            super::divisors::lemma_divides_le(d, n);
            assert(q >= 2) by (nonlinear_arith)
                requires
                    n == d * q,
                    d < n,
                    d >= 2,
            ;
            assert(n == q * d) by (nonlinear_arith)
                requires
                    n == d * q,
            ;
            lemma_multiple_divides(q, d as int);
            assert(divides(q, n));
            if d > root && q > root {
                assert(d * q >= (root + 1) * (root + 1)) by (nonlinear_arith)
                    requires
                        d >= root + 1,
                        q >= root + 1,
                ;
            }
            if d <= root {
                assert(!divides(d, n));
            } else {
                assert(!divides(q, n));
            }
        }
    }
}

/// Test if `value` is prime by trial division O(sqrt(value)).
pub fn is_prime_trial(value: Uint) -> (r: bool)
    requires
        value >= 2,
    ensures
        r == is_prime_spec(value as nat),
{
    let sqrt = floor_sqrt(value);
    let mut x: usize = 2;
    while x <= sqrt
        invariant
            2 <= x <= sqrt + 1,
            sqrt < value,
            no_divisor_below(value as nat, x as nat),
        decreases sqrt + 1 - x,
    {
        if value % x == 0 {
            proof {
                assert(divides(x as nat, value as nat));
            }
            return false;
        }
        x += 1;
    }
    proof {
        lemma_prime_by_root(value as nat, sqrt as nat);
    }
    true
}

/// The generator of random numbers that `rand` keeps for each thread.
#[verifier::external_type_specification]
#[verifier::external_body]
pub struct ExThreadRng(ThreadRng);

/// The generator of the running thread, from `thread_rng` of `rand`. Nothing
/// is claimed of it.
#[verifier::external_body]
fn thread_generator() -> (rng: ThreadRng) {
    rand::thread_rng()
}

/// A number drawn by `gen_range` of `rand`: whatever comes, it is at least
/// `low` and below `high`.
#[verifier::external_body]
fn draw(rng: &mut ThreadRng, low: Uint, high: Uint) -> (a: Uint)
    requires
        low < high,
    ensures
        low <= a < high,
{
    rng.gen_range(low, high)
}

/// `a` to the power `u`, squared `i` times, all modulo `value`.
pub open spec fn squared(a: nat, u: nat, value: nat, i: nat) -> nat
    decreases i,
{
    if i == 0 {
        pow_mod(a, u, value)
    } else {
        let x = squared(a, u, value, (i - 1) as nat);
        (x * x) % value
    }
}

/// Squaring number `i + 1` gives one from a number that is neither one nor
/// `value - 1`: a root of one that a prime modulus does not have.
pub open spec fn odd_root(a: nat, u: nat, value: nat, i: nat) -> bool {
    &&& squared(a, u, value, i + 1) == 1
    &&& squared(a, u, value, i) != 1
    &&& squared(a, u, value, i) != value - 1
}

/// `a` shows by the test of Miller and Rabin that `value`, which is one more
/// than `u` times two to the `t`, is no prime.
pub open spec fn is_witness(a: nat, u: nat, t: nat, value: nat) -> bool {
    (exists|i: nat| i < t && #[trigger] odd_root(a, u, value, i)) || squared(a, u, value, t) != 1
}

/// Squaring `i` times raises to the power of two to the `i`.
proof fn lemma_squared_power(a: nat, u: nat, p: nat, i: nat)
    requires
        p >= 2,
    ensures
        squared(a, u, p, i) == pow(a as int, u * pow2(i)) % (p as int),
    decreases i,
{
    vstd::arithmetic::power2::lemma2_to64();
    if i == 0 {
        assert(u * 1 == u) by (nonlinear_arith);
        if u == 0 {
            vstd::arithmetic::power::lemma_pow0(a as int);
            lemma_small_mod(1, p);
        }
    } else {
        lemma_squared_power(a, u, p, (i - 1) as nat);
        let e = u * pow2((i - 1) as nat);
        vstd::arithmetic::power2::lemma_pow2_unfold(i);
        assert(u * pow2(i) == e + e) by (nonlinear_arith)
            requires
                pow2(i) == 2 * pow2((i - 1) as nat),
                e == u * pow2((i - 1) as nat),
        ;
        vstd::arithmetic::power::lemma_pow_adds(a as int, e, e);
        vstd::arithmetic::div_mod::lemma_mul_mod_noop_general(
            pow(a as int, e),
            pow(a as int, e),
            p as int,
        );
    }
}

/// No number from one up to a prime less one shows the prime to be no prime.
pub proof fn lemma_prime_no_witness(a: nat, u: nat, t: nat, p: nat)
    requires
        is_prime_spec(p),
        1 <= a < p,
        u * pow2(t) == p - 1,
    ensures
        !is_witness(a, u, t, p),
{
    if divides(p, a) {
        super::fermat::lemma_small_multiple(p, a);
    }
    super::fermat::lemma_fermat(a, p);
    lemma_squared_power(a, u, p, t);
    assert forall|i: nat| i < t implies !#[trigger] odd_root(a, u, p, i) by {
        let x = squared(a, u, p, i);
        if squared(a, u, p, i + 1) == 1 {
            lemma_squared_power(a, u, p, i);
            vstd::arithmetic::div_mod::lemma_mod_bound(pow(a as int, u * pow2(i)), p as int);
            assert(squared(a, u, p, (i + 1) as nat) == (x * x) % p);
            super::fermat::lemma_root_of_one(p, x);
        }
    }
}

/// Whether `a` shows that `value` is no prime.
pub fn witness(a: Uint, u: Uint, t: Uint, value: Uint) -> (r: bool)
    requires
        value >= 2,
        (value - 1) * (value - 1) <= usize::MAX,
    ensures
        r == is_witness(a as nat, u as nat, t as nat, value as nat),
{
    let mut x0 = quick_pow(a, u, value);
    let mut n: usize = 0;
    proof {
        vstd::arithmetic::div_mod::lemma_mod_bound(
            vstd::arithmetic::power::pow(a as int, u as nat),
            value as int,
        );
    }
    while n < t
        invariant
            n <= t,
            value >= 2,
            (value - 1) * (value - 1) <= usize::MAX,
            x0 < value,
            x0 == squared(a as nat, u as nat, value as nat, n as nat),
            forall|i: nat| i < n ==> !#[trigger] odd_root(a as nat, u as nat, value as nat, i),
        decreases t - n,
    {
        proof {
            assert(x0 * x0 <= (value - 1) * (value - 1)) by (nonlinear_arith)
                requires
                    0 <= x0 <= value - 1,
            ;
        }
        let x1 = (x0 * x0) % value;
        if x1 == 1 && x0 != 1 && x0 != (value - 1) {
            proof {
                assert(odd_root(a as nat, u as nat, value as nat, n as nat));
            }
            return true;
        }
        x0 = x1;
        n += 1;
    }
    x0 != 1
}

/// The number of random numbers that `is_prime` tries.
pub const TEST: usize = 32;

/// None of the bases shows by the test of Miller and Rabin that `value` is no
/// prime.
pub open spec fn none_shows(value: usize, bases: Seq<usize>) -> bool {
    forall|i: int|
        0 <= i < bases.len() ==> !is_witness(
            (#[trigger] bases[i]) as nat,
            ((value - 1) as nat) / lowbit((value - 1) as nat),
            low_zeros((value - 1) as usize) as nat,
            value as nat,
        )
}

/// Every base is at least one and below `value`.
pub open spec fn all_within(value: usize, bases: Seq<usize>) -> bool {
    forall|i: int| 0 <= i < bases.len() ==> 1 <= #[trigger] bases[i] < value
}

/// Whether `value` passes the test of Miller and Rabin for every one of the
/// bases.
pub fn passes(value: Uint, bases: &[Uint]) -> (r: bool)
    requires
        value >= 2,
        (value - 1) * (value - 1) <= usize::MAX,
    ensures
        r == none_shows(value, bases@),
{
    let t = (value - 1).trailing_zeros() as Uint;
    proof {
        lemma_lowbit((value - 1) as usize);
        lemma_strip_zeros((value - 1) as usize);
    }
    let u = (value - 1) >> t;
    proof {
        let x = (value - 1) as usize;
        let z = low_zeros(x);
        assert(x >> t == x >> z) by (bit_vector)
            requires
                t == z as usize,
        ;
    }
    let mut n: usize = 0;
    while n < bases.len()
        invariant
            n <= bases@.len(),
            value >= 2,
            (value - 1) * (value - 1) <= usize::MAX,
            u == ((value - 1) as nat) / lowbit((value - 1) as nat),
            t == low_zeros((value - 1) as usize),
            none_shows(value, bases@.take(n as int)),
        decreases bases@.len() - n,
    {
        if witness(bases[n], u, t, value) {
            return false;
        }
        proof {
            assert forall|i: int| 0 <= i < n + 1 implies !is_witness(
                (#[trigger] bases@.take(n + 1)[i]) as nat,
                ((value - 1) as nat) / lowbit((value - 1) as nat),
                low_zeros((value - 1) as usize) as nat,
                value as nat,
            ) by {
                if i < n {
                    assert(bases@.take(n as int)[i] == bases@.take(n + 1)[i]);
                }
            }
        }
        n += 1;
    }
    proof {
        assert(bases@.take(n as int) =~= bases@);
    }
    true
}

/// No base within the range shows a prime to be no prime.
pub proof fn lemma_prime_passes(value: usize, bases: Seq<usize>)
    requires
        is_prime_spec(value as nat),
        all_within(value, bases),
    ensures
        none_shows(value, bases),
{
    lemma_lowbit((value - 1) as usize);
    lemma_strip_zeros((value - 1) as usize);
    let x = (value - 1) as usize;
    assert forall|i: int| 0 <= i < bases.len() implies !is_witness(
        (#[trigger] bases[i]) as nat,
        ((value - 1) as nat) / lowbit((value - 1) as nat),
        low_zeros((value - 1) as usize) as nat,
        value as nat,
    ) by {
        lemma_prime_no_witness(
            bases[i] as nat,
            (x as nat) / lowbit(x as nat),
            low_zeros(x) as nat,
            value as nat,
        );
    }
}

/// Tests `value` by the method of Miller and Rabin on as many random numbers
/// as `TEST` says: the answer is whether `value` passes for all the numbers
/// drawn. A prime always passes; the answer false comes with a number that
/// shows that `value` is no prime.
pub fn is_prime(value: Uint) -> (r: bool)
    requires
        value >= 2,
        (value - 1) * (value - 1) <= usize::MAX,
    ensures
        exists|bases: Seq<usize>|
            bases.len() == TEST && all_within(value, bases) && r == #[trigger] none_shows(
                value,
                bases,
            ),
        is_prime_spec(value as nat) ==> r,
        !r ==> exists|a: nat|
            1 <= a < value && #[trigger] is_witness(
                a,
                ((value - 1) as nat) / lowbit((value - 1) as nat),
                low_zeros((value - 1) as usize) as nat,
                value as nat,
            ),
{
    let mut rng = thread_generator();
    let mut bases: Vec<Uint> = Vec::with_capacity(TEST);
    let mut n: usize = 0;
    while n < TEST
        invariant
            n <= TEST,
            value >= 2,
            bases@.len() == n,
            all_within(value, bases@),
        decreases TEST - n,
    {
        let a = draw(&mut rng, 1, value);
        bases.push(a);
        n += 1;
    }
    let r = passes(value, bases.as_slice());
    proof {
        if is_prime_spec(value as nat) {
            lemma_prime_passes(value, bases@);
        }
        if !r {
            let i = choose|i: int|
                0 <= i < bases@.len() && is_witness(
                    (#[trigger] bases@[i]) as nat,
                    ((value - 1) as nat) / lowbit((value - 1) as nat),
                    low_zeros((value - 1) as usize) as nat,
                    value as nat,
                );
            assert(1 <= bases@[i] < value);
        }
        assert(none_shows(value, bases@) == r);
    }
    r
}

} // verus!
