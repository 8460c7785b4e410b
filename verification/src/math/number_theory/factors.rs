//! Products of prime powers.

use super::divisors::{
    divides, lemma_divides_le, lemma_divides_trans, lemma_multiple_divides,
};
use super::prime::{is_prime_spec, no_divisor_below};
use vstd::prelude::*;

verus! {

/// `b` to the power `e`.
pub open spec fn power(b: nat, e: nat) -> nat
    decreases e,
{
    if e == 0 {
        1
    } else {
        b * power(b, (e - 1) as nat)
    }
}

/// The product of the powers `p` to the `e` of all pairs `(p, e)`.
pub open spec fn product(f: Seq<(nat, nat)>) -> nat
    decreases f.len(),
{
    if f.len() == 0 {
        1
    } else {
        product(f.drop_last()) * power(f.last().0, f.last().1)
    }
}

/// The number of numbers up to the product of the prime powers that have no
/// divisor in common with it, by Euler's formula: for each pair `(p, e)` a
/// factor `p` to the `e - 1` times `p - 1`.
pub open spec fn totient_of(f: Seq<(nat, nat)>) -> nat
    decreases f.len(),
{
    if f.len() == 0 {
        1
    } else {
        totient_of(f.drop_last()) * (power(f.last().0, (f.last().1 - 1) as nat) * (f.last().0
            - 1) as nat)
    }
}

/// The pairs hold primes in ascending order, each with a power of at least
/// one.
pub open spec fn prime_powers(f: Seq<(nat, nat)>) -> bool {
    &&& forall|i: int| 0 <= i < f.len() ==> is_prime_spec((#[trigger] f[i]).0) && f[i].1 >= 1
    &&& forall|i: int, j: int| 0 <= i < j < f.len() ==> (#[trigger] f[i]).0 < (#[trigger] f[j]).0
}

/// The pairs are the decomposition of `n` into powers of primes.
pub open spec fn is_factorization(f: Seq<(nat, nat)>, n: nat) -> bool {
    prime_powers(f) && product(f) == n
}

/// Pairs of machine integers as pairs of natural numbers.
pub open spec fn as_factors(v: Seq<(usize, usize)>) -> Seq<(nat, nat)> {
    Seq::new(v.len(), |i: int| (v[i].0 as nat, v[i].1 as nat))
}

pub proof fn lemma_power_positive(b: nat, e: nat)
    requires
        b >= 1,
    ensures
        power(b, e) >= 1,
    decreases e,
{
    if e > 0 {
        lemma_power_positive(b, (e - 1) as nat);
        assert(b * power(b, (e - 1) as nat) >= 1) by (nonlinear_arith)
            requires
                b >= 1,
                power(b, (e - 1) as nat) >= 1,
        ;
    }
}

pub proof fn lemma_product_positive(f: Seq<(nat, nat)>)
    requires
        prime_powers(f),
    ensures
        product(f) >= 1,
    decreases f.len(),
{
    if f.len() > 0 {
        let front = f.drop_last();
        assert(prime_powers(front)) by {
            assert forall|i: int| 0 <= i < front.len() implies is_prime_spec(
                (#[trigger] front[i]).0,
            ) && front[i].1 >= 1 by {
                assert(is_prime_spec(f[i].0));
            }
            assert forall|i: int, j: int| 0 <= i < j < front.len() implies (#[trigger] front[i]).0 < (
            #[trigger] front[j]).0 by {
                assert(f[i].0 < f[j].0);
            }
        }
        lemma_product_positive(front);
        assert(is_prime_spec(f[f.len() - 1].0));
        lemma_power_positive(f.last().0, f.last().1);
        assert(product(front) * power(f.last().0, f.last().1) >= 1) by (nonlinear_arith)
            requires
                product(front) >= 1,
                power(f.last().0, f.last().1) >= 1,
        ;
    }
}

/// One more prime power at the end.
pub proof fn lemma_push_factor(f: Seq<(nat, nat)>, p: nat, e: nat)
    requires
        prime_powers(f),
        is_prime_spec(p),
        e >= 1,
        forall|i: int| 0 <= i < f.len() ==> (#[trigger] f[i]).0 < p,
    ensures
        prime_powers(f.push((p, e))),
        product(f.push((p, e))) == product(f) * power(p, e),
        totient_of(f.push((p, e))) == totient_of(f) * (power(p, (e - 1) as nat) * (p - 1) as nat),
{
    let more = f.push((p, e));
    assert(more.drop_last() =~= f);
    assert forall|i: int| 0 <= i < more.len() implies is_prime_spec((#[trigger] more[i]).0)
        && more[i].1 >= 1 by {
        if i < f.len() {
            assert(is_prime_spec(f[i].0));
        }
    }
    assert forall|i: int, j: int| 0 <= i < j < more.len() implies (#[trigger] more[i]).0 < (
    #[trigger] more[j]).0 by {
        if j < f.len() {
            assert(f[i].0 < f[j].0);
        } else {
            assert(f[i].0 < p);
        }
    }
}

/// A divisor of `n` below which nothing divides `n` is prime.
pub proof fn lemma_least_divisor_prime(n: nat, p: nat)
    requires
        p >= 2,
        divides(p, n),
        no_divisor_below(n, p),
    ensures
        is_prime_spec(p),
{
    assert forall|d: nat| #[trigger] divides(d, p) implies d == 1 || d == p by {
        lemma_divides_le(d, p);
        lemma_divides_trans(d, p, n);
        if 2 <= d < p {
            assert(!divides(d, n));
        }
    }
}

/// Once `p` has been divided out of `n` as often as it goes, leaving `m`,
/// nothing up to `p` divides `m`.
pub proof fn lemma_divided_out(n: nat, m: nat, p: nat, k: nat)
    requires
        p >= 2,
        m >= 1,
        n == k * m,
        k >= 1,
        no_divisor_below(n, p),
        !divides(p, m),
    ensures
        no_divisor_below(m, p + 1),
{
    assert forall|d: nat| 2 <= d < p + 1 implies !#[trigger] divides(d, m) by {
        if d < p && divides(d, m) {
            assert(n == m * k) by (nonlinear_arith)
                requires
                    n == k * m,
            ;
            lemma_multiple_divides(m, k as int);
            lemma_divides_trans(d, m, n);
            assert(!divides(d, n));
        }
    }
}

/// One more factor `p` taken from what is left to what has been divided out.
pub proof fn lemma_power_step(p: nat, e: nat, m: nat)
    requires
        p >= 1,
        divides(p, m),
    ensures
        power(p, e + 1) * (m / p) == power(p, e) * m,
{
    super::divisors::lemma_divides_multiple(p, m);
    let q = m / p;
    let h = power(p, e);
    assert((p * h) * q == h * (p * q)) by (nonlinear_arith);
}

} // verus!
