//! Remainders modulo a prime: the lemma of Euclid, the square roots of one,
//! and the little theorem of Fermat.

use super::divisors::{
    divides, gcd_spec, lemma_divides_le, lemma_divides_multiple, lemma_gcd_spec_positive,
    lemma_multiple_divides,
};
use super::gcd::bezout;
use super::prime::is_prime_spec;
use vstd::arithmetic::div_mod::{
    lemma_fundamental_div_mod, lemma_fundamental_div_mod_converse, lemma_mod_bound,
    lemma_mul_mod_noop_general, lemma_small_mod,
};
use vstd::arithmetic::power::{lemma_pow0, lemma_pow1, lemma_pow_adds, lemma_pow_positive, pow};
use vstd::prelude::*;
use vstd::set_lib::{lemma_int_range, lemma_len_subset, lemma_subset_equality, set_int_range};

verus! {

/// The numbers of `bezout` combine `a` and `b` to their greatest common
/// divisor.
pub proof fn lemma_bezout(a: nat, b: nat)
    ensures
        a * bezout(a, b).0 + b * bezout(a, b).1 == gcd_spec(a, b),
    decreases b,
{
    if b == 0 {
        assert(a * 1 + b * 0 == a) by (nonlinear_arith)
            requires
                b == 0,
        ;
    } else {
        lemma_bezout(b, a % b);
        let (x, y) = bezout(b, a % b);
        let q = a / b;
        let r = a % b;
        lemma_fundamental_div_mod(a as int, b as int);
        assert(a * y + b * (x - q * y) == b * x + r * y) by (nonlinear_arith)
            requires
                a == b * q + r,
        ;
    }
}

/// A multiple of `d` below `d` is zero.
pub proof fn lemma_small_multiple(d: nat, n: nat)
    requires
        divides(d, n),
        n < d,
    ensures
        n == 0,
{
    lemma_small_mod(n, d);
}

/// A prime has no divisor in common with a positive number below it.
pub proof fn lemma_prime_coprime(p: nat, x: nat)
    requires
        is_prime_spec(p),
        0 < x < p,
    ensures
        gcd_spec(p, x) == 1,
{
    lemma_gcd_spec_positive(p, x);
    let g = gcd_spec(p, x);
    assert(divides(g, p));
    assert(divides(g, x));
    lemma_divides_le(g, x);
}

/// A prime that divides a product divides one of the two factors.
pub proof fn lemma_prime_divides_product(p: nat, a: nat, b: nat)
    requires
        is_prime_spec(p),
        divides(p, a * b),
    ensures
        divides(p, a) || divides(p, b),
{
    if !divides(p, a) {
        let r = a % p;
        let q = a / p;
        lemma_fundamental_div_mod(a as int, p as int);
        lemma_mod_bound(a as int, p as int);
        lemma_prime_coprime(p, r);
        lemma_bezout(p, r);
        let (x, y) = bezout(p, r);
        lemma_divides_multiple(p, a * b);
        let k = (a * b) / p;
        let big = x * b + y * (k - q * b);
        assert(b == p * big) by (nonlinear_arith)
            requires
                p * x + r * y == 1,
                a == p * q + r,
                a * b == p * k,
                big == x * b + y * (k - q * b),
        ;
        assert(big >= 0) by (nonlinear_arith)
            requires
                b == p * big,
                b >= 0,
                p > 0,
        ;
        lemma_multiple_divides(p, big);
    }
}

/// Modulo a prime, one has the square roots one and minus one only.
pub proof fn lemma_root_of_one(p: nat, x: nat)
    requires
        is_prime_spec(p),
        x < p,
        (x * x) % p == 1,
    ensures
        x == 1 || x == p - 1,
{
    if x == 0 {
        assert(x * x == 0) by (nonlinear_arith)
            requires
                x == 0,
        ;
        lemma_small_mod(0, p);
    } else {
        let k = (x * x) / p;
        lemma_fundamental_div_mod((x * x) as int, p as int);
        let lo = (x - 1) as nat;
        let hi = x + 1;
        assert(lo * hi == p * k) by (nonlinear_arith)
            requires
                x * x == p * k + 1,
                lo == x - 1,
                hi == x + 1,
        ;
        assert(k >= 0) by (nonlinear_arith)
            requires
                lo * hi == p * k,
                lo >= 0,
                hi >= 0,
                p > 0,
        ;
        lemma_multiple_divides(p, k as int);
        lemma_prime_divides_product(p, lo, hi);
        if divides(p, lo) {
            lemma_small_multiple(p, lo);
        } else {
            lemma_divides_le(p, hi);
        }
    }
}

/// The product of the numbers.
pub open spec fn product_of(s: Seq<int>) -> int
    decreases s.len(),
{
    if s.len() == 0 {
        1
    } else {
        product_of(s.drop_last()) * s.last()
    }
}

proof fn lemma_product_concat(a: Seq<int>, b: Seq<int>)
    ensures
        product_of(a + b) == product_of(a) * product_of(b),
    decreases b.len(),
{
    if b.len() == 0 {
        assert(a + b =~= a);
        assert(product_of(a) * 1 == product_of(a)) by (nonlinear_arith);
    } else {
        lemma_product_concat(a, b.drop_last());
        assert((a + b).drop_last() =~= a + b.drop_last());
        let x = product_of(a);
        let y = product_of(b.drop_last());
        let z = b.last();
        assert((x * y) * z == x * (y * z)) by (nonlinear_arith);
    }
}

proof fn lemma_product_remove(s: Seq<int>, k: int)
    requires
        0 <= k < s.len(),
    ensures
        product_of(s) == product_of(s.remove(k)) * s[k],
{
    let head = s.take(k);
    let tail = s.skip(k + 1);
    let one = seq![s[k]];
    assert(s =~= head + (one + tail));
    assert(s.remove(k) =~= head + tail);
    lemma_product_concat(head, one + tail);
    lemma_product_concat(one, tail);
    lemma_product_concat(head, tail);
    assert(one.drop_last() =~= Seq::<int>::empty());
    assert(product_of(one) == s[k]) by {
        assert(product_of(one.drop_last()) == 1);
        assert(1 * s[k] == s[k]) by (nonlinear_arith);
    }
    let x = product_of(head);
    let y = product_of(tail);
    let z = s[k];
    assert(x * (z * y) == (x * y) * z) by (nonlinear_arith);
}

/// The order of the numbers does not matter to their product.
proof fn lemma_product_permuted(a: Seq<int>, b: Seq<int>)
    requires
        a.to_multiset() == b.to_multiset(),
    ensures
        product_of(a) == product_of(b),
    decreases a.len(),
{
    broadcast use vstd::seq_lib::to_multiset_len;
    broadcast use vstd::seq_lib::to_multiset_contains;
    broadcast use vstd::seq_lib::to_multiset_remove;

    assert(a.len() == b.len()) by {
        assert(a.to_multiset().len() == a.len());
        assert(b.to_multiset().len() == b.len());
    }
    if a.len() > 0 {
        let x = a.last();
        assert(a.contains(x)) by {
            assert(a[a.len() - 1] == x);
        }
        assert(b.to_multiset().count(x) > 0);
        assert(b.contains(x));
        let k = choose|k: int| 0 <= k < b.len() && b[k] == x;
        assert(a.drop_last() =~= a.remove(a.len() - 1));
        assert(a.remove(a.len() - 1).to_multiset() =~= a.to_multiset().remove(x));
        assert(b.remove(k).to_multiset() =~= b.to_multiset().remove(x));
        lemma_product_permuted(a.drop_last(), b.remove(k));
        lemma_product_remove(b, k);
    }
}

/// The numbers from one to `n`.
pub open spec fn firsts(n: nat) -> Seq<int> {
    Seq::new(n, |i: int| i + 1)
}

/// The remainders modulo `p` of the multiples of `a` by the numbers from one
/// to `p - 1`.
pub open spec fn scaled(a: nat, p: nat) -> Seq<int> {
    Seq::new((p - 1) as nat, |i: int| (a * (i + 1)) % (p as int))
}

/// Numbers with one remainder differ by a multiple of the modulus.
proof fn lemma_same_remainder(x: nat, y: nat, p: nat)
    requires
        p > 0,
        x <= y,
        x % p == y % p,
    ensures
        divides(p, (y - x) as nat),
{
    lemma_fundamental_div_mod(x as int, p as int);
    lemma_fundamental_div_mod(y as int, p as int);
    let k = (y / p) - (x / p);
    assert(y - x == p * k) by (nonlinear_arith)
        requires
            x == p * (x / p) + x % p,
            y == p * (y / p) + y % p,
            x % p == y % p,
            k == (y / p) - (x / p),
    ;
    assert(k >= 0) by (nonlinear_arith)
        requires
            y - x == p * k,
            y >= x,
            p > 0,
    ;
    lemma_multiple_divides(p, k);
}

/// The multiples of a number that a prime does not divide by the numbers
/// from one to the prime less one have remainders that are not zero and all
/// different.
proof fn lemma_scaled(a: nat, p: nat, i: int, j: int)
    requires
        is_prime_spec(p),
        !divides(p, a),
        0 <= i <= j < p - 1,
    ensures
        1 <= scaled(a, p)[i] <= p - 1,
        i < j ==> scaled(a, p)[i] != scaled(a, p)[j],
{
    let k = (i + 1) as nat;
    lemma_mod_bound((a * k) as int, p as int);
    if (a * k) % p == 0 {
        lemma_prime_divides_product(p, a, k);
        lemma_small_multiple(p, k);
    }
    if i < j && scaled(a, p)[i] == scaled(a, p)[j] {
        let l = (j + 1) as nat;
        assert(a * k <= a * l) by (nonlinear_arith)
            requires
                k <= l,
        ;
        lemma_same_remainder(a * k, a * l, p);
        assert(a * l - a * k == a * (l - k)) by (nonlinear_arith);
        lemma_prime_divides_product(p, a, (l - k) as nat);
        lemma_small_multiple(p, (l - k) as nat);
    }
}

/// The remainders of the multiples are the numbers from one to the prime
/// less one, in some order.
proof fn lemma_scaled_permutes(a: nat, p: nat)
    requires
        is_prime_spec(p),
        !divides(p, a),
    ensures
        scaled(a, p).to_multiset() == firsts((p - 1) as nat).to_multiset(),
{
    broadcast use vstd::seq_lib::to_multiset_contains;

    let s = scaled(a, p);
    let f = firsts((p - 1) as nat);
    let all = set_int_range(1, p as int);
    lemma_int_range(1, p as int);
    assert(s.no_duplicates()) by {
        assert forall|i: int, j: int| 0 <= i < s.len() && 0 <= j < s.len() && i != j implies s[i]
            != s[j] by {
            if i < j {
                lemma_scaled(a, p, i, j);
            } else {
                lemma_scaled(a, p, j, i);
            }
        }
    }
    assert(f.no_duplicates());
    s.unique_seq_to_set();
    f.unique_seq_to_set();
    assert(s.to_set().subset_of(all)) by {
        assert forall|x: int| s.to_set().contains(x) implies all.contains(x) by {
            let i = choose|i: int| 0 <= i < s.len() && s[i] == x;
            lemma_scaled(a, p, i, i);
        }
    }
    assert(f.to_set().subset_of(all)) by {
        assert forall|x: int| f.to_set().contains(x) implies all.contains(x) by {
            let i = choose|i: int| 0 <= i < f.len() && f[i] == x;
        }
    }
    lemma_subset_equality(s.to_set(), all);
    lemma_subset_equality(f.to_set(), all);
    s.lemma_multiset_has_no_duplicates();
    f.lemma_multiset_has_no_duplicates();
    assert forall|x: int| s.to_multiset().count(x) == f.to_multiset().count(x) by {
        assert(s.contains(x) <==> s.to_set().contains(x));
        assert(f.contains(x) <==> f.to_set().contains(x));
    }
    assert(s.to_multiset() =~= f.to_multiset());
}

/// The product of the first remainders is, modulo the prime, a power of `a`
/// times the product of the first numbers.
proof fn lemma_scaled_product(a: nat, p: nat, n: nat)
    requires
        p >= 2,
        n <= p - 1,
    ensures
        product_of(scaled(a, p).take(n as int)) % (p as int) == (pow(a as int, n) * product_of(
            firsts((p - 1) as nat).take(n as int),
        )) % (p as int),
    decreases n,
{
    let s = scaled(a, p);
    let f = firsts((p - 1) as nat);
    let m = p as int;
    if n == 0 {
        lemma_pow0(a as int);
        assert(1int * 1 == 1) by (nonlinear_arith);
    } else {
        lemma_scaled_product(a, p, (n - 1) as nat);
        assert(s.take(n as int).drop_last() =~= s.take(n - 1));
        assert(f.take(n as int).drop_last() =~= f.take(n - 1));
        let ps = product_of(s.take(n - 1));
        let pf = product_of(f.take(n - 1));
        let an = pow(a as int, (n - 1) as nat);
        lemma_pow_adds(a as int, (n - 1) as nat, 1);
        lemma_pow1(a as int);
        // ps * ((a * n) % p) is, modulo p, (an * pf) * (a * n)
        lemma_mul_mod_noop_general(ps, (a * n) as int, m);
        lemma_mul_mod_noop_general(an * pf, (a * n) as int, m);
        assert((an * pf) * (a * n) == (an * a) * (pf * n)) by (nonlinear_arith);
    }
}

/// A prime does not divide the product of the numbers from one to a number
/// below it.
proof fn lemma_firsts_coprime(p: nat, n: nat)
    requires
        is_prime_spec(p),
        n < p,
    ensures
        product_of(firsts(n)) >= 1,
        !divides(p, product_of(firsts(n)) as nat),
    decreases n,
{
    if n == 0 {
        lemma_small_mod(1, p);
    } else {
        lemma_firsts_coprime(p, (n - 1) as nat);
        assert(firsts(n).drop_last() =~= firsts((n - 1) as nat));
        let f = product_of(firsts((n - 1) as nat));
        assert(f * n >= 1) by (nonlinear_arith)
            requires
                f >= 1,
                n >= 1,
        ;
        if divides(p, (f * n) as nat) {
            lemma_prime_divides_product(p, f as nat, n);
            lemma_small_multiple(p, n);
        }
    }
}

/// The little theorem of Fermat: a number that a prime does not divide, to
/// the power of the prime less one, leaves the remainder one.
pub proof fn lemma_fermat(a: nat, p: nat)
    requires
        is_prime_spec(p),
        !divides(p, a),
    ensures
        pow(a as int, (p - 1) as nat) % (p as int) == 1,
{
    let n = (p - 1) as nat;
    let s = scaled(a, p);
    let f = firsts(n);
    lemma_scaled_permutes(a, p);
    lemma_product_permuted(s, f);
    lemma_scaled_product(a, p, n);
    assert(s.take(n as int) =~= s);
    assert(f.take(n as int) =~= f);
    lemma_firsts_coprime(p, n);
    let fact = product_of(f) as nat;
    if a == 0 {
        lemma_small_mod(0, p);
    }
    lemma_pow_positive(a as int, n);
    let big = pow(a as int, n) as nat;
    // fact and big * fact leave one remainder, so p divides (big - 1) * fact
    assert(fact <= big * fact) by (nonlinear_arith)
        requires
            big >= 1,
            fact >= 0,
    ;
    lemma_same_remainder(fact, big * fact, p);
    assert(big * fact - fact == (big - 1) * fact) by (nonlinear_arith);
    lemma_prime_divides_product(p, (big - 1) as nat, fact);
    lemma_divides_multiple(p, (big - 1) as nat);
    lemma_fundamental_div_mod_converse(big as int, p as int, ((big - 1) as nat / p) as int, 1);
}

} // verus!
