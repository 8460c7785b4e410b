//! Divisibility of natural numbers and the greatest common divisor.

use vstd::arithmetic::div_mod::{
    lemma_fundamental_div_mod, lemma_mod_multiples_basic, lemma_small_mod,
};
use crate::base::bits::two_power;
use vstd::prelude::*;

verus! {

/// `d` is positive and `n` a multiple of it.
pub open spec fn divides(d: nat, n: nat) -> bool {
    d > 0 && n % d == 0
}

/// The greatest common divisor by division with remainder.
pub open spec fn gcd_spec(a: nat, b: nat) -> nat
    decreases b,
{
    if b == 0 {
        a
    } else {
        gcd_spec(b, a % b)
    }
}

/// The divisors of `g` are the common divisors of `a` and `b`: `g` is their
/// greatest common divisor, or zero where both are zero.
pub open spec fn is_gcd(g: nat, a: nat, b: nat) -> bool {
    forall|d: nat| #[trigger] divides(d, g) <==> divides(d, a) && divides(d, b)
}

/// A multiple of `d` is `d` times the quotient.
pub proof fn lemma_divides_multiple(d: nat, n: nat)
    requires
        divides(d, n),
    ensures
        n == d * (n / d),
{
    lemma_fundamental_div_mod(n as int, d as int);
}

pub proof fn lemma_multiple_divides(d: nat, k: int)
    requires
        d > 0,
        k >= 0,
    ensures
        d * k >= 0,
        divides(d, (d * k) as nat),
{
    lemma_mod_multiples_basic(k, d as int);
    assert(d * k == k * d) by (nonlinear_arith);
    assert(d * k >= 0) by (nonlinear_arith)
        requires
            d > 0,
            k >= 0,
    ;
}

/// A positive multiple of `d` is at least `d`.
pub proof fn lemma_divides_le(d: nat, n: nat)
    requires
        divides(d, n),
        n > 0,
    ensures
        d <= n,
{
    if n < d {
        lemma_small_mod(n, d);
    }
}

pub proof fn lemma_divides_sum(d: nat, x: nat, y: nat)
    requires
        divides(d, x),
        divides(d, y),
    ensures
        divides(d, x + y),
{
    lemma_divides_multiple(d, x);
    lemma_divides_multiple(d, y);
    let k = (x / d) + (y / d);
    assert(x + y == d * k) by (nonlinear_arith)
        requires
            x == d * (x / d),
            y == d * (y / d),
            k == (x / d) + (y / d),
    ;
    lemma_multiple_divides(d, k as int);
}

pub proof fn lemma_divides_difference(d: nat, x: nat, y: nat)
    requires
        divides(d, x),
        divides(d, y),
        y <= x,
    ensures
        divides(d, (x - y) as nat),
{
    lemma_divides_multiple(d, x);
    lemma_divides_multiple(d, y);
    let k = (x / d) - (y / d);
    assert(x - y == d * k) by (nonlinear_arith)
        requires
            x == d * (x / d),
            y == d * (y / d),
            k == (x / d) - (y / d),
    ;
    assert(k >= 0) by (nonlinear_arith)
        requires
            x - y == d * k,
            x >= y,
            d > 0,
    ;
    lemma_multiple_divides(d, k);
}

pub proof fn lemma_divides_product(d: nat, x: nat, k: nat)
    requires
        divides(d, x),
    ensures
        divides(d, x * k),
{
    lemma_divides_multiple(d, x);
    let q = (x / d) * k;
    assert(x * k == d * q) by (nonlinear_arith)
        requires
            x == d * (x / d),
            q == (x / d) * k,
    ;
    lemma_multiple_divides(d, q as int);
}

pub proof fn lemma_divides_trans(d: nat, m: nat, n: nat)
    requires
        divides(d, m),
        divides(m, n),
    ensures
        divides(d, n),
{
    lemma_divides_multiple(m, n);
    lemma_divides_product(d, m, n / m);
}

/// A divisor of the divisor and of the remainder divides the dividend, and
/// the other way round.
pub proof fn lemma_divides_remainder(a: nat, b: nat, d: nat)
    requires
        b > 0,
    ensures
        divides(d, a) && divides(d, b) <==> divides(d, b) && divides(d, a % b),
{
    lemma_fundamental_div_mod(a as int, b as int);
    let q = a / b;
    let r = a % b;
    assert(b * q >= 0) by (nonlinear_arith)
        requires
            b > 0,
            q >= 0,
    ;
    if divides(d, b) {
        lemma_divides_product(d, b, q);
        if divides(d, r) {
            lemma_divides_sum(d, b * q, r);
        }
        if divides(d, a) {
            lemma_divides_difference(d, a, b * q);
        }
    }
}

/// The divisors of `gcd_spec(a, b)` are the common divisors of `a` and `b`.
pub proof fn lemma_gcd_spec_is_gcd(a: nat, b: nat)
    ensures
        is_gcd(gcd_spec(a, b), a, b),
    decreases b,
{
    if b == 0 {
        assert forall|d: nat| #[trigger] divides(d, gcd_spec(a, b)) <==> divides(d, a) && divides(
            d,
            b,
        ) by {
            if d > 0 {
                lemma_small_mod(0, d);
            }
        }
    } else {
        lemma_gcd_spec_is_gcd(b, a % b);
        assert forall|d: nat| #[trigger] divides(d, gcd_spec(a, b)) <==> divides(d, a) && divides(
            d,
            b,
        ) by {
            lemma_divides_remainder(a, b, d);
            assert(divides(d, gcd_spec(b, a % b)) <==> divides(d, b) && divides(d, a % b));
        }
    }
}

/// Two numbers have one greatest common divisor.
pub proof fn lemma_gcd_unique(g: nat, h: nat, a: nat, b: nat)
    requires
        is_gcd(g, a, b),
        is_gcd(h, a, b),
    ensures
        g == h,
{
    lemma_gcd_positive(g, a, b);
    lemma_gcd_positive(h, a, b);
    if g > 0 {
        lemma_mod_multiples_basic(1, g as int);
        lemma_mod_multiples_basic(1, h as int);
        assert(divides(g, g));
        assert(divides(h, h));
        assert(divides(g, h));
        assert(divides(h, g));
        lemma_divides_le(g, h);
        lemma_divides_le(h, g);
    }
}

/// The greatest common divisor is zero exactly where both numbers are.
pub proof fn lemma_gcd_positive(g: nat, a: nat, b: nat)
    requires
        is_gcd(g, a, b),
    ensures
        g == 0 <==> a == 0 && b == 0,
        g > 0 ==> divides(g, a) && divides(g, b),
{
    if g > 0 {
        lemma_mod_multiples_basic(1, g as int);
        assert(divides(g, g));
        if a == 0 && b == 0 {
            let d = g + 1;
            lemma_small_mod(0, d);
            assert(divides(d, a) && divides(d, b));
            assert(divides(d, g));
            lemma_small_mod(g, d);
        }
    } else {
        if a > 0 {
            let d = a + 1;
            lemma_small_mod(0, d);
            assert(divides(d, g));
            lemma_small_mod(a, d);
        }
        if b > 0 {
            let d = b + 1;
            lemma_small_mod(0, d);
            assert(divides(d, g));
            lemma_small_mod(b, d);
        }
    }
}

pub proof fn lemma_gcd_spec_positive(a: nat, b: nat)
    ensures
        gcd_spec(a, b) == 0 <==> a == 0 && b == 0,
        gcd_spec(a, b) > 0 ==> divides(gcd_spec(a, b), a) && divides(gcd_spec(a, b), b),
        gcd_spec(a, b) <= a || a == 0,
        gcd_spec(a, b) <= b || b == 0,
{
    lemma_gcd_spec_is_gcd(a, b);
    lemma_gcd_positive(gcd_spec(a, b), a, b);
    if gcd_spec(a, b) > 0 {
        if a > 0 {
            lemma_divides_le(gcd_spec(a, b), a);
        }
        if b > 0 {
            lemma_divides_le(gcd_spec(a, b), b);
        }
    }
}

/// The order of the two numbers does not matter.
pub proof fn lemma_gcd_spec_sym(a: nat, b: nat)
    ensures
        gcd_spec(a, b) == gcd_spec(b, a),
{
    lemma_gcd_spec_is_gcd(a, b);
    lemma_gcd_spec_is_gcd(b, a);
    lemma_gcd_unique(gcd_spec(a, b), gcd_spec(b, a), a, b);
}

/// Numbers with the same common divisors have the same greatest one.
pub proof fn lemma_gcd_spec_by_divisors(a: nat, b: nat, c: nat, d: nat)
    requires
        forall|k: nat| divides(k, a) && divides(k, b) <==> divides(k, c) && divides(k, d),
    ensures
        gcd_spec(a, b) == gcd_spec(c, d),
{
    lemma_gcd_spec_is_gcd(a, b);
    lemma_gcd_spec_is_gcd(c, d);
    assert(is_gcd(gcd_spec(c, d), a, b)) by {
        assert forall|k: nat| #[trigger] divides(k, gcd_spec(c, d)) <==> divides(k, a) && divides(
            k,
            b,
        ) by {
            assert(divides(k, gcd_spec(c, d)) <==> divides(k, c) && divides(k, d));
        }
    }
    lemma_gcd_unique(gcd_spec(a, b), gcd_spec(c, d), a, b);
}

/// A common factor of both numbers is a factor of their greatest common
/// divisor.
pub proof fn lemma_gcd_spec_scales(p: nat, a: nat, b: nat)
    requires
        p >= 1,
    ensures
        gcd_spec(p * a, p * b) == p * gcd_spec(a, b),
    decreases b,
{
    if b == 0 {
        assert(p * b == 0) by (nonlinear_arith)
            requires
                b == 0,
        ;
    } else {
        lemma_gcd_spec_scales(p, b, a % b);
        assert(p * b > 0) by (nonlinear_arith)
            requires
                p >= 1,
                b >= 1,
        ;
        lemma_fundamental_div_mod(a as int, b as int);
        let q = a / b;
        let r = a % b;
        assert(p * a == (p * b) * q + p * r) by (nonlinear_arith)
            requires
                a == b * q + r,
        ;
        assert(0 <= p * r < p * b) by (nonlinear_arith)
            requires
                0 <= r < b,
                p >= 1,
        ;
        vstd::arithmetic::div_mod::lemma_fundamental_div_mod_converse(
            (p * a) as int,
            (p * b) as int,
            q as int,
            (p * r) as int,
        );
    }
}

/// A divisor of an odd number that divides twice a number divides the number.
pub proof fn lemma_odd_divisor(d: nat, a: nat, b: nat)
    requires
        a % 2 == 1,
        divides(d, a),
        divides(d, 2 * b),
    ensures
        divides(d, b),
{
    lemma_divides_multiple(d, a);
    lemma_divides_multiple(d, 2 * b);
    let k = (2 * b) / d;
    let j = a / d;
    if d % 2 == 0 {
        let e = d / 2;
        assert(a == (e * j) * 2) by (nonlinear_arith)
            requires
                a == d * j,
                d == 2 * e,
        ;
        lemma_mod_multiples_basic((e * j) as int, 2);
    }
    if k % 2 == 1 {
        let e = d / 2;
        let f = k / 2;
        assert(2 * b == 2 * (2 * e * f + e + f) + 1) by (nonlinear_arith)
            requires
                2 * b == d * k,
                d == 2 * e + 1,
                k == 2 * f + 1,
        ;
    }
    let h = k / 2;
    assert(b == d * h) by (nonlinear_arith)
        requires
            2 * b == d * k,
            k == 2 * h,
    ;
    lemma_multiple_divides(d, h as int);
}

/// A power of two in one number does not matter where the other is odd.
pub proof fn lemma_gcd_spec_odd(a: nat, b: nat, p: nat)
    requires
        a % 2 == 1,
        two_power(p),
    ensures
        gcd_spec(a, p * b) == gcd_spec(a, b),
        gcd_spec(p * b, a) == gcd_spec(b, a),
    decreases p,
{
    if p == 1 {
        assert(p * b == b) by (nonlinear_arith)
            requires
                p == 1,
        ;
    } else {
        let h = p / 2;
        lemma_gcd_spec_odd(a, b, h);
        assert(p * b == 2 * (h * b)) by (nonlinear_arith)
            requires
                p == 2 * h,
        ;
        assert forall|k: nat| divides(k, a) && divides(k, 2 * (h * b)) <==> divides(k, a)
            && divides(k, h * b) by {
            if divides(k, a) && divides(k, 2 * (h * b)) {
                lemma_odd_divisor(k, a, h * b);
            }
            if divides(k, a) && divides(k, h * b) {
                lemma_divides_product(k, h * b, 2);
                assert((h * b) * 2 == 2 * (h * b));
            }
        }
        lemma_gcd_spec_by_divisors(a, 2 * (h * b), a, h * b);
    }
    lemma_gcd_spec_sym(a, p * b);
    lemma_gcd_spec_sym(a, b);
}

/// Taking the smaller number from the larger keeps the greatest common
/// divisor.
pub proof fn lemma_gcd_spec_difference(a: nat, b: nat)
    requires
        a <= b,
    ensures
        gcd_spec(a, (b - a) as nat) == gcd_spec(a, b),
{
    assert forall|k: nat| divides(k, a) && divides(k, (b - a) as nat) <==> divides(k, a)
        && divides(k, b) by {
        if divides(k, a) && divides(k, (b - a) as nat) {
            lemma_divides_sum(k, a, (b - a) as nat);
        }
        if divides(k, a) && divides(k, b) {
            lemma_divides_difference(k, b, a);
        }
    }
    lemma_gcd_spec_by_divisors(a, (b - a) as nat, a, b);
}

} // verus!
