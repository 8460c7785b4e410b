use super::divisors::{
    gcd_spec, is_gcd, lemma_gcd_spec_difference,
    lemma_gcd_spec_is_gcd, lemma_gcd_spec_odd, lemma_gcd_spec_positive, lemma_gcd_spec_scales,
    lemma_gcd_spec_sym,
};
use crate::base::bits::{
    two_power, lemma_lowbit, lemma_or_lowbit, lemma_strip_zeros, low_zeros, lowbit,
};
use vstd::arithmetic::power2::pow2;
use vstd::bits::lemma_usize_shl_is_mul;
use super::{Int, Uint};
use vstd::arithmetic::div_mod::lemma_fundamental_div_mod;
use vstd::prelude::*;

verus! {

/// Get the greatest common divisor between `a` and `b` by Euclid's algorithm
pub fn gcd_euclid(a: Uint, b: Uint) -> (r: Uint)
    ensures
        r == gcd_spec(a as nat, b as nat),
        is_gcd(r as nat, a as nat, b as nat),
{
    let (mut a, mut b) = (a, b);
    let ghost a0 = a;
    let ghost b0 = b;
    while b != 0
        invariant
            gcd_spec(a as nat, b as nat) == gcd_spec(a0 as nat, b0 as nat),
        decreases b,
    {
        let t = a;
        a = b;
        b = t;
        b %= a;
    }
    proof {
        lemma_gcd_spec_is_gcd(a0 as nat, b0 as nat);
    }
    a
}

/// The lowest set bit is a power of two.
proof fn lemma_lowbit_is_power(i: nat)
    requires
        i > 0,
    ensures
        two_power(lowbit(i)),
    decreases i,
{
    if i % 2 == 0 {
        lemma_lowbit_is_power(i / 2);
    }
}

/// Two numbers with their common low zeros shifted out, and the first with
/// all of its low zeros shifted out, have the same greatest common divisor up
/// to the common zeros.
proof fn lemma_stripped(a: usize, b: usize)
    requires
        a > 0,
        b > 0,
    ensures
        gcd_spec(a as nat, b as nat) == lowbit((a | b) as nat) * gcd_spec(
            (a >> low_zeros(a)) as nat,
            (b as nat) / lowbit((a | b) as nat),
        ),
{
    lemma_or_lowbit(a, b);
    lemma_lowbit(a);
    lemma_lowbit(b);
    lemma_strip_zeros(a);
    lemma_strip_zeros(b);
    let p = lowbit((a | b) as nat);
    let la = lowbit(a as nat);
    let lb = lowbit(b as nat);
    let x = (a >> low_zeros(a)) as nat;
    let y = (b >> low_zeros(b)) as nat;
    lemma_lowbit_is_power(a as nat);
    lemma_lowbit_is_power(b as nat);
    if la <= lb {
        // p == la: the first number loses all its zeros, the second some
        let rest = (b as nat) / p;
        lemma_power_quotient(lb, la);
        let k = lb / la;
        assert(b == p * (k * y)) by (nonlinear_arith)
            requires
                b == y * lb,
                lb == la * k,
                p == la,
        ;
        vstd::arithmetic::div_mod::lemma_div_multiples_vanish((k * y) as int, p as int);
        assert(a == p * x) by (nonlinear_arith)
            requires
                a == x * la,
                p == la,
        ;
        lemma_gcd_spec_scales(p, x, k * y);
    } else {
        // p == lb: the second number is odd once shifted, the first keeps zeros
        lemma_power_quotient(la, lb);
        let k = la / lb;
        assert(a == p * (k * x)) by (nonlinear_arith)
            requires
                a == x * la,
                la == lb * k,
                p == lb,
        ;
        assert(b == p * y) by (nonlinear_arith)
            requires
                b == y * lb,
                p == lb,
        ;
        vstd::arithmetic::div_mod::lemma_div_multiples_vanish(y as int, p as int);
        lemma_gcd_spec_scales(p, k * x, y);
        lemma_gcd_spec_odd(y, x, k);
    }
}

/// A power of two divided by a smaller one is a power of two.
proof fn lemma_power_quotient(big: nat, small: nat)
    requires
        two_power(big),
        two_power(small),
        small <= big,
    ensures
        two_power(big / small),
        big == small * (big / small),
    decreases small,
{
    if small == 1 {
        assert(big / 1 == big);
        assert(1 * big == big);
    } else {
        lemma_power_quotient(big / 2, small / 2);
        let q = (big / 2) / (small / 2);
        assert(big == small * q) by (nonlinear_arith)
            requires
                big == 2 * (big / 2),
                small == 2 * (small / 2),
                big / 2 == (small / 2) * q,
        ;
        vstd::arithmetic::div_mod::lemma_div_multiples_vanish(q as int, small as int);
    }
}

/// Get the greatest common divisor between `a` and `b` by Stein's algorithm
pub fn gcd(a: Uint, b: Uint) -> (r: Uint)
    ensures
        r == gcd_spec(a as nat, b as nat),
        is_gcd(r as nat, a as nat, b as nat),
{
    let (mut a, mut b) = (a, b);
    let ghost a0 = a;
    let ghost b0 = b;
    proof {
        lemma_gcd_spec_is_gcd(a0 as nat, b0 as nat);
    }

    if a == 0 || b == 0 {
        proof {
            assert(a == 0 ==> a | b == b) by (bit_vector);
            assert(b == 0 ==> a | b == a) by (bit_vector);
            lemma_gcd_spec_sym(0, b as nat);
        }
        return a | b;
    }
    let shift = (a | b).trailing_zeros();
    let ghost unit = lowbit((a0 | b0) as nat);
    proof {
        lemma_stripped(a, b);
        lemma_or_lowbit(a, b);
        lemma_lowbit((a | b) as usize);
        lemma_lowbit(a);
        lemma_lowbit(b);
        lemma_strip_zeros(a);
        // the common zeros of the second number do not matter beside an odd first one
        let rest = (b0 as nat) / unit;
        lemma_lowbit_is_power((a0 | b0) as nat);
        lemma_lowbit_is_power(b0 as nat);
        lemma_power_quotient(lowbit(b0 as nat), unit);
        lemma_strip_zeros(b);
        let k = lowbit(b0 as nat) / unit;
        let y = (b0 >> low_zeros(b0)) as nat;
        assert(b0 == unit * (k * y)) by (nonlinear_arith)
            requires
                b0 == y * lowbit(b0 as nat),
                lowbit(b0 as nat) == unit * k,
        ;
        vstd::arithmetic::div_mod::lemma_div_multiples_vanish((k * y) as int, unit as int);
        lemma_gcd_spec_odd((a >> low_zeros(a)) as nat, rest, unit);
    }
    a >>= a.trailing_zeros();

    while b != 0
        invariant
            a >= 1,
            a % 2 == 1,
            unit == pow2(shift as nat),
            shift < usize::BITS,
            unit * gcd_spec(a as nat, b as nat) == gcd_spec(a0 as nat, b0 as nat),
        decreases a + b,
    {
        let ghost whole = b;
        proof {
            lemma_strip_zeros(b);
            lemma_lowbit(b);
            lemma_lowbit_is_power(b as nat);
        }
        b >>= b.trailing_zeros();
        proof {
            let p = lowbit(whole as nat);
            assert(whole == p * b) by (nonlinear_arith)
                requires
                    b * p == whole,
            ;
            lemma_gcd_spec_odd(a as nat, b as nat, p);
        }
        if a > b {
            let t = a;
            a = b;
            b = t;
            proof {
                lemma_gcd_spec_sym(a as nat, b as nat);
            }
        }
        proof {
            lemma_gcd_spec_difference(a as nat, b as nat);
        }
        b -= a;
    }
    proof {
        lemma_gcd_spec_positive(a0 as nat, b0 as nat);
        assert(a * unit == unit * a) by (nonlinear_arith);
        lemma_usize_shl_is_mul(a, shift as usize);
        assert(a << shift == a << (shift as usize)) by (bit_vector);
    }
    a << shift
}

/// One, or the number itself where that is larger.
pub open spec fn at_least_one(n: int) -> int {
    if n < 1 {
        1
    } else {
        n
    }
}

/// Get the least common multiple between `a` and `b`
pub fn lcm(a: Uint, b: Uint) -> (r: Uint)
    requires
        a != 0 || b != 0,
        (a as nat) / gcd_spec(a as nat, b as nat) * b <= usize::MAX,
    ensures
        r == (a as nat) / gcd_spec(a as nat, b as nat) * b,
        r * gcd_spec(a as nat, b as nat) == a * b,
{
    let g = gcd(a, b);
    proof {
        lemma_gcd_spec_positive(a as nat, b as nat);
        super::divisors::lemma_divides_multiple(g as nat, a as nat);
        let q = a / g;
        assert(q * b * g == a * b) by (nonlinear_arith)
            requires
                a == g * q,
        ;
    }
    a / g * b
}

/// The numbers `x` and `y` that division with remainder finds with
/// `a * x + b * y` the greatest common divisor of `a` and `b`.
pub open spec fn bezout(a: nat, b: nat) -> (int, int)
    decreases b,
{
    if b == 0 {
        (1, 0)
    } else {
        let (x, y) = bezout(b, a % b);
        (y, x - (a / b) * y)
    }
}

/// Numbers `x` and `y` with `a * x + b * y == d`, where `d` is the greatest
/// common divisor of `a` and `b`.
pub fn exgcd(a: Uint, b: Uint) -> (r: (Int, Int, Uint))
    requires
        a <= isize::MAX,
        b <= isize::MAX,
    ensures
        r.2 == gcd_spec(a as nat, b as nat),
        (r.0 as int, r.1 as int) == bezout(a as nat, b as nat),
        a * r.0 + b * r.1 == r.2,
        b == 0 ==> r.0 == 1 && r.1 == 0,
        -at_least_one(b as int) <= r.0 <= at_least_one(b as int),
        -at_least_one(a as int) <= r.1 <= at_least_one(a as int),
    decreases b,
{
    if b == 0 {
        (1, 0, a)
    } else {
        let (x, y, d) = exgcd(b, a % b);
        let q = a / b;
        let ghost rem = a % b;
        proof {
            lemma_fundamental_div_mod(a as int, b as int);
            assert(b * q <= a) by (nonlinear_arith)
                requires
                    a == b * q + rem,
                    rem >= 0,
            ;
            if rem > 0 {
                assert(-(b * q) <= q * y <= b * q) by (nonlinear_arith)
                    requires
                        -b <= y <= b,
                        q >= 0,
                ;
            } else {
                assert(q * y == 0) by (nonlinear_arith)
                    requires
                        y == 0,
                ;
            }
            assert(a * y + b * (x - q * y) == b * x + rem * y) by (nonlinear_arith)
                requires
                    a == b * q + rem,
            ;
        }
        (y, x - (q as Int) * y, d)
    }
}

} // verus!
