//! Number theory related algorithms

use vstd::arithmetic::div_mod::{
    lemma_add_mod_noop, lemma_mod_bound, lemma_mul_mod_noop,
    lemma_mul_mod_noop_general, lemma_small_mod,
};
use vstd::arithmetic::power::{lemma_pow0, lemma_pow1, lemma_pow_adds, lemma_pow_mod_noop, pow};
use vstd::prelude::*;

pub mod divisors;

pub mod gcd;
pub use gcd::{exgcd, gcd, gcd_euclid, lcm};

pub mod root;

pub mod prime;
pub use prime::{is_prime, is_prime_trial, passes};

pub mod factors;

pub mod fermat;

pub mod function;
pub use function::{decompose, inverse, log, modulo, phi};

pub mod solve;
pub use solve::linear_modulo;

verus! {

pub type Uint = usize;

pub type Int = isize;

/// `b` to the power `e` taken alone is `b * b` to half of `e`, times `b`
/// where `e` is odd.
proof fn lemma_pow_halves(b: int, e: nat)
    requires
        e > 0,
    ensures
        pow(b, e) == pow(b * b, e / 2) * (if e % 2 == 1 {
            b
        } else {
            1
        }),
    decreases e,
{
    reveal(pow);
    if e == 1 {
        lemma_pow0(b * b);
        lemma_pow1(b);
    } else if e == 2 {
        lemma_pow1(b * b);
        lemma_pow1(b);
        lemma_pow_adds(b, 1, 1);
    } else {
        lemma_pow_halves(b, (e - 2) as nat);
        lemma_pow_adds(b, 2, (e - 2) as nat);
        lemma_pow_adds(b, 1, 1);
        lemma_pow1(b);
        lemma_pow1(b * b);
        lemma_pow_adds(b * b, 1, ((e - 2) / 2) as nat);
        assert((e - 2) / 2 + 1 == e / 2);
        assert((e - 2) % 2 == e % 2);
        let h = pow(b * b, ((e - 2) / 2) as nat);
        let f = if e % 2 == 1 {
            b
        } else {
            1
        };
        assert((b * b) * (h * f) == ((b * b) * h) * f) by (nonlinear_arith);
    }
}

/// What `quick_pow` answers: the power reduced by the modulus, and one for
/// the power zero whatever the modulus.
pub open spec fn pow_mod(base: nat, exp: nat, modulus: nat) -> nat {
    if exp == 0 {
        1
    } else {
        (pow(base as int, exp) % (modulus as int)) as nat
    }
}

/// Get the value of `base^exp % modulus`
pub fn quick_pow(base: Uint, exp: Uint, modulus: Uint) -> (r: Uint)
    requires
        modulus > 0,
        (modulus - 1) * (modulus - 1) <= usize::MAX,
    ensures
        r == pow_mod(base as nat, exp as nat, modulus as nat),
{
    let mut ans: usize = 1;
    let ghost b0 = base as int;
    let ghost e0 = exp as nat;
    let ghost m = modulus as int;
    let (mut base, mut exp) = (base % modulus, exp);
    let ghost mut fresh = true;
    proof {
        lemma_pow_mod_noop(b0, e0, m);
        lemma_mul_mod_noop_general(1, pow(base as int, e0), m);
    }
    while exp > 0
        invariant
            m == modulus,
            m > 0,
            (m - 1) * (m - 1) <= usize::MAX,
            0 <= base < m,
            fresh ==> ans == 1,
            !fresh ==> ans < m,
            exp == 0 && e0 > 0 ==> !fresh,
            exp <= e0,
            e0 == 0 ==> fresh,
            (ans * pow(base as int, exp as nat)) % m == pow(b0, e0) % m,
        decreases exp,
    {
        let ghost b = base as int;
        let ghost e = exp as nat;
        let ghost a = ans as int;
        proof {
            lemma_pow_halves(b, e);
            assert(b * b <= (m - 1) * (m - 1)) by (nonlinear_arith)
                requires
                    0 <= b <= m - 1,
            ;
            assert(a * b <= (m - 1) * (m - 1) || a == 1) by (nonlinear_arith)
                requires
                    0 <= b <= m - 1,
                    0 <= a,
                    a <= m - 1 || a == 1,
            ;
        }
        if exp % 2 != 0 {
            ans *= base;
            ans %= modulus;
            proof {
                fresh = false;
            }
        }
        base *= base;
        base %= modulus;
        exp /= 2;
        proof {
            let h = pow(b * b, (e / 2) as nat);
            let h2 = pow(base as int, exp as nat);
            lemma_pow_mod_noop(b * b, (e / 2) as nat, m);
            assert(h2 % m == h % m);
            lemma_mul_mod_noop_general(ans as int, h2, m);
            if e % 2 == 1 {
                lemma_mul_mod_noop_general(a * b, h, m);
                assert(a * (h * b) == (a * b) * h) by (nonlinear_arith);
            } else {
                lemma_mul_mod_noop_general(a, h, m);
                assert(h * 1 == h) by (nonlinear_arith);
            }
        }
    }
    proof {
        lemma_pow0(base as int);
        assert(ans * 1 == ans) by (nonlinear_arith);
        if e0 > 0 {
            lemma_small_mod(ans as nat, m as nat);
            lemma_mod_bound(pow(b0, e0), m);
        }
    }
    ans
}

/// Get the value of `base*exp % modulus`
pub fn quick_multiply(a: Uint, b: Uint, modulus: Uint) -> (r: Uint)
    requires
        modulus > 0,
        2 * (modulus - 1) <= usize::MAX,
    ensures
        r == (a * b) % (modulus as int),
{
    let mut ans: usize = 0;
    let ghost a0 = a as int;
    let ghost b0 = b as int;
    let ghost m = modulus as int;
    let (mut a, mut b) = (a % modulus, b % modulus);
    proof {
        lemma_mul_mod_noop(a0, b0, m);
    }
    while b > 0
        invariant
            m == modulus,
            m > 0,
            2 * (m - 1) <= usize::MAX,
            0 <= a < m,
            0 <= ans < m,
            (ans + a * b) % m == (a0 * b0) % m,
        decreases b,
    {
        let ghost x = a as int;
        let ghost y = b as int;
        let ghost s = ans as int;
        if b % 2 != 0 {
            ans += a;
            ans %= modulus;
        }
        a += a;
        a %= modulus;
        b /= 2;
        proof {
            let t = if y % 2 == 1 {
                s + x
            } else {
                s
            };
            assert(s + x * y == t + (x + x) * (y / 2)) by (nonlinear_arith)
                requires
                    t == if y % 2 == 1 {
                        s + x
                    } else {
                        s
                    },
                    y >= 0,
            ;
            lemma_mul_mod_noop_general(x + x, y / 2, m);
            lemma_add_mod_noop(t, (x + x) * (y / 2), m);
            lemma_add_mod_noop(ans as int, a * b, m);
            lemma_small_mod(ans as nat, m as nat);
            if y % 2 != 1 {
                lemma_small_mod(s as nat, m as nat);
            }
        }
    }
    proof {
        assert(a * 0 == 0) by (nonlinear_arith);
        lemma_small_mod(ans as nat, m as nat);
    }
    ans
}

} // verus!
