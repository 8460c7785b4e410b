use super::divisors::{gcd_spec, lemma_gcd_spec_positive};
use super::function::{lemma_inverse, modulo_spec};
use super::gcd::bezout;
use super::Uint;
use vstd::prelude::*;

verus! {

/// Where the greatest common divisor `d` of `a` and `c` divides `b`, a
/// number `x` with `a * x` congruent to `d` modulo `c`.
pub fn linear_modulo(a: Uint, b: Uint, c: Uint) -> (r: Option<Uint>)
    requires
        a <= isize::MAX,
        0 < c <= isize::MAX,
    ensures
        r is Some <==> (b as nat) % gcd_spec(a as nat, c as nat) == 0,
        match r {
            Some(v) => {
                &&& v == modulo_spec(bezout(a as nat, c as nat).0, c as int)
                &&& v <= c
                &&& (a * v) % (c as int) == gcd_spec(a as nat, c as nat) % (c as nat)
            },
            None => true,
        },
{
    let (x, y, d) = super::exgcd(a, c);
    proof {
        lemma_gcd_spec_positive(a as nat, c as nat);
    }
    if b % d == 0 {
        let v = super::modulo(x, c);
        proof {
            lemma_inverse(a as int, c as int, x as int, y as int, v as int, d as int);
        }
        Some(v)
    } else {
        None
    }
}

} // verus!
