//! Integer square roots.

use vstd::arithmetic::div_mod::lemma_fundamental_div_mod;
use vstd::prelude::*;

verus! {

/// `r` is the largest number whose square does not exceed `n`.
pub open spec fn is_floor_sqrt(r: nat, n: nat) -> bool {
    r * r <= n < (r + 1) * (r + 1)
}

/// `r` is the smallest number whose square reaches `n`.
pub open spec fn is_ceil_sqrt(r: nat, n: nat) -> bool {
    if r == 0 {
        n == 0
    } else {
        (r - 1) * (r - 1) < n <= r * r
    }
}

/// `(r + 1) * (r + 1) <= n` told without computing the square.
proof fn lemma_square_by_division(r: nat, n: nat)
    ensures
        r + 1 <= n / (r + 1) <==> (r + 1) * (r + 1) <= n,
{
    let d = (r + 1) as int;
    lemma_fundamental_div_mod(n as int, d);
    let q = (n as int) / d;
    if d <= q {
        assert(d * d <= d * q) by (nonlinear_arith)
            requires
                d <= q,
                d > 0,
        ;
    } else {
        assert(d * q + d <= d * d) by (nonlinear_arith)
            requires
                q + 1 <= d,
                d > 0,
        ;
    }
}

/// The square root of `n`, rounded down.
pub fn floor_sqrt(n: usize) -> (r: usize)
    ensures
        is_floor_sqrt(r as nat, n as nat),
        r <= n,
        n >= 2 ==> r < n,
        n >= 1 ==> r >= 1,
{
    let mut r: usize = 0;
    while r < n && r + 1 <= n / (r + 1)
        invariant
            r * r <= n,
            r <= n,
        decreases n - r,
    {
        proof {
            lemma_square_by_division(r as nat, n as nat);
        }
        r += 1;
    }
    proof {
        lemma_square_by_division(r as nat, n as nat);
        if r >= n {
            assert((r + 1) * (r + 1) > n) by (nonlinear_arith)
                requires
                    r >= n,
                    r >= 0,
            ;
        }
        if r == 0 {
            assert((r + 1) * (r + 1) == 1) by (nonlinear_arith)
                requires
                    r == 0,
            ;
        }
        if n >= 2 && r == n {
            assert(r * r > n) by (nonlinear_arith)
                requires
                    r == n,
                    n >= 2,
            ;
        }
    }
    r
}

/// The square root of `n`, rounded up.
pub fn ceil_sqrt(n: usize) -> (r: usize)
    ensures
        is_ceil_sqrt(r as nat, n as nat),
        r <= n,
{
    if n == 0 {
        0
    } else {
        let f = floor_sqrt(n - 1);
        proof {
            assert((f + 1 - 1) * (f + 1 - 1) == f * f);
        }
        f + 1
    }
}

} // verus!
