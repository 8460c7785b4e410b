use super::divisors::{divides, gcd_spec, lemma_divides_le};
use super::factors::{
    as_factors, is_factorization, lemma_divided_out, lemma_least_divisor_prime,
    lemma_power_positive, lemma_power_step, lemma_product_positive, lemma_push_factor, power,
    prime_powers, product, totient_of,
};
use super::prime::{lemma_prime_by_root, no_divisor_below};
use super::root::{floor_sqrt, is_floor_sqrt};
use super::gcd::bezout;
use super::root::{ceil_sqrt, is_ceil_sqrt};
use super::{pow_mod, quick_pow, Int, Uint};
use std::collections::HashMap;
use vstd::arithmetic::power::{lemma_pow0, lemma_pow1, lemma_pow_adds, pow};
use vstd::arithmetic::div_mod::{
    lemma_fundamental_div_mod, lemma_mod_multiples_vanish, lemma_mul_mod_noop_general,
    lemma_small_mod,
};
use vstd::prelude::*;

verus! {

broadcast use vstd::std_specs::hash::group_hash_axioms;

/// Return (b_i, e_i): n=PHI{ b_i^e_i }
pub fn decompose(n: Uint) -> (res: Vec<(Uint, Uint)>)
    ensures
        n == 0 ==> res@.len() == 0,
        n >= 1 ==> is_factorization(as_factors(res@), n as nat),
{
    let ghost n0 = n as nat;
    let mut n = n;
    let mut res: Vec<(Uint, Uint)> = Vec::new();
    let rt = floor_sqrt(n);
    if n == 0 {
        return res;
    }
    let mut i: usize = 2;
    proof {
        assert(as_factors(res@) =~= Seq::empty());
        assert(product(as_factors(res@)) == 1);
        assert(1 * n == n) by (nonlinear_arith);
    }
    while i <= rt
        invariant
            2 <= i <= rt + 1,
            rt <= n0 <= usize::MAX,
            n0 >= 2 ==> rt < n0,
            n >= 1,
            is_floor_sqrt(rt as nat, n0),
            n0 == product(as_factors(res@)) * n,
            prime_powers(as_factors(res@)),
            forall|k: int| 0 <= k < res@.len() ==> (#[trigger] as_factors(res@)[k]).0 < i,
            no_divisor_below(n as nat, i as nat),
        decreases rt + 1 - i,
    {
        if n % i == 0 {
            let mut e: usize = 0;
            let ghost before = n as nat;
            let ghost found = as_factors(res@);
            proof {
                lemma_least_divisor_prime(before, i as nat);
                assert(power(i as nat, 0) * n == before) by (nonlinear_arith)
                    requires
                        power(i as nat, 0) == 1,
                        n == before,
                ;
            }
            while n % i == 0
                invariant
                    i >= 2,
                    n >= 1,
                    before == power(i as nat, e as nat) * n,
                    e + n <= before,
                    before <= usize::MAX,
                    e == 0 ==> n == before,
                decreases n,
            {
                proof {
                    lemma_power_step(i as nat, e as nat, n as nat);
                    lemma_divides_le(i as nat, n as nat);
                    super::divisors::lemma_divides_multiple(i as nat, n as nat);
                    assert(n / i >= 1 && n / i < n) by (nonlinear_arith)
                        requires
                            n == i * (n / i),
                            i >= 2,
                            n >= 1,
                    ;
                }
                n /= i;
                e += 1;
            }
            res.push((i, e));
            proof {
                lemma_push_factor(found, i as nat, e as nat);
                assert(as_factors(res@) =~= found.push((i as nat, e as nat)));
                lemma_power_positive(i as nat, e as nat);
                lemma_divided_out(before, n as nat, i as nat, power(i as nat, e as nat));
                assert(n0 == product(found) * power(i as nat, e as nat) * n) by (nonlinear_arith)
                    requires
                        n0 == product(found) * before,
                        before == power(i as nat, e as nat) * n,
                ;
            }
        }
        i += 1;
    }
    if n > 1 {
        let ghost found = as_factors(res@);
        res.push((n, 1));
        proof {
            lemma_product_positive(found);
            assert(n <= n0) by (nonlinear_arith)
                requires
                    n0 == product(found) * n,
                    product(found) >= 1,
            ;
            lemma_prime_by_root(n as nat, rt as nat);
            vstd::arithmetic::div_mod::lemma_mod_self_0(n as int);
            assert(divides(n as nat, n as nat));
            lemma_push_factor(found, n as nat, 1);
            assert(as_factors(res@) =~= found.push((n as nat, 1)));
            assert(power(n as nat, 1) == n) by {
                assert(power(n as nat, 0) == 1);
                assert(n * 1 == n) by (nonlinear_arith);
            }
        }
    } else {
        assert(product(as_factors(res@)) * 1 == product(as_factors(res@))) by (nonlinear_arith);
    }
    res
}

/// Dividing by `p` and multiplying by `p - 1` turns a multiple of the power
/// `p` to the `e` into the same multiple of Euler's factor for it.
proof fn lemma_totient_step(t: nat, p: nat, e: nat, m: nat, ans: nat)
    requires
        p >= 2,
        e >= 1,
        ans == t * (power(p, e) * m),
    ensures
        ans / p * (p - 1) == t * (power(p, (e - 1) as nat) * (p - 1) as nat) * m,
        ans / p * (p - 1) <= ans,
{
    let h = power(p, (e - 1) as nat);
    let x = t * h * m;
    assert(ans == p * x) by (nonlinear_arith)
        requires
            ans == t * ((p * h) * m),
            x == t * h * m,
    ;
    vstd::arithmetic::div_mod::lemma_div_multiples_vanish(x as int, p as int);
    assert(x * (p - 1) == t * (h * (p - 1) as nat) * m) by (nonlinear_arith)
        requires
            x == t * h * m,
            p >= 1,
    ;
    assert(x * (p - 1) <= p * x) by (nonlinear_arith)
        requires
            p >= 1,
            x >= 0,
    ;
}

/// The number of numbers from one to `n` that have no divisor in common with
/// `n`, computed from the primes that divide `n`.
pub fn phi(n: Uint) -> (r: Uint)
    ensures
        n == 0 ==> r == 0,
        n >= 1 ==> exists|f: Seq<(nat, nat)>| #[trigger]
            is_factorization(f, n as nat) && r == totient_of(f),
{
    let ghost n0 = n as nat;
    let mut n = n;
    let mut ans = n;
    let rt = floor_sqrt(n);
    if n == 0 {
        return ans;
    }
    let ghost mut f: Seq<(nat, nat)> = Seq::empty();
    let mut i: usize = 2;
    proof {
        assert(1 * n == n) by (nonlinear_arith);
    }
    while i <= rt
        invariant
            2 <= i <= rt + 1,
            rt <= n0 <= usize::MAX,
            n0 >= 2 ==> rt < n0,
            n >= 1,
            is_floor_sqrt(rt as nat, n0),
            n0 == product(f) * n,
            ans == totient_of(f) * n,
            prime_powers(f),
            forall|k: int| 0 <= k < f.len() ==> (#[trigger] f[k]).0 < i,
            no_divisor_below(n as nat, i as nat),
        decreases rt + 1 - i,
    {
        if n % i == 0 {
            let ghost before = n as nat;
            let ghost t = totient_of(f);
            let ghost old_ans = ans as nat;
            let ghost mut e: nat = 0;
            proof {
                lemma_least_divisor_prime(before, i as nat);
                assert(power(i as nat, 0) * n == before) by (nonlinear_arith)
                    requires
                        power(i as nat, 0) == 1,
                        n == before,
                ;
                // the division below is exact whatever the power turns out to be
                lemma_divides_le(i as nat, n as nat);
                lemma_fundamental_div_mod(ans as int, i as int);
                assert((ans / i) * (i - 1) <= ans) by (nonlinear_arith)
                    requires
                        i >= 1,
                        ans >= 0,
                        ans / i >= 0,
                        ans == i * (ans / i) + ans % i,
                        ans % i >= 0,
                {
                }
            }
            ans = ans / i * (i - 1);
            while n % i == 0
                invariant
                    i >= 2,
                    n >= 1,
                    before == power(i as nat, e) * n,
                    e == 0 ==> n == before,
                decreases n,
            {
                proof {
                    lemma_power_step(i as nat, e, n as nat);
                    lemma_divides_le(i as nat, n as nat);
                    super::divisors::lemma_divides_multiple(i as nat, n as nat);
                    assert(n / i >= 1 && n / i < n) by (nonlinear_arith)
                        requires
                            n == i * (n / i),
                            i >= 2,
                            n >= 1,
                    ;
                    e = e + 1;
                }
                n /= i;
            }
            proof {
                lemma_totient_step(t, i as nat, e, n as nat, old_ans);
                lemma_push_factor(f, i as nat, e);
                lemma_power_positive(i as nat, e);
                lemma_divided_out(before, n as nat, i as nat, power(i as nat, e));
                assert(n0 == product(f) * power(i as nat, e) * n) by (nonlinear_arith)
                    requires
                        n0 == product(f) * before,
                        before == power(i as nat, e) * n,
                ;
                f = f.push((i as nat, e));
            }
        }
        i += 1;
    }
    if n > 1 {
        proof {
            lemma_product_positive(f);
            assert(n <= n0) by (nonlinear_arith)
                requires
                    n0 == product(f) * n,
                    product(f) >= 1,
            ;
            lemma_prime_by_root(n as nat, rt as nat);
            vstd::arithmetic::div_mod::lemma_mod_self_0(n as int);
            assert(divides(n as nat, n as nat));
            assert(power(n as nat, 1) == n) by {
                assert(power(n as nat, 0) == 1);
                assert(n * 1 == n) by (nonlinear_arith);
            }
            assert(ans == totient_of(f) * (power(n as nat, 1) * 1)) by (nonlinear_arith)
                requires
                    ans == totient_of(f) * n,
                    power(n as nat, 1) == n,
            ;
            lemma_totient_step(totient_of(f), n as nat, 1, 1, ans as nat);
            lemma_push_factor(f, n as nat, 1);
            let g = f.push((n as nat, 1));
            assert(totient_of(g) * 1 == totient_of(g)) by (nonlinear_arith);
            assert(is_factorization(g, n0));
        }
        ans = ans / n * (n - 1);
    } else {
        proof {
            assert(product(f) * 1 == product(f)) by (nonlinear_arith);
            assert(totient_of(f) * 1 == totient_of(f)) by (nonlinear_arith);
            assert(is_factorization(f, n0));
        }
    }
    ans
}

/// What `modulo` answers: the remainder between zero and the modulus, but the
/// modulus itself for a negative multiple of it.
pub open spec fn modulo_spec(value: int, modulus: int) -> int {
    if value < 0 && value % modulus == 0 {
        modulus
    } else {
        value % modulus
    }
}

/// Reduces a possibly negative value by the modulus.
pub fn modulo(value: Int, modulus: Uint) -> (r: Uint)
    requires
        0 < modulus <= isize::MAX,
    ensures
        r == modulo_spec(value as int, modulus as int),
        r % modulus == (value as int) % (modulus as int),
{
    if value < 0 {
        let m = modulus as Int;
        let back = value % m;
        proof {
            let v = value as int;
            let up = -v;
            let mm = m as int;
            let low = up % mm;
            assert(back == -low);
            lemma_fundamental_div_mod(up, mm);
            if low > 0 {
                assert(v == mm * (-(up / mm) - 1) + (mm - low)) by (nonlinear_arith)
                    requires
                        up == mm * (up / mm) + low,
                        v == -up,
                ;
                lemma_mod_multiples_vanish(-(up / mm) - 1, mm - low, mm);
                lemma_small_mod((mm - low) as nat, mm as nat);
            } else {
                assert(v == mm * (-(up / mm)) + 0) by (nonlinear_arith)
                    requires
                        up == mm * (up / mm) + low,
                        low == 0,
                        v == -up,
                ;
                lemma_mod_multiples_vanish(-(up / mm), 0, mm);
                lemma_small_mod(0, mm as nat);
                vstd::arithmetic::div_mod::lemma_mod_self_0(mm);
            }
        }
        (back + m) as Uint
    } else {
        proof {
            vstd::arithmetic::div_mod::lemma_mod_twice(value as int, modulus as int);
        }
        (value as Uint) % modulus
    }
}

/// The inverse of `value` in multiplication modulo `modulus`, if it has one.
pub fn inverse(value: Uint, modulus: Uint) -> (r: Option<Uint>)
    requires
        value <= isize::MAX,
        0 < modulus <= isize::MAX,
    ensures
        r is Some <==> gcd_spec(value as nat, modulus as nat) == 1,
        match r {
            Some(v) => {
                &&& v == modulo_spec(bezout(value as nat, modulus as nat).0, modulus as int)
                &&& v <= modulus
                &&& (value * v) % (modulus as int) == 1int % (modulus as int)
            },
            None => true,
        },
{
    let (x, y, d) = super::exgcd(value, modulus);
    if d == 1 {
        let v = modulo(x, modulus);
        proof {
            lemma_inverse(value as int, modulus as int, x as int, y as int, v as int, 1);
        }
        Some(v)
    } else {
        None
    }
}

/// A number that leaves the remainder of `x` keeps what `a * x` leaves.
pub proof fn lemma_inverse(a: int, m: int, x: int, y: int, v: int, d: int)
    requires
        m > 0,
        a * x + m * y == d,
        v % m == x % m,
    ensures
        (a * v) % m == d % m,
{
    lemma_mul_mod_noop_general(a, v, m);
    lemma_mul_mod_noop_general(a, x, m);
    lemma_mod_multiples_vanish(-y, d, m);
    assert(m * (-y) + d == a * x) by (nonlinear_arith)
        requires
            a * x + m * y == d,
    ;
}

/// Products of numbers that leave the same remainders leave the same
/// remainder.
pub proof fn lemma_congruent_products(a: int, b: int, c: int, d: int, m: int)
    requires
        m > 0,
        a % m == c % m,
        b % m == d % m,
    ensures
        (a * b) % m == (c * d) % m,
{
    lemma_mul_mod_noop_general(a, b, m);
    lemma_mul_mod_noop_general(c, d, m);
}

/// The power `e` of `base` leaves the remainder of `value`.
pub open spec fn solves(base: int, e: nat, value: int, modulus: int) -> bool {
    pow(base, e) % modulus == value % modulus
}

/// No power of `base` below `bound` leaves the remainder of `value`.
pub open spec fn none_solves(base: int, bound: int, value: int, modulus: int) -> bool {
    forall|e: nat| e < bound ==> !#[trigger] solves(base, e, value, modulus)
}

/// Every key of the table is the remainder of the power of `base` that the
/// table gives for it.
pub open spec fn is_power_table(table: Map<usize, usize>, base: int, modulus: int, below: int) -> bool {
    forall|k: usize| #[trigger]
        table.contains_key(k) ==> table[k] < below && solves(
            base,
            table[k] as nat,
            k as int,
            modulus,
        )
}

/// No key of the table is the remainder of a smaller power than the table
/// gives for it.
pub open spec fn table_least(table: Map<usize, usize>, base: int, modulus: int) -> bool {
    forall|k: usize| #[trigger]
        table.contains_key(k) ==> none_solves(base, table[k] as int, k as int, modulus)
}

/// The table has a key for the remainder of every power below `below`.
pub open spec fn table_complete(table: Map<usize, usize>, base: int, modulus: int, below: int) -> bool {
    forall|j: nat|
        j < below ==> table.contains_key((#[trigger] pow(base, j) % modulus) as usize)
}

/// What `log` answers where the modulus is at least two and `value` below
/// it, with `m` the root of the modulus rounded up: nothing where `base` to
/// the `m` has no inverse, else the least power of `base` below `m * m` that
/// leaves the remainder `value`, or nothing where there is none.
pub open spec fn is_log(base: nat, value: nat, modulus: nat, m: nat, r: Option<usize>) -> bool {
    match r {
        Some(x) => {
            &&& gcd_spec(pow_mod(base, m, modulus), modulus) == 1
            &&& x < m * m
            &&& solves(base as int, x as nat, value as int, modulus as int)
            &&& none_solves(base as int, x as int, value as int, modulus as int)
        },
        None => gcd_spec(pow_mod(base, m, modulus), modulus) != 1 || none_solves(
            base as int,
            (m * m) as int,
            value as int,
            modulus as int,
        ),
    }
}

/// With `q` undoing the power `p` of the base, a number `vt` that leaves the
/// remainder of `value` once multiplied by `p` is the remainder of the power
/// `j` exactly if `p` times that power leaves the remainder of `value`.
proof fn lemma_cancel(vt: int, p: int, q: int, x: int, value: int, md: int)
    requires
        md > 0,
        (vt * p) % md == value % md,
        (x * p) % md == value % md,
        (q * p) % md == 1int % md,
    ensures
        vt % md == x % md,
{
    // vt = vt * (q * p) = (vt * p) * q, and the same for x
    lemma_congruent_products(vt, q * p, vt, 1, md);
    lemma_congruent_products(x, q * p, x, 1, md);
    assert(vt * 1 == vt && x * 1 == x) by (nonlinear_arith);
    assert(vt * (q * p) == (vt * p) * q) by (nonlinear_arith);
    assert(x * (q * p) == (x * p) * q) by (nonlinear_arith);
    lemma_congruent_products(vt * p, q, x * p, q, md);
}

/// A block of `m` powers from the power `n * m` on holds no solution if the
/// table has no key `vt`.
proof fn lemma_block_without(
    table: Map<usize, usize>,
    b: int,
    md: int,
    m: nat,
    n: nat,
    vt: usize,
    q: int,
    value: int,
)
    requires
        md >= 2,
        vt < md,
        table_complete(table, b, md, m as int),
        !table.contains_key(vt),
        (vt * pow(b, n * m)) % md == value % md,
        (q * pow(b, n * m)) % md == 1int % md,
        none_solves(b, (n * m) as int, value, md),
    ensures
        none_solves(b, ((n + 1) * m) as int, value, md),
{
    assert forall|e: nat| e < (n + 1) * m implies !#[trigger] solves(b, e, value, md) by {
        if e >= n * m && solves(b, e, value, md) {
            let j = (e - n * m) as nat;
            assert((n + 1) * m == n * m + m) by (nonlinear_arith);
            lemma_pow_adds(b, n * m, j);
            assert(pow(b, n * m) * pow(b, j) == pow(b, j) * pow(b, n * m)) by (nonlinear_arith);
            lemma_cancel(vt as int, pow(b, n * m), q, pow(b, j), value, md);
            lemma_small_mod(vt as nat, md as nat);
            vstd::arithmetic::div_mod::lemma_mod_bound(pow(b, j), md);
            assert(table.contains_key((pow(b, j) % md) as usize));
        }
    }
}

/// The power that the table gives for the key `vt` is the least solution
/// from the power `n * m` on.
proof fn lemma_block_with(
    table: Map<usize, usize>,
    b: int,
    md: int,
    m: nat,
    n: nat,
    vt: usize,
    q: int,
    value: int,
)
    requires
        md >= 2,
        vt < md,
        table_least(table, b, md),
        table.contains_key(vt),
        (vt * pow(b, n * m)) % md == value % md,
        (q * pow(b, n * m)) % md == 1int % md,
        none_solves(b, (n * m) as int, value, md),
    ensures
        none_solves(b, (n * m + table[vt]) as int, value, md),
{
    assert forall|e: nat| e < n * m + table[vt] implies !#[trigger] solves(b, e, value, md) by {
        if e >= n * m && solves(b, e, value, md) {
            let j = (e - n * m) as nat;
            lemma_pow_adds(b, n * m, j);
            assert(pow(b, n * m) * pow(b, j) == pow(b, j) * pow(b, n * m)) by (nonlinear_arith);
            lemma_cancel(vt as int, pow(b, n * m), q, pow(b, j), value, md);
            assert(none_solves(b, table[vt] as int, vt as int, md));
            assert(!solves(b, j, vt as int, md));
        }
    }
}

/// log_base(value) baby_step_giant_step: a power of `base` that leaves the
/// remainder of `value`, if one is found among the powers below the modulus.
pub fn log(base: Uint, value: Uint, modulus: Uint) -> (r: Option<Uint>)
    requires
        modulus >= 1,
        modulus * modulus <= usize::MAX,
        base * modulus <= usize::MAX,
        value * modulus <= usize::MAX,
    ensures
        r matches Some(x) ==> solves(base as int, x as nat, value as int, modulus as int),
        modulus >= 2 && value < modulus ==> exists|m: nat|
            is_ceil_sqrt(m, modulus as nat) && #[trigger] is_log(
                base as nat,
                value as nat,
                modulus as nat,
                m,
                r,
            ),
{
    let ghost b = base as int;
    let ghost md = modulus as int;
    let ghost exact = modulus >= 2 && value < modulus;
    let mut map: HashMap<usize, usize> = HashMap::new();
    let m = ceil_sqrt(modulus);
    let mut e: usize = 1;
    map.insert(e, 0);
    proof {
        lemma_pow0(b);
        assert(m >= 1);
        assert(m * m <= modulus * modulus) by (nonlinear_arith)
            requires
                m <= modulus,
        ;
        assert(modulus <= isize::MAX) by (nonlinear_arith)
            requires
                modulus * modulus <= usize::MAX,
        ;
        assert((modulus - 1) * (modulus - 1) <= modulus * modulus) by (nonlinear_arith)
            requires
                modulus >= 1,
        ;
        assert(solves(b, 0, 1, md));
        if md >= 2 {
            lemma_small_mod(1, md as nat);
            assert forall|j: nat| j < 1 implies map@.contains_key(
                (#[trigger] pow(b, j) % md) as usize,
            ) by {
                assert(j == 0);
            }
        }
    }
    let mut i: usize = 1;
    while i < m
        invariant
            1 <= i <= m,
            m >= 1,
            md == modulus,
            b == base,
            md >= 1,
            base * modulus <= usize::MAX,
            e <= modulus,
            (e as int) % md == pow(b, (i - 1) as nat) % md,
            is_ceil_sqrt(m as nat, modulus as nat),
            is_power_table(map@, b, md, i as int),
            md >= 2 ==> e < md && table_complete(map@, b, md, i as int) && table_least(
                map@,
                b,
                md,
            ),
        decreases m - i,
    {
        let ghost before = map@;
        proof {
            assert(e * base <= base * modulus) by (nonlinear_arith)
                requires
                    e <= modulus,
            ;
            lemma_pow_adds(b, (i - 1) as nat, 1);
            lemma_pow1(b);
            lemma_congruent_products(e as int, b, pow(b, (i - 1) as nat), b, md);
            vstd::arithmetic::div_mod::lemma_mod_twice(e * base, md);
            vstd::arithmetic::div_mod::lemma_mod_bound(e * base, md);
        }
        e = e * base % modulus;
        map.entry(e).or_insert(i);
        proof {
            if md == 1 {
                assert((m - 1) * (m - 1) >= 1) by (nonlinear_arith)
                    requires
                        m >= 2,
                ;
            }
            lemma_small_mod(e as nat, md as nat);
            assert(solves(b, i as nat, e as int, md));
            if md >= 2 {
                if !before.contains_key(e) {
                    assert forall|j: nat| j < i implies !#[trigger] solves(b, j, e as int, md) by {
                        if solves(b, j, e as int, md) {
                            assert(before.contains_key((pow(b, j) % md) as usize));
                        }
                    }
                }
                assert forall|j: nat| j < i + 1 implies map@.contains_key(
                    (#[trigger] pow(b, j) % md) as usize,
                ) by {
                    if j < i {
                        assert(before.contains_key((pow(b, j) % md) as usize));
                    }
                }
            }
        }
        i += 1;
    }
    let bm = quick_pow(base, m, modulus);
    let v = match inverse(bm, modulus) {
        Some(x) => x,
        None => {
            proof {
                assert(is_log(base as nat, value as nat, modulus as nat, m as nat, None));
            }
            return None;
        },
    };
    let mut vt = value;
    let mut n: usize = 0;
    let ghost mut q: int = 1;
    proof {
        lemma_pow0(b);
        assert(0 * m == 0) by (nonlinear_arith);
        assert(vt * 1 == vt) by (nonlinear_arith);
        assert(1int * 1 == 1) by (nonlinear_arith);
        vstd::arithmetic::div_mod::lemma_mod_twice(pow(b, m as nat), md);
    }
    while n < m
        invariant
            n <= m,
            m >= 1,
            md == modulus,
            b == base,
            md >= 1,
            m * m <= usize::MAX,
            modulus * modulus <= usize::MAX,
            value * modulus <= usize::MAX,
            v <= modulus,
            vt <= value || vt < modulus,
            (bm * v) % md == 1int % md,
            (bm as int) % md == pow(b, m as nat) % md,
            is_ceil_sqrt(m as nat, modulus as nat),
            exact == (modulus >= 2 && value < modulus),
            gcd_spec(pow_mod(base as nat, m as nat, modulus as nat), modulus as nat) == 1,
            is_power_table(map@, b, md, m as int),
            (vt * pow(b, (n * m) as nat)) % md == (value as int) % md,
            exact ==> md >= 2 && vt < md && table_complete(map@, b, md, m as int) && table_least(
                map@,
                b,
                md,
            ),
            exact ==> (q * pow(b, (n * m) as nat)) % md == 1int % md,
            exact ==> none_solves(b, n * m, value as int, md),
        decreases m - n,
    {
        match map.get(&vt) {
            Some(j) => {
                proof {
                    assert(map@.contains_key(vt));
                    let j = map@[vt] as nat;
                    assert(n * m + j <= m * m - 1) by (nonlinear_arith)
                        requires
                            n <= m - 1,
                            j <= m - 1,
                            m >= 1,
                    ;
                    lemma_pow_adds(b, (n * m) as nat, j);
                    lemma_congruent_products(
                        pow(b, j),
                        pow(b, (n * m) as nat),
                        vt as int,
                        pow(b, (n * m) as nat),
                        md,
                    );
                    assert(pow(b, (n * m) as nat) * pow(b, j) == pow(b, j) * pow(
                        b,
                        (n * m) as nat,
                    )) by (nonlinear_arith);
                    if exact {
                        lemma_block_with(map@, b, md, m as nat, n as nat, vt, q, value as int);
                    }
                }
                let x = n * m + *j;
                proof {
                    if exact {
                        assert(is_log(
                            base as nat,
                            value as nat,
                            modulus as nat,
                            m as nat,
                            Some(x),
                        ));
                    }
                }
                return Some(x);
            },
            None => {},
        }
        proof {
            assert(vt * v <= value * modulus || vt * v <= modulus * modulus) by (nonlinear_arith)
                requires
                    v <= modulus,
                    vt <= value || vt < modulus,
            ;
            let here = pow(b, (n * m) as nat);
            let step = pow(b, m as nat);
            assert((n + 1) * m == n * m + m) by (nonlinear_arith);
            lemma_pow_adds(b, (n * m) as nat, m as nat);
            // (vt * v % md) * (here * step) is vt * here * (v * step), and v * step is one
            lemma_congruent_products(v as int, step, v as int, bm as int, md);
            assert((v * bm) == (bm * v)) by (nonlinear_arith);
            lemma_congruent_products(vt * here, v * step, vt * here, 1, md);
            assert((vt * here) * 1 == vt * here) by (nonlinear_arith);
            assert((vt * here) * (v * step) == (vt * v) * (here * step)) by (nonlinear_arith);
            vstd::arithmetic::div_mod::lemma_mod_twice(vt * v, md);
            lemma_congruent_products(
                ((vt * v) % md),
                here * step,
                vt * v,
                here * step,
                md,
            );
            vstd::arithmetic::div_mod::lemma_mod_bound(vt * v, md);
            if exact {
                lemma_block_without(map@, b, md, m as nat, n as nat, vt, q, value as int);
                lemma_congruent_products(q * here, v * step, 1, 1, md);
                assert((q * here) * (v * step) == (q * v) * (here * step)) by (nonlinear_arith);
                assert(1int * 1 == 1) by (nonlinear_arith);
                q = q * v;
            }
        }
        vt = vt * v % modulus;
        n += 1;
    }
    proof {
        if exact {
            assert(is_log(base as nat, value as nat, modulus as nat, m as nat, None));
        }
    }
    None
}

} // verus!
