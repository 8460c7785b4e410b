//! The lowest set bit of a machine word.

use vstd::arithmetic::div_mod::lemma_fundamental_div_mod;
use vstd::arithmetic::power2::{lemma_pow2_pos, lemma_pow2_unfold, pow2};
use vstd::bits::{lemma_usize_pow2_no_overflow, lemma_usize_shl_is_mul, lemma_usize_shr_is_div};
use vstd::prelude::*;

verus! {

/// The number of zero bits below the lowest set bit of `i`, and the number of
/// bits of a word for zero.
pub open spec fn low_zeros(i: usize) -> u32
    decreases i,
{
    if i == 0 {
        usize::BITS
    } else if i % 2 == 1 {
        0
    } else {
        (1 + low_zeros(i / 2)) as u32
    }
}

/// The value of the lowest set bit of `i`: the largest power of two that
/// divides `i`.
pub open spec fn lowbit(i: nat) -> nat
    decreases i,
{
    if i == 0 {
        0
    } else if i % 2 == 1 {
        1
    } else {
        2 * lowbit(i / 2)
    }
}

/// The lowest set bit of a number that is not zero is at least one and at
/// most the number.
pub proof fn lemma_lowbit_bounds(i: nat)
    requires
        i > 0,
    ensures
        1 <= lowbit(i) <= i,
    decreases i,
{
    if i % 2 == 0 {
        lemma_lowbit_bounds(i / 2);
    }
}

/// Adding its lowest set bit to a number at least doubles that bit.
pub proof fn lemma_lowbit_carries(j: nat)
    requires
        j > 0,
    ensures
        lowbit(j + lowbit(j)) >= 2 * lowbit(j),
    decreases j,
{
    lemma_lowbit_bounds(j);
    if j % 2 == 1 {
        lemma_lowbit_bounds((j + 1) / 2);
    } else {
        let h = j / 2;
        lemma_lowbit_carries(h);
        lemma_lowbit_bounds(h);
        assert((j + lowbit(j)) / 2 == h + lowbit(h));
    }
}

/// A number between another one and that plus its lowest set bit keeps above
/// the other one once its own lowest set bit is taken away.
pub proof fn lemma_lowbit_between(j: nat, k: nat)
    requires
        j > 0,
        j < k < j + lowbit(j),
    ensures
        k - lowbit(k) >= j,
    decreases j,
{
    lemma_lowbit_bounds(j);
    lemma_lowbit_bounds(k);
    if j % 2 == 0 {
        let h = j / 2;
        lemma_lowbit_bounds(h);
        if k % 2 == 0 {
            lemma_lowbit_between(h, k / 2);
        }
    }
}

/// `trailing_zeros` of the standard library counts the zero bits below the
/// lowest set bit, and answers the number of bits of the word for zero.
pub assume_specification[ usize::trailing_zeros ](i: usize) -> (r: u32)
    ensures
        r == low_zeros(i),
;

/// One, or twice a power of two.
pub open spec fn two_power(p: nat) -> bool
    decreases p,
{
    p == 1 || (p >= 2 && p % 2 == 0 && two_power(p / 2))
}

/// `is_power_of_two` of the standard library tells whether the number is two
/// to some power.
pub assume_specification[ usize::is_power_of_two ](i: usize) -> (r: bool)
    ensures
        r == two_power(i as nat),
;

/// `next_power_of_two` of the standard library gives the smallest power of
/// two that is at least the number. It is asked only where that power fits a
/// word.
pub assume_specification[ usize::next_power_of_two ](i: usize) -> (r: usize)
    requires
        2 * i <= usize::MAX + 1,
    ensures
        two_power(r as nat),
        r >= i,
        r == 1 || r / 2 < i,
;

/// A power of two is its own lowest set bit.
pub proof fn lemma_power_lowbit(p: nat)
    requires
        two_power(p),
    ensures
        lowbit(p) == p,
    decreases p,
{
    if p != 1 {
        lemma_power_lowbit(p / 2);
    }
}

/// The lowest set bit is two to the number of zeros below it; it divides the
/// number and is at most the number.
pub proof fn lemma_lowbit(i: usize)
    requires
        i > 0,
    ensures
        low_zeros(i) < usize::BITS,
        lowbit(i as nat) == pow2(low_zeros(i) as nat),
        1 <= lowbit(i as nat) <= i,
        (i as nat) % lowbit(i as nat) == 0,
        ((i as nat) / lowbit(i as nat)) % 2 == 1,
    decreases i,
{
    if i % 2 == 1 {
        vstd::arithmetic::power2::lemma2_to64();
    } else {
        let h = (i / 2) as usize;
        lemma_lowbit(h);
        let z = low_zeros(h) as nat;
        lemma_pow2_unfold(z + 1);
        vstd::arithmetic::div_mod::lemma_fundamental_div_mod(h as int, lowbit(h as nat) as int);
        let q = (h as nat) / lowbit(h as nat);
        let b = lowbit(h as nat);
        assert(i == (2 * b) * q) by (nonlinear_arith)
            requires
                i == 2 * h,
                h == b * q,
        ;
        vstd::arithmetic::div_mod::lemma_fundamental_div_mod_converse(
            i as int,
            (2 * b) as int,
            q as int,
            0,
        );
        if z + 1 >= usize::BITS {
            lemma_usize_pow2_no_overflow(z);
            lemma_word_is_full();
            assert(pow2(z + 1) > usize::MAX) by {
                vstd::arithmetic::power2::lemma_pow2_strictly_increases(
                    (usize::BITS - 1) as nat,
                    z + 1,
                );
            }
        }
    }
}

/// A word holds the numbers below two to the number of its bits.
pub proof fn lemma_word_is_full()
    ensures
        usize::MAX + 1 == pow2(usize::BITS as nat),
        usize::MAX < 2 * pow2((usize::BITS - 1) as nat),
{
    vstd::arithmetic::power2::lemma2_to64();
    vstd::arithmetic::power2::lemma2_to64_rest();
    lemma_pow2_unfold(usize::BITS as nat);
}

/// Shifting the zeros below the lowest set bit out divides by that bit and
/// leaves an odd number.
pub proof fn lemma_strip_zeros(i: usize)
    requires
        i > 0,
    ensures
        (i >> low_zeros(i)) == i as nat / lowbit(i as nat),
        (i >> low_zeros(i)) % 2 == 1,
        (i >> low_zeros(i)) * lowbit(i as nat) == i,
        (i >> low_zeros(i)) >= 1,
{
    let t = low_zeros(i);
    lemma_lowbit(i);
    lemma_usize_shr_is_div(i, t as usize);
    lemma_fundamental_div_mod(i as int, lowbit(i as nat) as int);
    assert(i >> t == i >> (t as usize)) by (bit_vector);
}

/// Shifting one up by the zeros below the lowest set bit gives that bit.
pub proof fn lemma_one_shifted(i: usize)
    requires
        i > 0,
    ensures
        (1usize << low_zeros(i)) == lowbit(i as nat),
{
    let t = low_zeros(i);
    lemma_lowbit(i);
    assert(1 * pow2(t as nat) == pow2(t as nat)) by (nonlinear_arith);
    lemma_usize_shl_is_mul(1, t as usize);
    assert(1usize << t == 1usize << (t as usize)) by (bit_vector);
}

/// The lowest set bit of two numbers taken together bit by bit is the lower
/// one of their lowest set bits.
pub proof fn lemma_or_lowbit(a: usize, b: usize)
    requires
        a > 0,
        b > 0,
    ensures
        a | b > 0,
        low_zeros(a | b) == if low_zeros(a) <= low_zeros(b) {
            low_zeros(a)
        } else {
            low_zeros(b)
        },
        lowbit((a | b) as nat) == if lowbit(a as nat) <= lowbit(b as nat) {
            lowbit(a as nat)
        } else {
            lowbit(b as nat)
        },
    decreases a,
{
    assert(a | b > 0) by (bit_vector)
        requires
            a > 0,
    ;
    assert((a | b) % 2 == 1 <==> a % 2 == 1 || b % 2 == 1) by (bit_vector);
    assert((a | b) / 2 == (a / 2) | (b / 2)) by (bit_vector);
    lemma_lowbit(a);
    lemma_lowbit(b);
    lemma_lowbit(a | b);
    if a % 2 == 0 && b % 2 == 0 {
        lemma_or_lowbit(a / 2, b / 2);
        lemma_lowbit(a / 2);
        lemma_lowbit(b / 2);
        lemma_lowbit((a / 2) | (b / 2));
    }
}

} // verus!
