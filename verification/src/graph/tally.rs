//! Sums of a count per key over a finite set of keys.

use vstd::prelude::*;

verus! {

/// The sum of `f(k)` over all `k` in `keys`.
pub open spec fn total(keys: Set<usize>, f: spec_fn(usize) -> nat) -> nat
    decreases keys.len(),
    when keys.finite()
{
    if keys.is_empty() {
        0
    } else {
        let k = keys.choose();
        f(k) + total(keys.remove(k), f)
    }
}

pub proof fn lemma_total_empty(f: spec_fn(usize) -> nat)
    ensures
        total(Set::empty(), f) == 0,
{
}

/// Any key can be taken out of the sum first.
pub proof fn lemma_total_remove(keys: Set<usize>, f: spec_fn(usize) -> nat, k: usize)
    requires
        keys.finite(),
        keys.contains(k),
    ensures
        total(keys, f) == f(k) + total(keys.remove(k), f),
    decreases keys.len(),
{
    let c = keys.choose();
    if c != k {
        lemma_total_remove(keys.remove(c), f, k);
        lemma_total_remove(keys.remove(k), f, c);
        assert(keys.remove(c).remove(k) =~= keys.remove(k).remove(c));
    }
}

pub proof fn lemma_total_insert(keys: Set<usize>, f: spec_fn(usize) -> nat, k: usize)
    requires
        keys.finite(),
        !keys.contains(k),
    ensures
        total(keys.insert(k), f) == f(k) + total(keys, f),
{
    lemma_total_remove(keys.insert(k), f, k);
    assert(keys.insert(k).remove(k) =~= keys);
}

/// The sum depends on the counts of the keys in the set only.
pub proof fn lemma_total_agree(keys: Set<usize>, f: spec_fn(usize) -> nat, g: spec_fn(usize) -> nat)
    requires
        keys.finite(),
        forall|k: usize| keys.contains(k) ==> f(k) == g(k),
    ensures
        total(keys, f) == total(keys, g),
    decreases keys.len(),
{
    if !keys.is_empty() {
        let c = keys.choose();
        lemma_total_agree(keys.remove(c), f, g);
    }
}

/// A sum that is not zero has a key whose count is not zero.
pub proof fn lemma_total_positive(keys: Set<usize>, f: spec_fn(usize) -> nat) -> (k: usize)
    requires
        keys.finite(),
        total(keys, f) > 0,
    ensures
        keys.contains(k),
        f(k) > 0,
    decreases keys.len(),
{
    let c = keys.choose();
    if f(c) > 0 {
        c
    } else {
        lemma_total_positive(keys.remove(c), f)
    }
}

/// No count exceeds the sum.
pub proof fn lemma_total_bounds(keys: Set<usize>, f: spec_fn(usize) -> nat, k: usize)
    requires
        keys.finite(),
        keys.contains(k),
    ensures
        f(k) <= total(keys, f),
{
    lemma_total_remove(keys, f, k);
}

} // verus!
