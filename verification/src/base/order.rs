//! What the comparison operators of a partially ordered type mean in
//! contracts.

use core::cmp::Ordering;
use vstd::prelude::*;
use vstd::laws_cmp::{
    obeys_cmp, obeys_cmp_ord, obeys_cmp_partial_ord, obeys_partial_cmp_spec_properties,
};
use vstd::laws_eq::obeys_eq_spec_properties;
use vstd::std_specs::cmp::{OrdSpec, PartialEqSpec, PartialOrdSpec};

verus! {

/// The comparison operators of `T` answer as its comparison is specified.
pub open spec fn orderly<T: PartialOrd>() -> bool {
    T::obeys_partial_cmp_spec()
}

/// `a >= b`
pub open spec fn at_least<T: PartialOrd>(a: T, b: T) -> bool {
    a.partial_cmp_spec(&b) matches Some(Ordering::Greater | Ordering::Equal)
}

/// `a > b`
pub open spec fn above<T: PartialOrd>(a: T, b: T) -> bool {
    a.partial_cmp_spec(&b) == Some(Ordering::Greater)
}

/// `a <= b`
pub open spec fn at_most<T: PartialOrd>(a: T, b: T) -> bool {
    a.partial_cmp_spec(&b) matches Some(Ordering::Less | Ordering::Equal)
}

/// The comparison of `T` is specified and orders all values in one line.
pub open spec fn total_order<T: Ord>() -> bool {
    obeys_cmp::<T>()
}

/// Each of the two values is at most the other.
pub open spec fn same_rank<T: PartialOrd>(a: T, b: T) -> bool {
    at_most(a, b) && at_most(b, a)
}

/// A clone is the value itself.
pub open spec fn clones_equal<T: Clone>() -> bool {
    forall|a: T, b: T| #[trigger] cloned(a, b) ==> a == b
}

/// The first value, or the second where the first is not at most the second.
pub open spec fn smaller<T: Ord>(a: T, b: T) -> T {
    if at_most(a, b) {
        a
    } else {
        b
    }
}

/// In a total order every two values compare one way or the other, and what
/// is at most a value which is at most a third is at most the third.
pub proof fn lemma_total_order<T: Ord>()
    requires
        total_order::<T>(),
    ensures
        orderly::<T>(),
        forall|a: T| #[trigger] at_most(a, a),
        forall|a: T, b: T| #[trigger] at_most(a, b) || at_most(b, a),
        forall|a: T, b: T, c: T| #[trigger] at_most(a, b) && #[trigger] at_most(b, c) ==> at_most(a, c),
        forall|a: T, b: T| #[trigger] at_least(a, b) <==> at_most(b, a),
        forall|a: T, b: T| #[trigger] above(a, b) <==> !at_most(a, b),
        T::obeys_eq_spec(),
        forall|a: T, b: T| #[trigger] a.eq_spec(&b) <==> same_rank(a, b),
{
    reveal(obeys_cmp_partial_ord);
    reveal(obeys_cmp_ord);
    reveal(obeys_partial_cmp_spec_properties);
    reveal(obeys_eq_spec_properties);
    assert forall|a: T, b: T| (a.partial_cmp_spec(&b) == Some(Ordering::Equal))
        == (#[trigger] b.partial_cmp_spec(&a) == Some(Ordering::Equal)) by {
        assert(a.eq_spec(&b) <==> b.eq_spec(&a));
    }
    assert forall|a: T| #[trigger] at_most(a, a) by {
        let o = a.partial_cmp_spec(&a);
        assert(o == Some(a.cmp_spec(&a)));
        if o == Some(Ordering::Greater) {
            assert(a.partial_cmp_spec(&a) == Some(Ordering::Less));
        }
    }
    assert forall|a: T, b: T| #[trigger] at_most(a, b) || at_most(b, a) by {
        assert(a.partial_cmp_spec(&b) == Some(a.cmp_spec(&b)));
        assert(b.partial_cmp_spec(&a) == Some(b.cmp_spec(&a)));
    }
    assert forall|a: T, b: T| #[trigger] at_least(a, b) <==> at_most(b, a) by {
        assert(a.partial_cmp_spec(&b) == Some(a.cmp_spec(&b)));
        assert(b.partial_cmp_spec(&a) == Some(b.cmp_spec(&a)));
    }
    assert forall|a: T, b: T| #[trigger] above(a, b) <==> !at_most(a, b) by {
        assert(a.partial_cmp_spec(&b) == Some(a.cmp_spec(&b)));
    }
    assert forall|a: T, b: T| #[trigger] a.eq_spec(&b) <==> same_rank(a, b) by {
        assert(a.partial_cmp_spec(&b) == Some(a.cmp_spec(&b)));
        assert(b.partial_cmp_spec(&a) == Some(b.cmp_spec(&a)));
    }
    assert forall|a: T, b: T, c: T| #[trigger] at_most(a, b) && #[trigger] at_most(b, c) implies at_most(
        a,
        c,
    ) by {
        let ab = a.partial_cmp_spec(&b);
        let bc = b.partial_cmp_spec(&c);
        let ac = a.partial_cmp_spec(&c);
        assert(ac == Some(a.cmp_spec(&c)));
        assert(c.partial_cmp_spec(&a) == Some(c.cmp_spec(&a)));
        assert(c.partial_cmp_spec(&b) == Some(c.cmp_spec(&b)));
        assert(b.partial_cmp_spec(&a) == Some(b.cmp_spec(&a)));
        if ac == Some(Ordering::Greater) {
            // then c is less than a
            assert(c.partial_cmp_spec(&a) == Some(Ordering::Less));
            if ab == Some(Ordering::Less) {
                // c < a < b, against b <= c
                assert(c.partial_cmp_spec(&b) == Some(Ordering::Less));
                assert(b.partial_cmp_spec(&c) == Some(Ordering::Greater));
            } else {
                // a and b are equal
                assert(a.eq_spec(&b));
                if bc == Some(Ordering::Less) {
                    // b < c < a, against a equal to b
                    assert(b.partial_cmp_spec(&a) == Some(Ordering::Less));
                    assert(a.partial_cmp_spec(&b) == Some(Ordering::Greater));
                } else {
                    assert(b.eq_spec(&c));
                    assert(a.eq_spec(&c));
                }
            }
        }
    }
}

/// What is at most a value that is at most a third is at most the third.
pub proof fn lemma_at_most_trans<T: Ord>(a: T, b: T, c: T)
    requires
        total_order::<T>(),
        at_most(a, b),
        at_most(b, c),
    ensures
        at_most(a, c),
{
    lemma_total_order::<T>();
}

/// Values are equal as the comparison has it exactly if they are of one
/// rank.
pub proof fn lemma_equal_rank<T: Ord>(a: T, b: T)
    requires
        total_order::<T>(),
    ensures
        a.eq_spec(&b) <==> same_rank(a, b),
        at_most(a, b) || at_most(b, a),
        at_most(a, a),
{
    lemma_total_order::<T>();
}

/// The smaller of two values by `min` of the standard library: the first
/// where they compare equal.
pub fn least<'a, T: Ord>(a: &'a T, b: &'a T) -> (r: &'a T)
    ensures
        total_order::<T>() ==> *r == smaller(*a, *b),
{
    proof {
        if total_order::<T>() {
            lemma_total_order::<T>();
            reveal(obeys_cmp_partial_ord);
            reveal(obeys_cmp_ord);
            reveal(obeys_partial_cmp_spec_properties);
            assert(b.partial_cmp_spec(a) == Some(b.cmp_spec(a)));
            assert(a.partial_cmp_spec(b) == Some(a.cmp_spec(b)));
            assert((b.partial_cmp_spec(a) == Some(Ordering::Less)) <==> (a.partial_cmp_spec(b)
                == Some(Ordering::Greater)));
        }
    }
    a.min(b)
}

} // verus!
