//! The total order that the ordered containers and the sorting routines rely on.
//!
//! Elements are compared through `Ord`. Every statement here holds for any
//! type whose `Ord` implementation obeys the usual laws of a total order.

use core::cmp::Ordering;
use vstd::laws_cmp::obeys_cmp;
use vstd::prelude::*;
use vstd::std_specs::cmp::{OrdSpec, PartialEqSpec, PartialOrdSpec};

verus! {

/// The comparison of `T` is a lawful total order and the executable `cmp`
/// agrees with its specification.
pub open spec fn total_order<T: Ord>() -> bool {
    obeys_cmp::<T>()
}

/// `a` is strictly below `b`.
pub open spec fn lt<T: Ord>(a: T, b: T) -> bool {
    a.cmp_spec(&b) == Ordering::Less
}

/// `a` and `b` are the same element as far as the order can tell.
pub open spec fn equiv<T: Ord>(a: T, b: T) -> bool {
    a.cmp_spec(&b) == Ordering::Equal
}

/// `a` is below `b` or equivalent to it.
pub open spec fn le<T: Ord>(a: T, b: T) -> bool {
    !lt(b, a)
}

/// The primitive integers are totally ordered.
pub proof fn lemma_integers_ordered()
    ensures
        total_order::<u8>(),
        total_order::<u16>(),
        total_order::<u32>(),
        total_order::<u64>(),
        total_order::<u128>(),
        total_order::<usize>(),
        total_order::<i8>(),
        total_order::<i16>(),
        total_order::<i32>(),
        total_order::<i64>(),
        total_order::<i128>(),
        total_order::<isize>(),
{
    broadcast use vstd::laws_cmp::group_laws_cmp;

}

/// Exactly one of "below", "equivalent" and "above" holds of two elements,
/// and equivalence is symmetric.
pub proof fn lemma_trichotomy<T: Ord>(a: T, b: T)
    requires
        total_order::<T>(),
    ensures
        lt(a, b) || equiv(a, b) || lt(b, a),
        !(lt(a, b) && equiv(a, b)),
        !(lt(a, b) && lt(b, a)),
        !(equiv(a, b) && lt(b, a)),
        equiv(a, b) == equiv(b, a),
{
    reveal(vstd::laws_cmp::obeys_cmp_ord);
    reveal(vstd::laws_cmp::obeys_cmp_partial_ord);
    reveal(vstd::laws_cmp::obeys_partial_cmp_spec_properties);
    reveal(vstd::laws_eq::obeys_eq_spec_properties);
    assert(a.partial_cmp_spec(&b) == Some(a.cmp_spec(&b)));
    assert(b.partial_cmp_spec(&a) == Some(b.cmp_spec(&a)));
    assert(a.eq_spec(&b) <==> b.eq_spec(&a));
}

/// Every element is equivalent to itself.
pub proof fn lemma_equiv_refl<T: Ord>(a: T)
    requires
        total_order::<T>(),
    ensures
        equiv(a, a),
        !lt(a, a),
{
    lemma_trichotomy(a, a);
}

/// "Below" is transitive.
pub proof fn lemma_lt_trans<T: Ord>(a: T, b: T, c: T)
    requires
        total_order::<T>(),
        lt(a, b),
        lt(b, c),
    ensures
        lt(a, c),
{
    reveal(vstd::laws_cmp::obeys_cmp_ord);
    reveal(vstd::laws_cmp::obeys_partial_cmp_spec_properties);
    assert(a.partial_cmp_spec(&b) == Some(a.cmp_spec(&b)));
    assert(b.partial_cmp_spec(&c) == Some(b.cmp_spec(&c)));
    assert(a.partial_cmp_spec(&c) == Some(a.cmp_spec(&c)));
}

/// Equivalence is transitive.
pub proof fn lemma_equiv_trans<T: Ord>(a: T, b: T, c: T)
    requires
        total_order::<T>(),
        equiv(a, b),
        equiv(b, c),
    ensures
        equiv(a, c),
{
    reveal(vstd::laws_cmp::obeys_cmp_ord);
    reveal(vstd::laws_cmp::obeys_cmp_partial_ord);
    reveal(vstd::laws_cmp::obeys_partial_cmp_spec_properties);
    reveal(vstd::laws_eq::obeys_eq_spec_properties);
    assert(a.partial_cmp_spec(&b) == Some(a.cmp_spec(&b)));
    assert(b.partial_cmp_spec(&c) == Some(b.cmp_spec(&c)));
    assert(a.partial_cmp_spec(&c) == Some(a.cmp_spec(&c)));
    assert(a.eq_spec(&b));
    assert(b.eq_spec(&c));
    assert(a.eq_spec(&c));
}

/// An element below `b` is below everything equivalent to `b`.
pub proof fn lemma_lt_equiv<T: Ord>(a: T, b: T, c: T)
    requires
        total_order::<T>(),
        lt(a, b),
        equiv(b, c),
    ensures
        lt(a, c),
{
    lemma_trichotomy(a, c);
    lemma_trichotomy(a, b);
    lemma_trichotomy(b, c);
    if equiv(a, c) {
        lemma_equiv_trans(a, c, b);
    } else if lt(c, a) {
        lemma_lt_trans(c, a, b);
    }
}

/// Everything equivalent to `a` is below whatever `a` is below.
pub proof fn lemma_equiv_lt<T: Ord>(a: T, b: T, c: T)
    requires
        total_order::<T>(),
        equiv(a, b),
        lt(b, c),
    ensures
        lt(a, c),
{
    lemma_trichotomy(a, c);
    lemma_trichotomy(a, b);
    lemma_trichotomy(b, c);
    if equiv(a, c) {
        lemma_equiv_trans(b, a, c);
    } else if lt(c, a) {
        lemma_lt_trans(b, c, a);
    }
}

/// "Below or equivalent" is transitive, and holds of two elements one way
/// or the other.
pub proof fn lemma_le_trans<T: Ord>(a: T, b: T, c: T)
    requires
        total_order::<T>(),
        le(a, b),
        le(b, c),
    ensures
        le(a, c),
        le(a, b) || le(b, a),
{
    lemma_trichotomy(a, b);
    lemma_trichotomy(b, c);
    lemma_trichotomy(a, c);
    if lt(c, a) {
        if lt(a, b) {
            lemma_lt_trans(c, a, b);
        } else if lt(b, c) {
            lemma_lt_trans(b, c, a);
        } else {
            lemma_equiv_lt(b, c, a);
        }
    }
}

/// Three-way comparison whose result is the specified order of the two elements.
pub fn compare<T: Ord>(a: &T, b: &T) -> (o: Ordering)
    requires
        total_order::<T>(),
    ensures
        o == a.cmp_spec(b),
        (o == Ordering::Less) == lt(*a, *b),
        (o == Ordering::Equal) == equiv(*a, *b),
        (o == Ordering::Greater) == lt(*b, *a),
{
    proof {
        reveal(vstd::laws_cmp::obeys_cmp_ord);
        lemma_trichotomy(*a, *b);
    }
    a.cmp(b)
}

/// Whether `a` is strictly above `b`.
pub fn is_above<T: Ord>(a: &T, b: &T) -> (above: bool)
    requires
        total_order::<T>(),
    ensures
        above == lt(*b, *a),
{
    match compare(a, b) {
        Ordering::Greater => true,
        _ => false,
    }
}

} // verus!
