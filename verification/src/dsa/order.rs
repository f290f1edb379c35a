//! What the ordered containers assume of an element type's comparison.

use core::cmp::Ordering;
use vstd::prelude::*;
use vstd::std_specs::cmp::{OrdSpec, PartialOrdSpec};

verus! {

/// `a` sorts strictly before `b`: the meaning of `a < b`.
pub open spec fn precedes<T: Ord>(a: T, b: T) -> bool {
    a.partial_cmp_spec(&b) == Some(Ordering::Less)
}

/// `a` sorts strictly after `b`: the meaning of `a > b`.
pub open spec fn follows<T: Ord>(a: T, b: T) -> bool {
    a.partial_cmp_spec(&b) == Some(Ordering::Greater)
}

/// The comparison of `T` is a strict weak order, and the executable operators
/// `<` and `>` compute it.
///
/// Asymmetry together with negative transitivity make "does not sort before"
/// a total preorder, which is all a heap needs: elements that compare as
/// equal need not be identical.
pub open spec fn strict_weak_order<T: Ord>() -> bool {
    &&& T::obeys_partial_cmp_spec()
    &&& forall|a: T, b: T| #[trigger] follows(a, b) <==> precedes(b, a)
    &&& forall|a: T, b: T| #[trigger] precedes(a, b) ==> !precedes(b, a)
    &&& forall|a: T, b: T, c: T|
        #![trigger precedes(a, b), precedes(b, c)]
        !precedes(a, b) && !precedes(b, c) ==> !precedes(a, c)
}

/// The comparison of `T` is a strict weak order in which any two elements
/// compare, and the three-way comparison `cmp` computes it as well.
pub open spec fn total_order<T: Ord>() -> bool {
    &&& strict_weak_order::<T>()
    &&& T::obeys_cmp_spec()
    &&& forall|a: T, b: T| #[trigger] a.partial_cmp_spec(&b) == Some(a.cmp_spec(&b))
}

/// In a strict weak order `precedes` is transitive.
pub proof fn lemma_precedes_transitive<T: Ord>(a: T, b: T, c: T)
    requires
        strict_weak_order::<T>(),
        precedes(a, b),
        precedes(b, c),
    ensures
        precedes(a, c),
{
    // Otherwise `b` would not precede `c`: neither does `b` precede `a`, nor `a` precede `c`.
}

/// The built-in order of `i32` is a strict weak order.
pub proof fn lemma_i32_strict_weak_order()
    ensures
        strict_weak_order::<i32>(),
{
    assert forall|a: i32, b: i32| #[trigger] follows(a, b) <==> precedes(b, a) by {}
    assert forall|a: i32, b: i32| #[trigger] precedes(a, b) implies !precedes(b, a) by {}
    assert forall|a: i32, b: i32, c: i32|
        #![trigger precedes(a, b), precedes(b, c)]
        !precedes(a, b) && !precedes(b, c) implies !precedes(a, c) by {}
}

/// The built-in order of `i32` is a total order.
pub proof fn lemma_i32_total_order()
    ensures
        total_order::<i32>(),
{
    lemma_i32_strict_weak_order();
    assert forall|a: i32, b: i32| #[trigger] a.partial_cmp_spec(&b) == Some(a.cmp_spec(&b)) by {}
}

} // verus!
