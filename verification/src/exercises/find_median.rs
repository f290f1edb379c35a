//! The middle of a list of integers: the one or two values that its median
//! is made of.

use crate::dsa::order::{lemma_i32_total_order, precedes, total_order};
use vstd::prelude::*;

verus! {

/// Sorting a slice in place, as `<[T]>::sort` documents it: the slice holds
/// the same elements afterwards, in ascending order, so that no element
/// sorts before one that stands earlier. The documentation warns that the
/// call may panic where the element type's order is not total; hence the
/// demand that it is, and that `cmp`, by which the slice is sorted, agrees
/// with `<`, by which the outcome is stated.
pub assume_specification<Item>[ <[Item]>::sort ](slice: &mut [Item])
    where Item: Ord
    requires
        total_order::<Item>(),
    ensures
        final(slice)@.to_multiset() == old(slice)@.to_multiset(),
        forall|i: int, j: int|
            0 <= i < j < final(slice)@.len() ==> !precedes(final(slice)@[j], final(slice)@[i]),
;

/// No element is greater than a later one.
pub open spec fn ascending(s: Seq<i32>) -> bool {
    forall|i: int, j: int| 0 <= i < j < s.len() ==> s[i] <= s[j]
}

/// `sorted` holds the elements of `s` in ascending order.
pub open spec fn is_sorted_form(sorted: Seq<i32>, s: Seq<i32>) -> bool {
    sorted.to_multiset() == s.to_multiset() && ascending(sorted)
}

/// The two values in the middle of the list once it is sorted: with an odd
/// number of values both are the value in the middle, with an even number
/// they are the two around the middle. Nothing for an empty list.
///
/// The median is the mean of the two.
pub fn middle_values(arr: Vec<i32>) -> (middle: Option<(i32, i32)>)
    ensures
        arr@.len() == 0 ==> middle is None,
        arr@.len() > 0 ==> middle is Some && exists|sorted: Seq<i32>|
            #![trigger is_sorted_form(sorted, arr@)]
            is_sorted_form(sorted, arr@) && middle->0 == (
                sorted[(arr@.len() - 1) / 2],
                sorted[arr@.len() as int / 2],
            ),
{
    broadcast use vstd::seq_lib::group_to_multiset_ensures;

    let mut arr = arr;
    let ghost given = arr@;
    proof {
        lemma_i32_total_order();
    }
    arr.sort();
    let len = arr.len();
    assert(arr@.len() == given.len()) by {
        assert(arr@.to_multiset().len() == given.to_multiset().len());
    }
    if len == 0 {
        return None;
    }
    proof {
        assert forall|i: int, j: int| 0 <= i < j < arr@.len() implies arr@[i] <= arr@[j] by {
            assert(!precedes(arr@[j], arr@[i]));
        }
        assert(is_sorted_form(arr@, given));
    }
    Some((arr[(len - 1) / 2], arr[len / 2]))
}

} // verus!
