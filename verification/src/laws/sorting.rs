//! Laws of ranking and sorting.

use vstd::prelude::*;

use crate::error::DistError;
use crate::hash::check_digest;
use crate::sorting::{comes_before, rank, sort_distinct};

verus! {

/// A ranking lists every item once, by ascending key, and items of one key as they are listed.
pub proof fn ranking_ascends_and_is_stable(keys: &Vec<u128>, order: Vec<usize>)
    requires
        call_ensures(rank, (keys,), order),
    ensures
        order@.len() == keys@.len(),
        order@.no_duplicates(),
        forall|i: int|
            0 <= i < order@.len() ==> 0 <= #[trigger] order@[i] < keys@.len(),
        forall|i: int, j: int|
            #![trigger order@[i], order@[j]]
            0 <= i < j < order@.len() ==> keys@[order@[i] as int] < keys@[order@[j] as int] || (
            keys@[order@[i] as int] == keys@[order@[j] as int] && order@[i] < order@[j]),
{
    assert forall|i: int, j: int|
        #![trigger order@[i], order@[j]]
        0 <= i < j < order@.len() implies keys@[order@[i] as int] < keys@[order@[j] as int] || (
    keys@[order@[i] as int] == keys@[order@[j] as int] && order@[i] < order@[j]) by {
        assert(comes_before(keys@, order@[i], order@[j]));
    }
    assert(order@.no_duplicates()) by {
        assert forall|i: int, j: int|
            0 <= i < order@.len() && 0 <= j < order@.len() && i != j implies order@[i]
            != order@[j] by {
            if i < j {
                assert(comes_before(keys@, order@[i], order@[j]));
            } else {
                assert(comes_before(keys@, order@[j], order@[i]));
            }
        }
    }
}

/// Sorting keeps the numbers and puts them in ascending order.
pub proof fn sorted_numbers_ascend(items: &Vec<u32>, r: Vec<u32>)
    requires
        call_ensures(sort_distinct, (items,), r),
    ensures
        r@.len() == items@.len(),
        forall|i: int, j: int| 0 <= i < j < r@.len() ==> r@[i] < r@[j],
        forall|c: u32| #[trigger] r@.contains(c) <==> items@.contains(c),
{
    assert forall|c: u32| #[trigger] r@.contains(c) <==> items@.contains(c) by {
        assert(r@.contains(c) <==> items@.to_set().contains(c));
    }
}

/// A digest text is accepted exactly if it is the expected one; otherwise the mismatch tells
/// the chunk and both texts.
pub proof fn digest_is_compared(
    index: u32,
    expected: &String,
    actual: String,
    r: Result<(), DistError>,
)
    requires
        call_ensures(check_digest, (index, expected, actual), r),
    ensures
        r is Ok <==> actual@ == expected@,
        r is Err ==> {
            &&& r->Err_0 is HashMismatch
            &&& r->Err_0->index == index
            &&& r->Err_0->expected@ == expected@
            &&& r->Err_0->actual@ == actual@
        },
{
}

} // verus!
