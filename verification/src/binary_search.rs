//! Binary search over a sorted slice.
//!
//! The search returns the index of some element equal to the target, or
//! `None` when no element equals it. With duplicate elements any index of a
//! matching element may come back.

use crate::sorted;
use vstd::prelude::*;

verus! {

/// Reports whether the slice is sorted in non-decreasing order.
pub fn is_sorted(array: &[i64]) -> (r: bool)
    ensures
        r == sorted(array@),
{
    let mut i: usize = 1;
    while i < array.len()
        invariant
            i >= 1,
            forall|p: int, q: int| 0 <= p <= q < i && q < array@.len() ==> array@[p] <= array@[q],
        decreases array.len() - i,
    {
        if array[i - 1] > array[i] {
            return false;
        }
        i += 1;
    }
    true
}

/// Finds the index of an element equal to `x` by bisection.
///
/// The slice is required to be sorted; on an unsorted slice no index is
/// meaningful, so such inputs are ruled out.
pub fn binary_search(array: &[i64], x: &i64) -> (r: Option<usize>)
    requires
        sorted(array@),
    ensures
        match r {
            Some(i) => i < array@.len() && array@[i as int] == *x,
            None => forall|k: int| 0 <= k < array@.len() ==> array@[k] != *x,
        },
{
    let mut lo: usize = 0;
    let mut hi: usize = array.len();
    while lo < hi
        invariant
            lo <= hi <= array@.len(),
            sorted(array@),
            forall|k: int| 0 <= k < lo ==> array@[k] < *x,
            forall|k: int| hi <= k < array@.len() ==> array@[k] > *x,
        decreases hi - lo,
    {
        let mid = lo + (hi - lo) / 2;
        if array[mid] == *x {
            return Some(mid);
        } else if array[mid] < *x {
            lo = mid + 1;
        } else {
            hi = mid;
        }
    }
    None
}

} // verus!
