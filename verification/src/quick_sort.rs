//! Quick sort: pick a pivot element that is strictly greater than some other
//! element, split the vector into the values below the pivot and the values
//! not below it, and sort the two parts recursively.
//!
//! `sort` returns a vector that is sorted and holds exactly the elements of
//! its input, counted with multiplicity.

use crate::sorted;
use vstd::prelude::*;
use vstd::seq_lib::lemma_multiset_commutative;
use vstd::seq_lib::to_multiset_contains;
use vstd::seq_lib::to_multiset_len;
use vstd::seq_lib::to_multiset_update;

verus! {

// Picks a pivot: the index of the greater element of the first pair of
// distinct elements, scanning from the front. Returns `None` when all
// elements are equal (then no pivot can split the vector).
fn select_pivot(array: &[i64]) -> (r: Option<usize>)
    ensures
        match r {
            Some(i) => i < array@.len() && exists|k: int|
                0 <= k < array@.len() && array@[k] < array@[i as int],
            None => forall|k: int| 0 <= k < array@.len() ==> #[trigger] array@[k] == array@[0],
        },
{
    if array.len() == 0 {
        return None;
    }

    let top = array[0];
    let mut i: usize = 1;
    while i < array.len()
        invariant
            1 <= i <= array@.len(),
            top == array@[0],
            forall|k: int| 0 <= k < i ==> #[trigger] array@[k] == array@[0],
        decreases array.len() - i,
    {
        if top < array[i] {
            proof {
                assert(array@[0] < array@[i as int]);
            }
            return Some(i);
        } else if top > array[i] {
            proof {
                assert(array@[i as int] < array@[0]);
            }
            return Some(0);
        }
        i += 1;
    }
    None
}

/// Splits the vector in two by the value of the pivot element: the first part
/// holds the elements strictly below it, the second the elements not below
/// it. The pivot element is required to exceed some element, so both parts
/// come back non-empty.
#[verifier::loop_isolation(false)]
pub fn partition(array: Vec<i64>, pivot_idx: usize) -> (r: (Vec<i64>, Vec<i64>))
    requires
        pivot_idx < array@.len(),
        exists|k: int| 0 <= k < array@.len() && array@[k] < array@[pivot_idx as int],
    ensures
        ({
            let pv = array@[pivot_idx as int];
            &&& r.0@.len() >= 1
            &&& r.1@.len() >= 1
            &&& r.0@.to_multiset().add(r.1@.to_multiset()) == array@.to_multiset()
            &&& forall|k: int| 0 <= k < r.0@.len() ==> r.0@[k] < pv
            &&& forall|k: int| 0 <= k < r.1@.len() ==> r.1@[k] >= pv
        }),
{
    let ghost pv = array@[pivot_idx as int];
    let ghost n = array@.len();
    let ghost tm0 = array@.to_multiset();
    let ghost input = array@;
    let mut array = array;
    let mut pivot_idx = pivot_idx;
    let mut left: usize = 0;
    let mut right: usize = array.len() - 1;

    loop
        invariant
            array@.len() == n,
            array@.to_multiset() == tm0,
            pivot_idx < n,
            array@[pivot_idx as int] == pv,
            left <= pivot_idx,
            left <= right < n,
            forall|k: int| 0 <= k < left ==> array@[k] < pv,
            forall|k: int| right < k < n ==> array@[k] >= pv,
            exists|k: int| 0 <= k <= right && array@[k] < pv,
        decreases right - left,
    {
        while array[left] < array[pivot_idx]
            invariant
                array@.len() == n,
                array@.to_multiset() == tm0,
                pivot_idx < n,
                array@[pivot_idx as int] == pv,
                left <= pivot_idx,
                forall|k: int| 0 <= k < left ==> array@[k] < pv,
            decreases pivot_idx - left,
        {
            left += 1;
        }

        while array[right] >= array[pivot_idx]
            invariant
                array@.len() == n,
                array@.to_multiset() == tm0,
                pivot_idx < n,
                array@[pivot_idx as int] == pv,
                right < n,
                forall|k: int| right < k < n ==> array@[k] >= pv,
                exists|k: int| 0 <= k <= right && array@[k] < pv,
            decreases right,
        {
            proof {
                let k = choose|k: int| 0 <= k <= right && array@[k] < pv;
                assert(k < right);
            }
            right -= 1;
        }

        if left < right {
            let a = array[left];
            let b = array[right];
            let ghost s0 = array@;
            array[left] = b;
            array[right] = a;
            proof {
                broadcast use vstd::multiset::group_multiset_axioms;

                to_multiset_update(s0, left as int, b);
                to_multiset_update(s0.update(left as int, b), right as int, a);
                assert(s0.update(left as int, b)[right as int] == b);
                assert(s0[left as int] == a && s0.contains(a));
                to_multiset_contains(s0, a);
                assert(array@.to_multiset() =~= tm0);
            }

            if pivot_idx == left {
                pivot_idx = right;
            } else if pivot_idx == right {
                pivot_idx = left;
            }
            left += 1;
            proof {
                let k = choose|k: int| 0 <= k <= right && s0[k] < pv;
                if k == right {
                    assert(array@[(left - 1) as int] < pv);
                } else if k == left - 1 {
                    assert(array@[right as int] < pv);
                } else {
                    assert(array@[k] < pv);
                }
            }
        } else {
            let ghost whole = array@;
            let right_vec = array.split_off(left);
            proof {
                broadcast use vstd::multiset::group_multiset_axioms;

                lemma_multiset_commutative(array@, right_vec@);
                assert(whole =~= array@ + right_vec@);
                assert(whole.to_multiset() == tm0);
                assert(array@.to_multiset().add(right_vec@.to_multiset()) == input.to_multiset());
                assert(forall|k: int|
                    0 <= k < right_vec@.len() ==> right_vec@[k] == whole[left + k]);
                assert(forall|k: int| 0 <= k < right_vec@.len() ==> right_vec@[k] >= pv);
                assert(forall|k: int| 0 <= k < array@.len() ==> array@[k] == whole[k]);
                assert(forall|k: int| 0 <= k < array@.len() ==> array@[k] < pv);
            }
            return (array, right_vec);
        }
    }
}

/// Sorts the vector, returning its elements in non-decreasing order.
pub fn sort(array: Vec<i64>) -> (out: Vec<i64>)
    ensures
        sorted(out@),
        out@.to_multiset() == array@.to_multiset(),
    decreases array@.len(),
{
    match select_pivot(array.as_slice()) {
        None => array,
        Some(pivot) => {
            let ghost pv = array@[pivot as int];
            let ghost whole = array@;
            let (left, right) = partition(array, pivot);
            let ghost l0 = left@;
            let ghost r0 = right@;
            proof {
                to_multiset_len(l0);
                to_multiset_len(r0);
                to_multiset_len(whole);
                assert(l0.len() + r0.len() == whole.len());
            }

            if left.is_empty() {
                return right;
            }

            let mut left = sort(left);
            let mut right = sort(right);
            proof {
                to_multiset_len(left@);
                to_multiset_len(right@);
            }
            let ghost l1 = left@;
            let ghost r1 = right@;
            left.append(&mut right);
            proof {
                assert(left@ == l1 + r1);
                lemma_multiset_commutative(l1, r1);
                assert(left@.to_multiset() == whole.to_multiset());
                assert forall|k: int| 0 <= k < l1.len() implies l1[k] < pv by {
                    to_multiset_contains(l1, l1[k]);
                    to_multiset_contains(l0, l1[k]);
                    assert(l1.contains(l1[k]));
                    let j = choose|j: int| 0 <= j < l0.len() && l0[j] == l1[k];
                };
                assert forall|k: int| 0 <= k < r1.len() implies r1[k] >= pv by {
                    to_multiset_contains(r1, r1[k]);
                    to_multiset_contains(r0, r1[k]);
                    assert(r1.contains(r1[k]));
                    let j = choose|j: int| 0 <= j < r0.len() && r0[j] == r1[k];
                };
                assert forall|p: int, q: int| 0 <= p <= q < left@.len() implies left@[p]
                    <= left@[q] by {
                    if q < l1.len() {
                    } else if p >= l1.len() {
                        assert(left@[p] == r1[p - l1.len()] && left@[q] == r1[q - l1.len()]);
                    } else {
                        assert(left@[p] == l1[p] && left@[q] == r1[q - l1.len()]);
                    }
                };
            }
            left
        },
    }
}

} // verus!
