//! Merge sort: split the vector in halves, sort each recursively, and merge
//! the two sorted halves.
//!
//! `sort` returns a vector that is sorted and holds exactly the elements of
//! its input, counted with multiplicity.

use crate::sorted;
use vstd::prelude::*;
use vstd::multiset::Multiset;
use vstd::seq_lib::group_to_multiset_ensures;
use vstd::seq_lib::lemma_multiset_commutative;

verus! {

/// Reports whether the slice is sorted in non-decreasing order.
pub fn is_sorted(array: &[i64]) -> (r: bool)
    ensures
        r == sorted(array@),
{
    let mut i: usize = 1;
    while i < array.len()
        invariant
            i >= 1,
            forall|p: int, q: int| 0 <= p <= q < i && q < array@.len() ==> array@[p] <= array@[q],
        decreases array.len() - i,
    {
        if array[i - 1] > array[i] {
            return false;
        }
        i += 1;
    }
    true
}

// Splits off the upper half of the vector, leaving the lower half behind.
// Both halves are non-empty.
fn split(array: &mut Vec<i64>) -> (out: Vec<i64>)
    requires
        old(array).len() >= 2,
    ensures
        old(array)@ == final(array)@ + out@,
        final(array)@.len() >= 1,
        out@.len() >= 1,
{
    let at = array.len() / 2;
    let out = array.split_off(at);
    proof {
        assert(old(array)@ =~= array@ + out@);
    }
    out
}

// Merges two sorted vectors into one sorted vector holding the elements of
// both.
fn merge(array_x: Vec<i64>, array_y: Vec<i64>) -> (out: Vec<i64>)
    requires
        sorted(array_x@),
        sorted(array_y@),
    ensures
        sorted(out@),
        out@.to_multiset() == array_x@.to_multiset().add(array_y@.to_multiset()),
{
    broadcast use group_to_multiset_ensures;

    let mut out: Vec<i64> = Vec::new();
    let mut i: usize = 0;
    let mut j: usize = 0;
    proof {
        assert(array_x@.subrange(0, 0).to_multiset() =~= Multiset::empty());
        assert(array_y@.subrange(0, 0).to_multiset() =~= Multiset::empty());
        assert(out@.to_multiset() =~= array_x@.subrange(0, 0).to_multiset().add(
            array_y@.subrange(0, 0).to_multiset(),
        ));
    }
    while i < array_x.len() || j < array_y.len()
        invariant
            i <= array_x.len(),
            j <= array_y.len(),
            sorted(array_x@),
            sorted(array_y@),
            sorted(out@),
            out@.len() == i + j,
            out@.len() > 0 && i < array_x@.len() ==> out@.last() <= array_x@[i as int],
            out@.len() > 0 && j < array_y@.len() ==> out@.last() <= array_y@[j as int],
            out@.to_multiset() == array_x@.subrange(0, i as int).to_multiset().add(
                array_y@.subrange(0, j as int).to_multiset(),
            ),
        decreases array_x.len() + array_y.len() - i - j,
    {
        let ghost out0 = out@;
        if j >= array_y.len() || (i < array_x.len() && array_x[i] < array_y[j]) {
            out.push(array_x[i]);
            proof {
                assert(array_x@.subrange(0, (i + 1) as int) == array_x@.subrange(
                    0,
                    i as int,
                ).push(array_x@[i as int]));
                assert(out@ == out0.push(array_x@[i as int]));
                vstd::seq_lib::to_multiset_build(out0, array_x@[i as int]);
                vstd::seq_lib::to_multiset_build(
                    array_x@.subrange(0, i as int),
                    array_x@[i as int],
                );
                assert(out@.to_multiset() =~= array_x@.subrange(0, (i + 1) as int).to_multiset()
                    .add(array_y@.subrange(0, j as int).to_multiset()));
                assert(forall|p: int, q: int|
                    0 <= p <= q < out@.len() ==> out@[p] <= out@[q]);
            }
            i += 1;
        } else {
            proof {
                assert(j < array_y.len());
            }
            out.push(array_y[j]);
            proof {
                assert(array_y@.subrange(0, (j + 1) as int) == array_y@.subrange(
                    0,
                    j as int,
                ).push(array_y@[j as int]));
                assert(out@ == out0.push(array_y@[j as int]));
                vstd::seq_lib::to_multiset_build(out0, array_y@[j as int]);
                vstd::seq_lib::to_multiset_build(
                    array_y@.subrange(0, j as int),
                    array_y@[j as int],
                );
                assert(out@.to_multiset() =~= array_x@.subrange(0, i as int).to_multiset().add(
                    array_y@.subrange(0, (j + 1) as int).to_multiset(),
                ));
                assert(forall|p: int, q: int|
                    0 <= p <= q < out@.len() ==> out@[p] <= out@[q]);
            }
            j += 1;
        }
    }
    proof {
        assert(array_x@.subrange(0, array_x@.len() as int) == array_x@);
        assert(array_y@.subrange(0, array_y@.len() as int) == array_y@);
    }
    out
}

/// Sorts the vector, returning its elements in non-decreasing order.
pub fn sort(array: Vec<i64>) -> (out: Vec<i64>)
    ensures
        sorted(out@),
        out@.to_multiset() == array@.to_multiset(),
    decreases array.len(),
{
    let length = array.len();
    if length < 2 {
        return array;
    }

    let mut array_x = array;
    let ghost whole = array_x@;
    let array_y = split(&mut array_x);
    let ghost lo = array_x@;
    let ghost hi = array_y@;

    let array_x = sort(array_x);
    let array_y = sort(array_y);

    let output = merge(array_x, array_y);
    proof {
        lemma_multiset_commutative(lo, hi);
        assert(whole.to_multiset() == lo.to_multiset().add(hi.to_multiset()));
    }
    output
}

} // verus!
