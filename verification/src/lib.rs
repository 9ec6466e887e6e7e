//! Verified textbook data structures and algorithms.
//!
//! The centrepiece is an AVL tree (`avl`): an ordered set of keys with
//! guaranteed logarithmic height, whose binary-search-tree ordering and
//! height-balance invariants are proved to hold after every operation.
//! Around it stand a plain binary search tree, three sorting algorithms,
//! binary search, a queue, a stack, a union-find structure, and single-source
//! shortest distances over a graph, each with functional contracts.

pub mod avl;
pub mod binary_search;
pub mod dijkstra;
pub mod binary_tree;
pub mod heap_sort;
pub mod merge_sort;
pub mod queue;
pub mod quick_sort;
pub mod stack;
pub mod union_find;

use vstd::prelude::*;

verus! {

/// A sequence of keys is sorted in non-decreasing order.
pub open spec fn sorted(s: Seq<i64>) -> bool {
    forall|i: int, j: int| 0 <= i <= j < s.len() ==> s[i] <= s[j]
}

} // verus!
