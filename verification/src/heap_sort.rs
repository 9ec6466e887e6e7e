//! Heap sort: arrange the vector into a binary max-heap laid out by index
//! (children of `i` at `2 i + 1` and `2 i + 2`), then repeatedly swap the
//! root with the last element of the shrinking heap window and sift the new
//! root down.
//!
//! `sort` returns a vector that is sorted and holds exactly the elements the
//! heap was built from, counted with multiplicity.

use crate::sorted;
use vstd::prelude::*;
use vstd::seq_lib::lemma_multiset_commutative;
use vstd::seq_lib::to_multiset_contains;
use vstd::seq_lib::to_multiset_update;

verus! {

/// The max-heap ordering on the first `size` elements of `s`, for every
/// parent index at or above `lo`: each element is at most its parent.
pub open spec fn heap_ordered(s: Seq<i64>, size: int, lo: int) -> bool {
    forall|c: int| 0 < c < size && lo <= (c - 1) / 2 ==> s[(c - 1) / 2] >= #[trigger] s[c]
}

/// The index `j` lies in the subtree rooted at index `i`.
pub open spec fn in_subtree(i: int, j: int) -> bool
    decreases j,
{
    if j < i || j < 0 || i < 0 {
        false
    } else if j == i {
        true
    } else {
        in_subtree(i, (j - 1) / 2)
    }
}

proof fn lemma_subtree_trans(i: int, j: int, k: int)
    requires
        in_subtree(i, j),
        in_subtree(j, k),
    ensures
        in_subtree(i, k),
    decreases k,
{
    if k != j {
        lemma_subtree_trans(i, j, (k - 1) / 2);
    }
}

proof fn lemma_subtree_lower(i: int, j: int)
    requires
        in_subtree(i, j),
    ensures
        i <= j,
    decreases j,
{
    if j != i {
        lemma_subtree_lower(i, (j - 1) / 2);
    }
}

// A parent is not in the subtree of its own child.
proof fn lemma_parent_outside_subtree(c: int, j: int)
    requires
        0 <= j,
        0 <= c,
        j < c,
    ensures
        !in_subtree(c, j),
{
    if in_subtree(c, j) {
        lemma_subtree_lower(c, j);
    }
}

// In a heap window the root is the greatest element.
proof fn lemma_heap_root_max(s: Seq<i64>, size: int, j: int)
    requires
        heap_ordered(s, size, 0),
        0 <= j < size <= s.len(),
    ensures
        s[j] <= s[0],
    decreases j,
{
    if j > 0 {
        let p = (j - 1) / 2;
        assert(0 <= p < j);
        assert(s[p] >= s[j]);
        lemma_heap_root_max(s, size, p);
    }
}

fn lhs_index(index: usize) -> (r: usize)
    requires
        index < usize::MAX / 2,
    ensures
        r == 2 * index + 1,
{
    2 * index + 1
}

fn rhs_index(index: usize) -> (r: usize)
    requires
        index < usize::MAX / 2,
    ensures
        r == 2 * index + 2,
{
    2 * index + 2
}


// One step of the sift-down argument: `target` is the largest child of
// `index`, `s1` is `s0` with `index` and `target` swapped, and `s2` comes out
// of repairing the subtree at `target` in `s1`. Then the heap ordering holds
// from `index` on in `s2`, and only the subtree of `index` changed.
proof fn lemma_sift_step(s0: Seq<i64>, s1: Seq<i64>, s2: Seq<i64>, ts: int, index: int, target: int)
    requires
        0 <= index < ts <= s0.len(),
        target == 2 * index + 1 || target == 2 * index + 2,
        target < ts,
        s1.len() == s0.len(),
        s2.len() == s0.len(),
        heap_ordered(s0, ts, index + 1),
        s1 == s0.update(index, s0[target]).update(target, s0[index]),
        s0[index] < s0[target],
        2 * index + 1 < ts ==> s0[target] >= s0[2 * index + 1],
        2 * index + 2 < ts ==> s0[target] >= s0[2 * index + 2],
        heap_ordered(s2, ts, target),
        forall|k: int| 0 <= k < s1.len() && !(in_subtree(target, k) && k < ts) ==> s2[k] == s1[k],
        s2[target] == s1[target] || (2 * target + 1 < ts && s2[target] == s1[2 * target + 1]) || (2
            * target + 2 < ts && s2[target] == s1[2 * target + 2]),
    ensures
        heap_ordered(s2, ts, index),
        forall|k: int| 0 <= k < s0.len() && !(in_subtree(index, k) && k < ts) ==> s2[k] == s0[k],
        s2[index] == s0[target],
        s2[index] >= s0[index],
{
    assert(in_subtree(index, index));
    assert((target - 1) / 2 == index);
    assert(in_subtree(index, target));
    lemma_parent_outside_subtree(target, index);
    assert(s2[index] == s1[index] && s1[index] == s0[target]);

    // Frame: everything outside the subtree of `index` (within the window)
    // keeps its original value.
    assert forall|k: int|
        0 <= k < s0.len() && !(in_subtree(index, k) && k < ts) implies s2[k] == s0[k] by {
        if in_subtree(target, k) && k < ts {
            lemma_subtree_trans(index, target, k);
        } else {
            assert(s2[k] == s1[k]);
            if k != index && k != target {
                assert(s1[k] == s0[k]);
            }
        }
    };

    // The repaired subtree root is bounded by the promoted value.
    assert(s2[target] <= s0[target]) by {
        if s2[target] == s1[target] {
            assert(s1[target] == s0[index]);
        } else if 2 * target + 1 < ts && s2[target] == s1[2 * target + 1] {
            assert(s1[2 * target + 1] == s0[2 * target + 1]);
            assert(s0[target] >= s0[2 * target + 1]);
        } else {
            assert(s1[2 * target + 2] == s0[2 * target + 2]);
            assert(s0[target] >= s0[2 * target + 2]);
        }
    };

    assert forall|c: int|
        0 < c < ts && index <= (c - 1) / 2 implies s2[(c - 1) / 2] >= #[trigger] s2[c] by {
        let p = (c - 1) / 2;
        assert(c == 2 * p + 1 || c == 2 * p + 2);
        if p >= target {
            assert(s2[p] >= s2[c]);
        } else if p > index {
            // A parent strictly between index and target: it and its child
            // lie outside the subtree of target, so both kept their values.
            lemma_parent_outside_subtree(target, p);
            assert(s2[p] == s1[p] && s1[p] == s0[p]);
            assert(c != target);
            if in_subtree(target, c) {
                assert(in_subtree(target, (c - 1) / 2));
                lemma_subtree_lower(target, p);
            }
            assert(s2[c] == s1[c] && s1[c] == s0[c]);
            assert(s0[p] >= s0[c]);
        } else {
            // p == index: the child is either target or its sibling.
            assert(s2[index] == s0[target]);
            if c == target {
                assert(s2[c] <= s0[target]);
            } else {
                assert(s2[c] == s0[c]) by {
                    if in_subtree(target, c) {
                        assert(in_subtree(target, (c - 1) / 2));
                        lemma_subtree_lower(target, index);
                    }
                    assert(s2[c] == s1[c]);
                };
                assert(s0[c] <= s0[target]);
            }
        }
    };
    assert(heap_ordered(s2, ts, index));
}

pub struct Heap {
    data: Vec<i64>,
    tree_size: usize,
}

impl Heap {
    /// The stored elements, heap window first.
    pub closed spec fn view(&self) -> Seq<i64> {
        self.data@
    }

    /// The number of elements in the heap window at the front of the vector.
    pub closed spec fn heap_size(self) -> int {
        self.tree_size as int
    }

    /// The window fits in the vector, and the vector is small enough that
    /// child indices cannot overflow.
    pub closed spec fn wf(self) -> bool {
        self.tree_size <= self.data@.len() && self.data@.len() < usize::MAX / 2
    }

    /// Builds a max-heap from the given data.
    pub fn new(data: Vec<i64>) -> (h: Self)
        requires
            data@.len() < usize::MAX / 2,
        ensures
            h.wf(),
            h@.to_multiset() == data@.to_multiset(),
            h@.len() == data@.len(),
            h.heap_size() == h@.len(),
            heap_ordered(h@, h.heap_size(), 0),
    {
        let tree_size = data.len();
        let mut heap = Self { data, tree_size };

        heap.reshape();
        heap
    }

    /// Reports whether the index falls inside the heap window.
    pub fn is_valid_index(&self, index: usize) -> (r: bool)
        ensures
            r == (index < self.heap_size()),
    {
        index < self.tree_size
    }

    /// Returns the element at the index, or `None` when the index falls
    /// outside the heap window.
    pub fn get(&self, index: usize) -> (r: Option<&i64>)
        requires
            self.wf(),
        ensures
            match r {
                Some(v) => index < self.heap_size() && *v == self@[index as int],
                None => index >= self.heap_size(),
            },
    {
        if self.is_valid_index(index) {
            Some(&self.data[index])
        } else {
            None
        }
    }

    /// The index of the last element of the heap window.
    pub fn get_tail_index(&self) -> (r: usize)
        requires
            self.heap_size() >= 1,
        ensures
            r == self.heap_size() - 1,
    {
        self.tree_size - 1
    }

    /// Swaps the root with the last element of the heap window and shrinks
    /// the window by one, leaving the extracted maximum just past the window.
    pub fn swap_root_and_tail(&mut self)
        requires
            old(self).wf(),
            old(self).heap_size() >= 1,
        ensures
            final(self).wf(),
            final(self).heap_size() == old(self).heap_size() - 1,
            final(self)@ == old(self)@.update(old(self).heap_size() - 1, old(self)@[0]).update(
                0,
                old(self)@[old(self).heap_size() - 1],
            ),
            final(self)@.to_multiset() == old(self)@.to_multiset(),
            heap_ordered(old(self)@, old(self).heap_size(), 0) ==> heap_ordered(
                final(self)@,
                final(self).heap_size(),
                1,
            ),
    {
        let tail_index = self.get_tail_index();
        let a = self.data[0];
        let b = self.data[tail_index];
        let ghost s0 = self.data@;
        self.data[tail_index] = a;
        self.data[0] = b;
        self.tree_size -= 1;
        proof {
            broadcast use vstd::multiset::group_multiset_axioms;

            to_multiset_update(s0, tail_index as int, a);
            to_multiset_update(s0.update(tail_index as int, a), 0, b);
            if tail_index == 0 {
                assert(self.data@ =~= s0.update(0, b).update(0, b));
                assert(self.data@ =~= s0);
            }
            assert(s0.contains(b)) by {
                assert(s0[tail_index as int] == b);
            }
            to_multiset_contains(s0, b);
            assert(self.data@.to_multiset() =~= s0.to_multiset());
        }
    }

    /// Restores the heap ordering at `index`, assuming it already holds for
    /// every deeper parent: sifts the value down, swapping it with its
    /// largest child until neither child is larger. Only the subtree of
    /// `index`, within the heap window, is touched.
    #[verifier::rlimit(100)]
    pub fn fix_root(&mut self, index: usize)
        requires
            old(self).wf(),
            index < old(self).heap_size(),
            heap_ordered(old(self)@, old(self).heap_size(), index + 1),
        ensures
            final(self).wf(),
            final(self).heap_size() == old(self).heap_size(),
            final(self)@.len() == old(self)@.len(),
            final(self)@.to_multiset() == old(self)@.to_multiset(),
            forall|k: int|
                0 <= k < old(self)@.len() && !(in_subtree(index as int, k) && k < old(
                    self,
                ).heap_size()) ==> final(self)@[k] == old(self)@[k],
            heap_ordered(final(self)@, final(self).heap_size(), index as int),
            final(self)@[index as int] >= old(self)@[index as int],
            ({
                let ts = old(self).heap_size();
                let s0 = old(self)@;
                let s1 = final(self)@;
                s1[index as int] == s0[index as int] || (2 * index + 1 < ts && s1[index as int]
                    == s0[2 * index + 1]) || (2 * index + 2 < ts && s1[index as int] == s0[2 * index
                    + 2])
            }),
        decreases old(self).heap_size() - index,
    {
        let li = lhs_index(index);
        let ri = rhs_index(index);
        let ghost s0 = self.data@;
        let ghost ts = self.heap_size();

        // Pick the child to promote, if any child is larger than the root.
        let target: usize = if self.is_valid_index(ri) {
            // Both children are inside the window.
            let root_value = self.data[index];
            let lvalue = self.data[li];
            let rvalue = self.data[ri];
            if root_value < lvalue && rvalue < lvalue {
                li
            } else if root_value < rvalue {
                ri
            } else {
                index
            }
        } else if self.is_valid_index(li) {
            let root_value = self.data[index];
            let lvalue = self.data[li];
            if root_value < lvalue {
                li
            } else {
                index
            }
        } else {
            index
        };

        if target != index {
            let a = self.data[index];
            let b = self.data[target];
            self.data[index] = b;
            self.data[target] = a;
            proof {
                broadcast use vstd::multiset::group_multiset_axioms;

                to_multiset_update(s0, index as int, b);
                to_multiset_update(s0.update(index as int, b), target as int, a);
                assert(s0.contains(a)) by {
                    assert(s0[index as int] == a);
                }
                to_multiset_contains(s0, a);
                assert(self.data@.to_multiset() =~= s0.to_multiset());
                assert(self.data@ =~= s0.update(index as int, b).update(target as int, a));
                assert(heap_ordered(self.data@, ts, target + 1)) by {
                    assert(forall|k: int|
                        0 <= k < s0.len() && k != index && k != target ==> self.data@[k] == s0[
                        k]);
                };
            }
            let ghost s1 = self.data@;
            self.fix_root(target);
            proof {
                lemma_sift_step(s0, s1, self.data@, ts, index as int, target as int);
            }
        } else {
            proof {
                assert(heap_ordered(self.data@, ts, index as int));
            }
        }
    }

    // Establishes the heap ordering over the whole window, fixing subtree
    // roots from the deepest towards the front.
    fn reshape(&mut self)
        requires
            old(self).wf(),
        ensures
            final(self).wf(),
            final(self).heap_size() == old(self).heap_size(),
            final(self)@.len() == old(self)@.len(),
            final(self)@.to_multiset() == old(self)@.to_multiset(),
            heap_ordered(final(self)@, final(self).heap_size(), 0),
    {
        let ghost ts = self.heap_size();
        let mut i: usize = self.tree_size;
        while i > 0
            invariant
                i <= old(self).tree_size,
                self.wf(),
                self.heap_size() == old(self).heap_size(),
                self@.len() == old(self)@.len(),
                self@.to_multiset() == old(self)@.to_multiset(),
                heap_ordered(self@, self.heap_size(), i as int),
            decreases i,
        {
            i -= 1;
            self.fix_root(i);
        }
    }

    /// Sorts the heap's elements: repeatedly moves the maximum of the window
    /// past its end and repairs the heap, until the window is trivial.
    pub fn sort(self) -> (out: Vec<i64>)
        requires
            self.wf(),
            self.heap_size() == self@.len(),
            heap_ordered(self@, self.heap_size(), 0),
        ensures
            sorted(out@),
            out@.to_multiset() == self@.to_multiset(),
    {
        let ghost n = self@.len() as int;
        let mut heap = self;
        while heap.tree_size > 1
            invariant
                heap.wf(),
                heap@.len() == n,
                1 <= heap.heap_size() || n == 0,
                heap.heap_size() <= n,
                heap@.to_multiset() == self@.to_multiset(),
                heap_ordered(heap@, heap.heap_size(), 0),
                sorted(heap@.subrange(heap.heap_size(), n)),
                forall|j: int, k: int|
                    #![trigger heap@[j], heap@[k]]
                    0 <= j < heap.heap_size() && heap.heap_size() <= k < n ==> heap@[j] <= heap@[k],
            decreases heap.tree_size,
        {
            let ghost s0 = heap@;
            let ghost ts0 = heap.heap_size();
            heap.swap_root_and_tail();
            let ghost s1 = heap@;
            heap.fix_root(0);
            proof {
                lemma_extract_step(s0, s1, heap@, ts0, n);
            }
        }
        proof {
            let s = heap@;
            let ts = heap.heap_size();
            assert forall|p: int, q: int| 0 <= p <= q < n implies s[p] <= s[q] by {
                if p == q {
                } else if p >= ts {
                    assert(s.subrange(ts, n)[p - ts] <= s.subrange(ts, n)[q - ts]);
                } else {
                    assert(s[p] <= s[q]);
                }
            };
            assert(sorted(heap@));
        }
        heap.data
    }
}

// One round of extraction: `s1` is the heap window of `s0` with its root
// swapped to the window's last position and the window shrunk by one, and
// `s2` repairs the heap ordering of the new window without touching anything
// beyond it. Then the tail from the new window's end on is sorted and still
// dominates the window.
proof fn lemma_extract_step(s0: Seq<i64>, s1: Seq<i64>, s2: Seq<i64>, ts0: int, n: int)
    requires
        1 <= ts0 <= n == s0.len(),
        s1.len() == n,
        s2.len() == n,
        heap_ordered(s0, ts0, 0),
        sorted(s0.subrange(ts0, n)),
        forall|j: int, k: int|
            #![trigger s0[j], s0[k]]
            0 <= j < ts0 && ts0 <= k < n ==> s0[j] <= s0[k],
        s1 == s0.update(ts0 - 1, s0[0]).update(0, s0[ts0 - 1]),
        s1.to_multiset() == s0.to_multiset(),
        s2.to_multiset() == s1.to_multiset(),
        forall|k: int| 0 <= k < n && !(in_subtree(0, k) && k < ts0 - 1) ==> s2[k] == s1[k],
    ensures
        sorted(s2.subrange(ts0 - 1, n)),
        forall|j: int, k: int|
            #![trigger s2[j], s2[k]]
            0 <= j < ts0 - 1 && ts0 - 1 <= k < n ==> s2[j] <= s2[k],
{
    broadcast use vstd::multiset::group_multiset_axioms;

    let ts1 = ts0 - 1;
    assert forall|j: int| 0 <= j < ts0 implies #[trigger] s0[j] <= s0[0] by {
        lemma_heap_root_max(s0, ts0, j);
    };
    assert forall|k: int| ts1 <= k < n implies #[trigger] s2[k] == s1[k] by {
        assert(!(in_subtree(0, k) && k < ts1));
    };
    assert(s2[ts1] == s1[ts1] && s1[ts1] == s0[0]);

    // The new window holds the same elements as the old one less the
    // extracted maximum, as a multiset.
    let w1 = s1.subrange(0, ts1);
    let w2 = s2.subrange(0, ts1);
    let t1 = s1.subrange(ts1, n);
    let t2 = s2.subrange(ts1, n);
    assert(t1 =~= t2);
    assert(s1 =~= w1 + t1);
    assert(s2 =~= w2 + t2);
    lemma_multiset_commutative(w1, t1);
    lemma_multiset_commutative(w2, t2);
    assert(w1.to_multiset().add(t1.to_multiset()) == w2.to_multiset().add(t1.to_multiset()));
    assert forall|x: i64| true implies w1.to_multiset().count(x) == w2.to_multiset().count(
        x,
    ) by {
        assert(w1.to_multiset().add(t1.to_multiset()).count(x) == w2.to_multiset().add(
            t1.to_multiset(),
        ).count(x));
    };
    assert(w1.to_multiset() =~= w2.to_multiset());

    // Every element of the repaired window is bounded by the extracted
    // maximum, because it already appeared in the swapped window.
    assert forall|j: int| 0 <= j < ts1 implies #[trigger] s2[j] <= s0[0] by {
        assert(w2[j] == s2[j]);
        to_multiset_contains(w2, w2[j]);
        assert(w1.to_multiset().count(w2[j]) > 0);
        to_multiset_contains(w1, w2[j]);
        let i0 = choose|i0: int| 0 <= i0 < w1.len() && w1[i0] == w2[j];
        assert(s1[i0] == w1[i0]);
        if i0 == 0 {
            assert(s1[0] == s0[ts1]);
        } else {
            assert(s1[i0] == s0[i0]);
        }
    };

    assert forall|j: int, k: int|
        #![trigger s2[j], s2[k]]
        0 <= j < ts1 && ts1 <= k < n implies s2[j] <= s2[k] by {
        assert(s2[j] <= s0[0]);
        if k == ts1 {
            assert(s2[k] == s0[0]);
        } else {
            assert(s2[k] == s1[k] && s1[k] == s0[k]);
            assert(s0[0] <= s0[k]);
        }
    };

    assert forall|j: int, k: int|
        #![trigger t2[j], t2[k]]
        0 <= j <= k < t2.len() implies t2[j] <= t2[k] by {
        let tj = ts1 + j;
        let tk = ts1 + k;
        assert(t2[j] == s2[tj] && t2[k] == s2[tk]);
        if j == 0 && k > 0 {
            assert(s2[tj] == s0[0]);
            assert(s2[tk] == s0[tk]);
            assert(s0[0] <= s0[tk]);
        } else if j > 0 {
            assert(s2[tj] == s0[tj] && s2[tk] == s0[tk]);
            assert(s0.subrange(ts0, n)[tj - ts0] <= s0.subrange(ts0, n)[tk - ts0]);
        }
    };
    assert(sorted(t2));
}

} // verus!
