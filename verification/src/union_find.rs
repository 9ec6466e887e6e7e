//! A union-find (disjoint-set) structure over the indices `0 .. size`.
//!
//! Each element points at a parent; an element that points at itself is the
//! root, and so the representative, of its set. `root` follows parent links
//! and compresses the path behind it. The view of the structure is the
//! sequence assigning every element its representative, so `same(x, y)`
//! returns whether `x` and `y` have equal entries in the view, and `unite`
//! rewrites every entry equal to `x`'s representative into `y`'s.
//!
//! Two ghost components support verification: `rep`, the representative of
//! each element, and `dist`, a measure that strictly increases along parent
//! links and is bounded by `bound`, which makes every parent chain finite.

use vstd::prelude::*;

verus! {

pub struct UnionFind {
    parent_indexs: Vec<usize>,
    rep: Ghost<Seq<usize>>,
    dist: Ghost<Seq<nat>>,
    bound: Ghost<nat>,
}

impl UnionFind {
    /// The number of elements.
    pub closed spec fn len(self) -> nat {
        self.parent_indexs@.len()
    }

    /// The representative of each element.
    pub closed spec fn view(&self) -> Seq<usize> {
        self.rep@
    }

    /// The structure's invariant: parents and representatives stay in range,
    /// a root is its own representative, representatives are constant along
    /// parent links and are themselves roots, and the `dist` measure strictly
    /// increases along parent links while staying below `bound`.
    pub closed spec fn wf(self) -> bool {
        let n = self.parent_indexs@.len() as int;
        &&& self.rep@.len() == n
        &&& self.dist@.len() == n
        &&& forall|i: int| 0 <= i < n ==> (#[trigger] self.parent_indexs@[i]) < n
        &&& forall|i: int| 0 <= i < n ==> (#[trigger] self.rep@[i]) < n
        &&& forall|i: int|
            0 <= i < n && self.parent_indexs@[i] == i ==> (#[trigger] self.rep@[i]) == i
        &&& forall|i: int|
            #![trigger self.parent_indexs@[i]]
            0 <= i < n ==> self.rep@[self.parent_indexs@[i] as int] == self.rep@[i]
        &&& forall|i: int|
            #![trigger self.rep@[i]]
            0 <= i < n ==> self.parent_indexs@[self.rep@[i] as int] == self.rep@[i]
        &&& forall|i: int|
            #![trigger self.parent_indexs@[i]]
            0 <= i < n && self.parent_indexs@[i] != i ==> self.dist@[self.parent_indexs@[i] as int]
                > self.dist@[i]
        &&& forall|i: int| 0 <= i < n ==> (#[trigger] self.dist@[i]) < self.bound@
    }

    /// Creates a structure in which every element is alone in its own set.
    pub fn new(size: usize) -> (t: Self)
        ensures
            t.wf(),
            t.len() == size,
            t@ == Seq::new(size as nat, |i: int| i as usize),
    {
        let mut parent_indexs: Vec<usize> = vec![0; size];
        let mut i: usize = 0;
        while i < size
            invariant
                i <= size,
                parent_indexs@.len() == size,
                forall|k: int| 0 <= k < i ==> #[trigger] parent_indexs@[k] == k,
            decreases size - i,
        {
            parent_indexs[i] = i;
            i += 1;
        }
        let t = Self {
            parent_indexs,
            rep: Ghost(Seq::new(size as nat, |i: int| i as usize)),
            dist: Ghost(Seq::new(size as nat, |i: int| 0nat)),
            bound: Ghost(1nat),
        };
        t
    }

    /// The representative of `x`: the root reached by following parent links.
    /// Compresses the path: every link followed is redirected to the root.
    fn root(&mut self, x: usize) -> (r: usize)
        requires
            old(self).wf(),
            x < old(self).len(),
        ensures
            final(self).wf(),
            final(self).len() == old(self).len(),
            final(self)@ == old(self)@,
            final(self).dist@ == old(self).dist@,
            final(self).bound@ == old(self).bound@,
            r == old(self)@[x as int],
            final(self).dist@[r as int] >= old(self).dist@[x as int],
        decreases old(self).bound@ - old(self).dist@[x as int],
    {
        let p = self.parent_indexs[x];
        if p == x {
            x
        } else {
            let r = self.root(p);
            self.parent_indexs[x] = r;
            proof {
                assert(self.rep@[r as int] == self.rep@[x as int]) by {
                    assert(self.rep@[p as int] == self.rep@[x as int]);
                    assert(r == self.rep@[p as int]);
                    assert(self.parent_indexs@[r as int] == r);
                }
                assert(r != x) by {
                    if r == x {
                        assert(self.parent_indexs@[x as int] == x);
                    }
                }
                assert(self.dist@[r as int] > self.dist@[x as int]);
            }
            r
        }
    }

    /// Joins the sets of `x` and `y`: afterwards every element whose
    /// representative was `x`'s has `y`'s old representative instead.
    pub fn unite(&mut self, x: usize, y: usize)
        requires
            old(self).wf(),
            x < old(self).len(),
            y < old(self).len(),
        ensures
            final(self).wf(),
            final(self).len() == old(self).len(),
            final(self)@ == Seq::new(
                old(self).len(),
                |i: int|
                    if old(self)@[i] == old(self)@[x as int] {
                        old(self)@[y as int]
                    } else {
                        old(self)@[i]
                    },
            ),
    {
        let ghost n = self.len() as int;
        let rx = self.root(x);
        let ry = self.root(y);

        if rx != ry {
            let ghost parent0 = self.parent_indexs@;
            let ghost rep0 = self.rep@;
            let ghost dist0 = self.dist@;
            let ghost bound0 = self.bound@;
            self.parent_indexs[rx] = ry;
            self.rep = Ghost(
                Seq::new(n as nat, |i: int| if rep0[i] == rx { ry } else { rep0[i] }),
            );
            self.dist = Ghost(dist0.update(ry as int, bound0));
            self.bound = Ghost(bound0 + 1);
            proof {
                assert(rep0[rx as int] == rx && rep0[ry as int] == ry);
                assert(parent0[rx as int] == rx && parent0[ry as int] == ry);
                lemma_unite_preserves_wf(
                    parent0,
                    self.parent_indexs@,
                    rep0,
                    self.rep@,
                    dist0,
                    self.dist@,
                    bound0,
                    rx,
                    ry,
                );
                assert(self.wf());
                assert(self@ =~= Seq::new(
                    old(self).len(),
                    |i: int|
                        if old(self)@[i] == old(self)@[x as int] {
                            old(self)@[y as int]
                        } else {
                            old(self)@[i]
                        },
                ));
            }
        } else {
            proof {
                assert(self@ =~= Seq::new(
                    old(self).len(),
                    |i: int|
                        if old(self)@[i] == old(self)@[x as int] {
                            old(self)@[y as int]
                        } else {
                            old(self)@[i]
                        },
                ));
            }
        }
    }


    /// Reports whether `x` and `y` lie in the same set: their representatives
    /// are equal. (Path compression may rearrange parent links, but the sets
    /// are unchanged.)
    pub fn same(&mut self, x: usize, y: usize) -> (r: bool)
        requires
            old(self).wf(),
            x < old(self).len(),
            y < old(self).len(),
        ensures
            final(self).wf(),
            final(self).len() == old(self).len(),
            final(self)@ == old(self)@,
            r == (old(self)@[x as int] == old(self)@[y as int]),
    {
        let rx = self.root(x);
        let ry = self.root(y);

        rx == ry
    }
}


// Linking the root `rx` under the root `ry` and rewriting every
// representative `rx` into `ry` preserves the structure's invariant, with
// `ry` given a fresh largest measure.
proof fn lemma_unite_preserves_wf(
    parent0: Seq<usize>,
    parent1: Seq<usize>,
    rep0: Seq<usize>,
    rep1: Seq<usize>,
    dist0: Seq<nat>,
    dist1: Seq<nat>,
    bound0: nat,
    rx: usize,
    ry: usize,
)
    requires
        rep0.len() == parent0.len(),
        dist0.len() == parent0.len(),
        forall|i: int| 0 <= i < parent0.len() ==> (#[trigger] parent0[i]) < parent0.len(),
        forall|i: int| 0 <= i < parent0.len() ==> (#[trigger] rep0[i]) < parent0.len(),
        forall|i: int| 0 <= i < parent0.len() && parent0[i] == i ==> (#[trigger] rep0[i]) == i,
        forall|i: int|
            #![trigger parent0[i]]
            0 <= i < parent0.len() ==> rep0[parent0[i] as int] == rep0[i],
        forall|i: int|
            #![trigger rep0[i]]
            0 <= i < parent0.len() ==> parent0[rep0[i] as int] == rep0[i],
        forall|i: int|
            #![trigger parent0[i]]
            0 <= i < parent0.len() && parent0[i] != i ==> dist0[parent0[i] as int] > dist0[i],
        forall|i: int| 0 <= i < parent0.len() ==> (#[trigger] dist0[i]) < bound0,
        rx < parent0.len(),
        ry < parent0.len(),
        rx != ry,
        parent0[rx as int] == rx,
        parent0[ry as int] == ry,
        rep0[rx as int] == rx,
        rep0[ry as int] == ry,
        parent1 == parent0.update(rx as int, ry),
        rep1.len() == parent0.len(),
        forall|i: int|
            0 <= i < parent0.len() ==> (#[trigger] rep1[i]) == if rep0[i] == rx {
                ry
            } else {
                rep0[i]
            },
        dist1 == dist0.update(ry as int, bound0),
    ensures
        forall|i: int| 0 <= i < parent1.len() ==> (#[trigger] parent1[i]) < parent1.len(),
        forall|i: int| 0 <= i < parent1.len() ==> (#[trigger] rep1[i]) < parent1.len(),
        forall|i: int| 0 <= i < parent1.len() && parent1[i] == i ==> (#[trigger] rep1[i]) == i,
        forall|i: int|
            #![trigger parent1[i]]
            0 <= i < parent1.len() ==> rep1[parent1[i] as int] == rep1[i],
        forall|i: int|
            #![trigger rep1[i]]
            0 <= i < parent1.len() ==> parent1[rep1[i] as int] == rep1[i],
        forall|i: int|
            #![trigger parent1[i]]
            0 <= i < parent1.len() && parent1[i] != i ==> dist1[parent1[i] as int] > dist1[i],
        forall|i: int| 0 <= i < parent1.len() ==> (#[trigger] dist1[i]) < bound0 + 1,
{
    let n = parent0.len() as int;
    assert forall|i: int| 0 <= i < n implies rep1[#[trigger] parent1[i] as int] == rep1[i] by {
        if i == rx {
            assert(rep1[ry as int] == ry && rep1[rx as int] == ry);
        } else {
            assert(parent1[i] == parent0[i]);
            assert(rep0[parent0[i] as int] == rep0[i]);
        }
    };
    assert forall|i: int| 0 <= i < n implies parent1[#[trigger] rep1[i] as int] == rep1[i] by {
        if rep0[i] == rx {
            assert(rep1[i] == ry);
            assert(parent1[ry as int] == ry);
        } else {
            assert(rep1[i] == rep0[i]);
            assert(parent0[rep0[i] as int] == rep0[i]);
            assert(rep0[i] != rx);
        }
    };
    assert forall|i: int|
        0 <= i < n && parent1[i] != i implies dist1[#[trigger] parent1[i] as int] > dist1[i] by {
        if i == rx {
            assert(parent1[i] == ry);
            assert(dist1[ry as int] == bound0);
            assert(dist1[rx as int] == dist0[rx as int]);
        } else {
            assert(parent1[i] == parent0[i]);
            assert(i != ry);
            assert(dist1[i] == dist0[i]);
            assert(dist0[parent0[i] as int] > dist0[i]);
            if parent0[i] == ry {
                assert(dist1[ry as int] == bound0);
            } else {
                assert(dist1[parent0[i] as int] == dist0[parent0[i] as int]);
            }
        }
    };
}

} // verus!
