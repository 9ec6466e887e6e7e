//! An AVL tree: a self-balancing binary search tree over unique keys.
//!
//! Every node owns its two child slots (`NodeOption` values), the key of a
//! node is greater than every key in its left subtree and smaller than every
//! key in its right subtree, and the heights of the two subtrees of any node
//! differ by at most one. Both invariants are captured by `wf` and are proved
//! to hold after every operation.
//!
//! The view of a tree is the set of its keys. Rebalancing happens bottom-up:
//! after a structural change, every slot on the path back to the root is
//! rebalanced with at most one single or double rotation.
//!
//! Deleting a node with two children swaps the greatest key of its left
//! subtree (the in-order predecessor) into the node and then deletes the
//! original key from that subtree, where it now sits in a node with at most
//! one child.

use vstd::arithmetic::power2::lemma2_to64;
use vstd::arithmetic::power2::lemma_pow2_adds;
use vstd::arithmetic::power2::lemma_pow2_strictly_increases;
use vstd::arithmetic::power2::pow2;
use vstd::math::max;
use vstd::prelude::*;

verus! {

pub struct AVL {
    root: NodeOption,
}

struct NodeOption {
    node_opt: Option<Node>,
}

struct Node {
    value: i64,
    lhs: Box<NodeOption>,
    rhs: Box<NodeOption>,
}

impl Node {
    spec fn keys(self) -> Set<i64>
        decreases self,
    {
        (*self.lhs).keys().union((*self.rhs).keys()).insert(self.value)
    }

    spec fn height(self) -> nat
        decreases self,
    {
        1 + max((*self.lhs).height() as int, (*self.rhs).height() as int) as nat
    }

    /// The balance factor: height of the right subtree minus height of the
    /// left subtree.
    spec fn bal(self) -> int {
        (*self.rhs).height() - (*self.lhs).height()
    }

    /// The binary-search-tree ordering at this node alone.
    spec fn ordered(self) -> bool {
        &&& (forall|k: i64| (*self.lhs).keys().contains(k) ==> k < self.value)
        &&& (forall|k: i64| (*self.rhs).keys().contains(k) ==> k > self.value)
    }

    /// BST ordering and AVL balance, at this node and below.
    spec fn wf(self) -> bool
        decreases self,
    {
        &&& self.ordered()
        &&& (*self.lhs).wf()
        &&& (*self.rhs).wf()
        &&& -1 <= self.bal() <= 1
    }

    fn new(value: i64) -> (n: Self)
        ensures
            n.value == value,
            (*n.lhs).node_opt is None,
            (*n.rhs).node_opt is None,
            n.keys() == Set::empty().insert(value),
            n.height() == 1,
            n.wf(),
    {
        let n = Self { value, lhs: Box::new(NodeOption::new()), rhs: Box::new(NodeOption::new()) };
        proof {
            assert(n.keys() =~= Set::empty().insert(value));
        }
        n
    }

    // Returns the difference of the children's heights: positive when the
    // right child is taller, negative when the left child is taller.
    /// Swaps `x` into the node holding the greatest key of this subtree and
    /// returns that key. Only that one key changes; the shape of the subtree
    /// stays as it was.
    fn swap_with_max(&mut self, x: i64) -> (m: i64)
        requires
            old(self).wf(),
            forall|k: i64| old(self).keys().contains(k) ==> k < x,
        ensures
            final(self).wf(),
            old(self).keys().contains(m),
            forall|k: i64| old(self).keys().contains(k) ==> k <= m,
            final(self).keys() =~= old(self).keys().remove(m).insert(x),
            final(self).height() == old(self).height(),
            *final(self).lhs == *old(self).lhs,
        decreases *old(self),
    {
        proof {
            assert(old(self).keys() == (*old(self).lhs).keys().union((*old(self).rhs).keys())
                .insert(old(self).value));
            assert(old(self).keys().contains(old(self).value));
        }
        match (&mut *self.rhs).take() {
            Some(mut rhs_node) => {
                proof {
                    assert(rhs_node == (*old(self).rhs).node_opt.unwrap());
                    assert(rhs_node.keys() == (*old(self).rhs).keys());
                    assert(rhs_node.wf());
                    assert forall|k: i64| rhs_node.keys().contains(k) implies k < x by {
                        assert((*old(self).rhs).keys().contains(k));
                        assert(old(self).keys().contains(k));
                    };
                }
                let m = rhs_node.swap_with_max(x);
                (&mut *self.rhs).set(rhs_node);
                proof {
                    assert((*self.rhs).keys() =~= (*old(self).rhs).keys().remove(m).insert(x));
                    assert((*self.rhs).height() == (*old(self).rhs).height());
                    assert((*old(self).rhs).keys().contains(m));
                    assert(m > old(self).value);
                    assert forall|k: i64| old(self).keys().contains(k) implies k <= m by {
                        if (*old(self).lhs).keys().contains(k) {
                            assert(k < old(self).value);
                        }
                    };
                    assert forall|k: i64|
                        self.keys().contains(k) == old(self).keys().remove(m).insert(x).contains(
                            k,
                        ) by {
                        assert(self.keys().contains(k) == ((*self.lhs).keys().contains(k) || (
                        *self.rhs).keys().contains(k) || k == self.value));
                        if (*old(self).lhs).keys().contains(k) {
                            assert(k < old(self).value);
                        }
                    };
                    assert(self.keys() =~= old(self).keys().remove(m).insert(x));
                    assert(self.ordered());
                    assert(self.wf());
                }
                m
            }
            None => {
                let m: i64 = self.value;
                self.value = x;
                proof {
                    assert((*old(self).rhs).keys() =~= Set::<i64>::empty());
                    assert(old(self).keys() =~= (*old(self).lhs).keys().insert(m));
                    assert(!(*old(self).lhs).keys().contains(m));
                    assert forall|k: i64| (*self.lhs).keys().contains(k) implies k
                        < self.value by {
                        assert((*old(self).lhs).keys().contains(k));
                        assert(old(self).keys().contains(k));
                    };
                    assert(self.keys() =~= old(self).keys().remove(m).insert(x));
                    assert(self.ordered());
                    assert(self.wf());
                }
                m
            }
        }
    }

    fn get_balance(&self) -> (r: i32)
        requires
            self.height() <= 0x7fff_ffff,
        ensures
            r as int == self.bal(),
    {
        let lh = self.lhs.get_height();
        let rh = self.rhs.get_height();
        rh - lh
    }
}

impl NodeOption {
    spec fn keys(self) -> Set<i64>
        decreases self,
    {
        match self.node_opt {
            None => Set::empty(),
            Some(node) => node.keys(),
        }
    }

    spec fn height(self) -> nat
        decreases self,
    {
        match self.node_opt {
            None => 0,
            Some(node) => node.height(),
        }
    }

    spec fn wf(self) -> bool
        decreases self,
    {
        match self.node_opt {
            None => true,
            Some(node) => node.wf(),
        }
    }

    spec fn in_order(self) -> Seq<i64>
        decreases self,
    {
        match self.node_opt {
            None => Seq::empty(),
            Some(node) => (*node.lhs).in_order() + seq![node.value] + (*node.rhs).in_order(),
        }
    }

    fn new() -> (s: Self)
        ensures
            s.node_opt is None,
            s.keys() == Set::<i64>::empty(),
            s.height() == 0,
            s.wf(),
    {
        let s = Self { node_opt: None };
        proof {
            assert(s.keys() =~= Set::<i64>::empty());
        }
        s
    }

    fn from_node(node: Node) -> (s: Self)
        ensures
            s.node_opt == Some(node),
    {
        Self { node_opt: Some(node) }
    }

    fn as_ref(&self) -> (r: Option<&Node>)
        ensures
            match r {
                Some(n) => self.node_opt == Some(*n),
                None => self.node_opt is None,
            },
    {
        self.node_opt.as_ref()
    }

    fn take(&mut self) -> (r: Option<Node>)
        ensures
            r == old(self).node_opt,
            final(self).node_opt is None,
    {
        self.node_opt.take()
    }

    fn set(&mut self, node: Node)
        ensures
            final(self).node_opt == Some(node),
    {
        self.node_opt = Some(node);
    }

    // Returns the height of the tree in this slot: 0 for an absent node,
    // otherwise one more than the taller child's height.
    fn get_height(&self) -> (r: i32)
        requires
            self.height() <= 0x7fff_ffff,
        ensures
            r as int == self.height() as int,
        decreases *self,
    {
        match &self.node_opt {
            Some(node) => {
                let lh = node.lhs.get_height();
                let rh = node.rhs.get_height();
                if lh > rh {
                    lh + 1
                } else {
                    rh + 1
                }
            }
            None => 0,
        }
    }

    // The slot and the right child of its node are required to be present.
    fn rotate_left(&mut self)
        requires
            old(self).node_opt is Some,
            (*old(self).node_opt.unwrap().rhs).node_opt is Some,
        ensures
            ({
                let n = old(self).node_opt.unwrap();
                let r = (*n.rhs).node_opt.unwrap();
                &&& final(self).node_opt is Some
                &&& ({
                    let s = final(self).node_opt.unwrap();
                    &&& s.value == r.value
                    &&& *s.rhs == *r.rhs
                    &&& (*s.lhs).node_opt is Some
                    &&& ({
                        let sl = (*s.lhs).node_opt.unwrap();
                        &&& sl.value == n.value
                        &&& *sl.lhs == *n.lhs
                        &&& *sl.rhs == *r.lhs
                        &&& sl.height() == 1 + max(
                            (*n.lhs).height() as int,
                            (*r.lhs).height() as int,
                        ) as nat
                    })
                    &&& s.height() == 1 + max(
                        (1 + max((*n.lhs).height() as int, (*r.lhs).height() as int)) as int,
                        (*r.rhs).height() as int,
                    ) as nat
                })
            }),
            final(self).keys() =~= old(self).keys(),
    {
        let mut node = self.take().unwrap();
        let mut rhs = (&mut *node.rhs).take().unwrap();

        match (&mut *rhs.lhs).take() {
            Some(mid) => {
                (&mut *node.rhs).set(mid);
            }
            None => {}
        }
        (&mut *rhs.lhs).set(node);

        *self = NodeOption::from_node(rhs);

        proof {
            let n = old(self).node_opt.unwrap();
            let r = (*n.rhs).node_opt.unwrap();
            let s = self.node_opt.unwrap();
            let sl = (*s.lhs).node_opt.unwrap();
            assert(*sl.rhs == *r.lhs);
            assert(old(self).keys() == n.keys());
            assert(n.keys() == (*n.lhs).keys().union((*n.rhs).keys()).insert(n.value));
            assert((*n.rhs).keys() == r.keys());
            assert(r.keys() == (*r.lhs).keys().union((*r.rhs).keys()).insert(r.value));
            assert(sl.keys() == (*n.lhs).keys().union((*r.lhs).keys()).insert(n.value));
            assert(s.keys() == sl.keys().union((*r.rhs).keys()).insert(r.value));
            assert(self.keys() =~= old(self).keys());
            assert(sl.height() == 1 + max((*n.lhs).height() as int, (*r.lhs).height() as int)
                as nat);
            assert(s.height() == 1 + max(sl.height() as int, (*r.rhs).height() as int) as nat);
        }
    }

    // The slot and the left child of its node are required to be present.
    fn rotate_right(&mut self)
        requires
            old(self).node_opt is Some,
            (*old(self).node_opt.unwrap().lhs).node_opt is Some,
        ensures
            ({
                let n = old(self).node_opt.unwrap();
                let l = (*n.lhs).node_opt.unwrap();
                &&& final(self).node_opt is Some
                &&& ({
                    let s = final(self).node_opt.unwrap();
                    &&& s.value == l.value
                    &&& *s.lhs == *l.lhs
                    &&& (*s.rhs).node_opt is Some
                    &&& ({
                        let sr = (*s.rhs).node_opt.unwrap();
                        &&& sr.value == n.value
                        &&& *sr.rhs == *n.rhs
                        &&& *sr.lhs == *l.rhs
                        &&& sr.height() == 1 + max(
                            (*l.rhs).height() as int,
                            (*n.rhs).height() as int,
                        ) as nat
                    })
                    &&& s.height() == 1 + max(
                        (*l.lhs).height() as int,
                        (1 + max((*l.rhs).height() as int, (*n.rhs).height() as int)) as int,
                    ) as nat
                })
            }),
            final(self).keys() =~= old(self).keys(),
    {
        let mut node = self.take().unwrap();
        let mut lhs = (&mut *node.lhs).take().unwrap();

        match (&mut *lhs.rhs).take() {
            Some(mid) => {
                (&mut *node.lhs).set(mid);
            }
            None => {}
        }
        (&mut *lhs.rhs).set(node);

        *self = NodeOption::from_node(lhs);

        proof {
            let n = old(self).node_opt.unwrap();
            let l = (*n.lhs).node_opt.unwrap();
            let s = self.node_opt.unwrap();
            let sr = (*s.rhs).node_opt.unwrap();
            assert(*sr.lhs == *l.rhs);
            assert(old(self).keys() == n.keys());
            assert(n.keys() == (*n.lhs).keys().union((*n.rhs).keys()).insert(n.value));
            assert((*n.lhs).keys() == l.keys());
            assert(l.keys() == (*l.lhs).keys().union((*l.rhs).keys()).insert(l.value));
            assert(sr.keys() == (*l.rhs).keys().union((*n.rhs).keys()).insert(n.value));
            assert(s.keys() == (*l.lhs).keys().union(sr.keys()).insert(l.value));
            assert(self.keys() =~= old(self).keys());
            assert(sr.height() == 1 + max((*l.rhs).height() as int, (*n.rhs).height() as int)
                as nat);
            assert(s.height() == 1 + max((*l.lhs).height() as int, sr.height() as int) as nat);
        }
    }

    // Restores the AVL balance at this slot after one child has grown or
    // shrunk by one level, with at most one single or double rotation.
    #[verifier::rlimit(100)]
    fn rebalance(&mut self)
        requires
            old(self).node_opt is Some,
            old(self).height() <= 0x7fff_ffff,
            ({
                let n = old(self).node_opt.unwrap();
                &&& n.ordered()
                &&& (*n.lhs).wf()
                &&& (*n.rhs).wf()
                &&& -2 <= n.bal() <= 2
            }),
        ensures
            final(self).wf(),
            final(self).keys() =~= old(self).keys(),
            final(self).height() == old(self).height() || final(self).height() + 1 == old(
                self,
            ).height(),
            (-1 <= old(self).node_opt.unwrap().bal() <= 1) ==> *final(self) == *old(self),
    {
        let mut node = self.take().unwrap();
        let balance = node.get_balance();

        if balance == 2 {
            let ghost n0 = node;
            let ghost lh = (*n0.lhs).height() as int;
            proof {
                assert((*n0.rhs).height() == lh + 2);
                if (*n0.rhs).node_opt is None {
                    assert((*n0.rhs).height() == 0);
                }
                assert((*n0.rhs).node_opt is Some);
            }
            let ghost r0 = (*n0.rhs).node_opt.unwrap();
            let ghost rl = (*r0.lhs).height() as int;
            let ghost rr = (*r0.rhs).height() as int;
            proof {
                assert((*n0.rhs).keys() == r0.keys());
                assert((*n0.rhs).wf() && r0.wf());
                assert(r0.height() == lh + 2);
                assert(max(rl, rr) == lh + 1);
                assert(r0.keys().contains(r0.value));
                assert((*n0.rhs).keys().contains(r0.value));
                assert(n0.value < r0.value);
            }

            let rbal = match (&*node.rhs).as_ref() {
                Some(r) => {
                    proof {
                        assert(r.height() <= 0x7fff_ffff);
                    }
                    r.get_balance()
                }
                None => {
                    // Unreachable: a node with balance 2 has a right child.
                    proof {
                        assert(false);
                    }
                    0
                }
            };

            if rbal == -1 {
                proof {
                    assert(rl == rr + 1);
                    if (*r0.lhs).node_opt is None {
                        assert((*r0.lhs).height() == 0);
                    }
                    assert((*r0.lhs).node_opt is Some);
                }
                let ghost c0 = (*r0.lhs).node_opt.unwrap();
                let ghost c1 = (*c0.lhs).height() as int;
                let ghost c2 = (*c0.rhs).height() as int;
                proof {
                    assert((*r0.lhs).keys() == c0.keys());
                    assert((*r0.lhs).wf() && c0.wf());
                    assert(c0.height() == rl);
                    assert(max(c1, c2) == lh);
                    assert(c0.keys().contains(c0.value));
                    assert((*r0.lhs).keys().contains(c0.value));
                    assert(c0.value < r0.value);
                    assert(r0.keys().contains(c0.value));
                    assert((*n0.rhs).keys().contains(c0.value));
                    assert(n0.value < c0.value);
                }

                (&mut *node.rhs).rotate_right();
                proof {
                    let r1 = (*node.rhs).node_opt.unwrap();
                    assert(node.keys() =~= n0.keys());
                    assert(r1.height() == lh + 2);
                    assert(node.height() == n0.height());
                    assert(node.bal() == 2);
                }
            }
            let ghost dbl = rbal == -1;

            self.set(node);
            let ghost mid = *self;
            self.rotate_left();

            proof {
                let m = mid.node_opt.unwrap();
                let mr = (*m.rhs).node_opt.unwrap();
                let s = self.node_opt.unwrap();
                let sl = (*s.lhs).node_opt.unwrap();
                assert(self.keys() =~= old(self).keys());

                if dbl {
                    let c0 = (*r0.lhs).node_opt.unwrap();
                    let c1 = (*c0.lhs).height() as int;
                    let c2 = (*c0.rhs).height() as int;
                    assert((*r0.lhs).keys() == c0.keys());
                    assert(c0.keys() == (*c0.lhs).keys().union((*c0.rhs).keys()).insert(
                        c0.value,
                    ));
                    assert(c0.wf());
                    assert(c0.value < r0.value && n0.value < c0.value);
                    // After the inner right rotation, the child slot holds the
                    // former left grandchild with the old child pushed right.
                    assert(mr.value == c0.value);
                    assert(*mr.lhs == *c0.lhs);
                    let mrr = (*mr.rhs).node_opt.unwrap();
                    assert(mrr.value == r0.value && *mrr.lhs == *c0.rhs && *mrr.rhs == *r0.rhs);

                    // Ordering of the final root and its children.
                    assert(sl.value == n0.value && *sl.lhs == *n0.lhs && *sl.rhs == *mr.lhs);
                    assert(s.value == c0.value && *s.rhs == *mr.rhs);
                    assert forall|k: i64| (*sl.rhs).keys().contains(k) implies k > n0.value by {
                        assert((*c0.lhs).keys().contains(k));
                        assert(c0.keys().contains(k));
                        assert(r0.keys().contains(k));
                        assert((*n0.rhs).keys().contains(k));
                    };
                    assert(sl.ordered());
                    assert forall|k: i64| sl.keys().contains(k) implies k < s.value by {
                        assert(sl.keys() == (*sl.lhs).keys().union((*sl.rhs).keys()).insert(
                            sl.value,
                        ));
                        if (*sl.lhs).keys().contains(k) {
                            assert((*n0.lhs).keys().contains(k));
                            assert(k < n0.value);
                        } else if (*sl.rhs).keys().contains(k) {
                            assert((*c0.lhs).keys().contains(k));
                            assert(k < c0.value);
                        }
                    };
                    assert forall|k: i64| (*s.rhs).keys().contains(k) implies k > s.value by {
                        assert(mrr.keys() == (*mrr.lhs).keys().union((*mrr.rhs).keys()).insert(
                            mrr.value,
                        ));
                        if (*mrr.lhs).keys().contains(k) {
                            assert((*c0.rhs).keys().contains(k));
                            assert(k > c0.value);
                        } else if (*mrr.rhs).keys().contains(k) {
                            assert((*r0.rhs).keys().contains(k));
                            assert(k > r0.value);
                        } else {
                            assert(k == r0.value);
                        }
                    };
                    assert((*s.lhs).keys() == sl.keys());
                    assert((*s.rhs).keys() == mrr.keys());
                    assert(s.ordered());
                    // Balance of the final root and its children.
                    assert(sl.height() == 1 + max(lh, c1));
                    assert(mrr.height() == 1 + max(c2, rr));
                    assert forall|k: i64| (*mrr.lhs).keys().contains(k) implies k < mrr.value by {
                        assert((*c0.rhs).keys().contains(k));
                        assert(c0.keys().contains(k));
                        assert(r0.keys().contains(k));
                        assert(k < r0.value);
                    };
                    assert forall|k: i64| (*mrr.rhs).keys().contains(k) implies k > mrr.value by {
                        assert((*r0.rhs).keys().contains(k));
                    };
                    assert(mrr.ordered());
                    assert(mrr.wf());
                    assert(sl.wf());
                    assert(s.wf());
                    assert(s.height() == lh + 2);
                    assert(old(self).height() == lh + 3);
                } else {
                    // Single left rotation: the right child was not
                    // left-heavy, so its right subtree has the full height.
                    assert(rr == lh + 1);
                    assert(m == n0);
                    assert(mr == r0);
                    assert(sl.value == n0.value && *sl.lhs == *n0.lhs && *sl.rhs == *r0.lhs);
                    assert(s.value == r0.value && *s.rhs == *r0.rhs);
                    assert forall|k: i64| (*sl.rhs).keys().contains(k) implies k > n0.value by {
                        assert((*r0.lhs).keys().contains(k));
                        assert(r0.keys().contains(k));
                        assert((*n0.rhs).keys().contains(k));
                    };
                    assert(sl.ordered());
                    assert forall|k: i64| sl.keys().contains(k) implies k < s.value by {
                        assert(sl.keys() == (*sl.lhs).keys().union((*sl.rhs).keys()).insert(
                            sl.value,
                        ));
                        if (*sl.lhs).keys().contains(k) {
                            assert((*n0.lhs).keys().contains(k));
                            assert(k < n0.value);
                        } else if (*sl.rhs).keys().contains(k) {
                            assert((*r0.lhs).keys().contains(k));
                            assert(k < r0.value);
                        }
                    };
                    assert forall|k: i64| (*s.rhs).keys().contains(k) implies k > s.value by {
                        assert((*r0.rhs).keys().contains(k));
                    };
                    assert((*s.lhs).keys() == sl.keys());
                    assert(s.ordered());
                    assert(sl.height() == 1 + max(lh, rl));
                    assert(sl.wf());
                    assert(s.wf());
                    assert(old(self).height() == lh + 3);
                    if rl == lh + 1 {
                        assert(s.height() == lh + 3);
                    } else {
                        assert(s.height() == lh + 2);
                    }
                }
            }
        } else if balance == -2 {
            let ghost n0 = node;
            let ghost rh = (*n0.rhs).height() as int;
            proof {
                assert((*n0.lhs).height() == rh + 2);
                if (*n0.lhs).node_opt is None {
                    assert((*n0.lhs).height() == 0);
                }
                assert((*n0.lhs).node_opt is Some);
            }
            let ghost l0 = (*n0.lhs).node_opt.unwrap();
            let ghost ll = (*l0.lhs).height() as int;
            let ghost lr = (*l0.rhs).height() as int;
            proof {
                assert((*n0.lhs).keys() == l0.keys());
                assert((*n0.lhs).wf() && l0.wf());
                assert(l0.height() == rh + 2);
                assert(max(ll, lr) == rh + 1);
                assert(l0.keys().contains(l0.value));
                assert((*n0.lhs).keys().contains(l0.value));
                assert(n0.value > l0.value);
            }

            let lbal = match (&*node.lhs).as_ref() {
                Some(l) => {
                    proof {
                        assert(l.height() <= 0x7fff_ffff);
                    }
                    l.get_balance()
                }
                None => {
                    // Unreachable: a node with balance -2 has a left child.
                    proof {
                        assert(false);
                    }
                    0
                }
            };

            if lbal == 1 {
                proof {
                    assert(lr == ll + 1);
                    if (*l0.rhs).node_opt is None {
                        assert((*l0.rhs).height() == 0);
                    }
                    assert((*l0.rhs).node_opt is Some);
                }
                let ghost c0 = (*l0.rhs).node_opt.unwrap();
                let ghost c1 = (*c0.lhs).height() as int;
                let ghost c2 = (*c0.rhs).height() as int;
                proof {
                    assert((*l0.rhs).keys() == c0.keys());
                    assert((*l0.rhs).wf() && c0.wf());
                    assert(c0.height() == lr);
                    assert(max(c1, c2) == rh);
                    assert(c0.keys().contains(c0.value));
                    assert((*l0.rhs).keys().contains(c0.value));
                    assert(c0.value > l0.value);
                    assert(l0.keys().contains(c0.value));
                    assert((*n0.lhs).keys().contains(c0.value));
                    assert(n0.value > c0.value);
                }

                (&mut *node.lhs).rotate_left();
                proof {
                    let l1 = (*node.lhs).node_opt.unwrap();
                    assert(node.keys() =~= n0.keys());
                    assert(l1.height() == rh + 2);
                    assert(node.height() == n0.height());
                    assert(node.bal() == -2);
                }
            }
            let ghost dbl = lbal == 1;

            self.set(node);
            let ghost mid = *self;
            self.rotate_right();

            proof {
                let m = mid.node_opt.unwrap();
                let ml = (*m.lhs).node_opt.unwrap();
                let s = self.node_opt.unwrap();
                let sr = (*s.rhs).node_opt.unwrap();
                assert(self.keys() =~= old(self).keys());

                if dbl {
                    let c0 = (*l0.rhs).node_opt.unwrap();
                    let c1 = (*c0.lhs).height() as int;
                    let c2 = (*c0.rhs).height() as int;
                    assert((*l0.rhs).keys() == c0.keys());
                    assert(c0.keys() == (*c0.lhs).keys().union((*c0.rhs).keys()).insert(
                        c0.value,
                    ));
                    assert(c0.wf());
                    assert(c0.value > l0.value && n0.value > c0.value);
                    assert(ml.value == c0.value);
                    assert(*ml.rhs == *c0.rhs);
                    let mll = (*ml.lhs).node_opt.unwrap();
                    assert(mll.value == l0.value && *mll.rhs == *c0.lhs && *mll.lhs == *l0.lhs);

                    assert(sr.value == n0.value && *sr.rhs == *n0.rhs && *sr.lhs == *ml.rhs);
                    assert(s.value == c0.value && *s.lhs == *ml.lhs);
                    assert forall|k: i64| (*sr.lhs).keys().contains(k) implies k < n0.value by {
                        assert((*c0.rhs).keys().contains(k));
                        assert(c0.keys().contains(k));
                        assert(l0.keys().contains(k));
                        assert((*n0.lhs).keys().contains(k));
                    };
                    assert(sr.ordered());
                    assert forall|k: i64| sr.keys().contains(k) implies k > s.value by {
                        assert(sr.keys() == (*sr.lhs).keys().union((*sr.rhs).keys()).insert(
                            sr.value,
                        ));
                        if (*sr.rhs).keys().contains(k) {
                            assert((*n0.rhs).keys().contains(k));
                            assert(k > n0.value);
                        } else if (*sr.lhs).keys().contains(k) {
                            assert((*c0.rhs).keys().contains(k));
                            assert(k > c0.value);
                        }
                    };
                    assert forall|k: i64| (*s.lhs).keys().contains(k) implies k < s.value by {
                        assert(mll.keys() == (*mll.lhs).keys().union((*mll.rhs).keys()).insert(
                            mll.value,
                        ));
                        if (*mll.rhs).keys().contains(k) {
                            assert((*c0.lhs).keys().contains(k));
                            assert(k < c0.value);
                        } else if (*mll.lhs).keys().contains(k) {
                            assert((*l0.lhs).keys().contains(k));
                            assert(k < l0.value);
                        } else {
                            assert(k == l0.value);
                        }
                    };
                    assert((*s.rhs).keys() == sr.keys());
                    assert((*s.lhs).keys() == mll.keys());
                    assert(s.ordered());
                    assert(sr.height() == 1 + max(c2, rh));
                    assert(mll.height() == 1 + max(ll, c1));
                    assert forall|k: i64| (*mll.rhs).keys().contains(k) implies k > mll.value by {
                        assert((*c0.lhs).keys().contains(k));
                        assert(c0.keys().contains(k));
                        assert(l0.keys().contains(k));
                        assert(k > l0.value);
                    };
                    assert forall|k: i64| (*mll.lhs).keys().contains(k) implies k < mll.value by {
                        assert((*l0.lhs).keys().contains(k));
                    };
                    assert(mll.ordered());
                    assert(mll.wf());
                    assert(sr.wf());
                    assert(s.wf());
                    assert(s.height() == rh + 2);
                    assert(old(self).height() == rh + 3);
                } else {
                    assert(ll == rh + 1);
                    assert(m == n0);
                    assert(ml == l0);
                    assert(sr.value == n0.value && *sr.rhs == *n0.rhs && *sr.lhs == *l0.rhs);
                    assert(s.value == l0.value && *s.lhs == *l0.lhs);
                    assert forall|k: i64| (*sr.lhs).keys().contains(k) implies k < n0.value by {
                        assert((*l0.rhs).keys().contains(k));
                        assert(l0.keys().contains(k));
                        assert((*n0.lhs).keys().contains(k));
                    };
                    assert(sr.ordered());
                    assert forall|k: i64| sr.keys().contains(k) implies k > s.value by {
                        assert(sr.keys() == (*sr.lhs).keys().union((*sr.rhs).keys()).insert(
                            sr.value,
                        ));
                        if (*sr.rhs).keys().contains(k) {
                            assert((*n0.rhs).keys().contains(k));
                            assert(k > n0.value);
                        } else if (*sr.lhs).keys().contains(k) {
                            assert((*l0.rhs).keys().contains(k));
                            assert(k > l0.value);
                        }
                    };
                    assert forall|k: i64| (*s.lhs).keys().contains(k) implies k < s.value by {
                        assert((*l0.lhs).keys().contains(k));
                    };
                    assert((*s.rhs).keys() == sr.keys());
                    assert(s.ordered());
                    assert(sr.height() == 1 + max(lr, rh));
                    assert(sr.wf());
                    assert(s.wf());
                    assert(old(self).height() == rh + 3);
                    if lr == rh + 1 {
                        assert(s.height() == rh + 3);
                    } else {
                        assert(s.height() == rh + 2);
                    }
                }
            }
        } else {
            self.set(node);
        }
    }

    // Adds the value at the BST position for it, rebalancing on the way back
    // up; adding a value that is already present leaves the tree unchanged.
    fn add(&mut self, value: i64)
        requires
            old(self).wf(),
            old(self).height() < 0x7fff_ffff,
        ensures
            final(self).wf(),
            final(self).keys() =~= old(self).keys().insert(value),
            final(self).height() == old(self).height() || final(self).height() == old(self)
                .height() + 1,
            old(self).keys().contains(value) ==> *final(self) == *old(self),
        decreases *old(self),
    {
        match self.take() {
            Some(mut node) => {
                let ghost n0 = node;
                proof {
                    assert(n0.wf());
                    assert(n0.keys() == (*n0.lhs).keys().union((*n0.rhs).keys()).insert(
                        n0.value,
                    ));
                }
                if value < node.value {
                    proof {
                        assert((*n0.lhs).height() < 0x7fff_ffff);
                    }
                    (&mut *node.lhs).add(value);
                    self.set(node);
                    proof {
                        let n1 = self.node_opt.unwrap();
                        assert((*n1.lhs).keys() =~= (*n0.lhs).keys().insert(value));
                        assert forall|k: i64| (*n1.lhs).keys().contains(k) implies k
                            < n1.value by {
                            if (*n0.lhs).keys().contains(k) {
                                assert(k < n0.value);
                            }
                        };
                        assert(n1.ordered());
                        assert(-2 <= n1.bal() <= 2);
                        assert(n1.height() == n0.height() || n1.height() == n0.height() + 1);
                        assert(n1.keys() =~= n0.keys().insert(value));
                        if old(self).keys().contains(value) {
                            assert(!(*n0.rhs).keys().contains(value));
                            assert((*n0.lhs).keys().contains(value));
                            assert(*node.lhs == *n0.lhs);
                            assert(n1 == n0);
                            assert(-1 <= n1.bal() <= 1);
                        }
                    }
                    self.rebalance();
                    proof {
                        assert(self.keys() =~= old(self).keys().insert(value));
                    }
                } else if value > node.value {
                    proof {
                        assert((*n0.rhs).height() < 0x7fff_ffff);
                    }
                    (&mut *node.rhs).add(value);
                    self.set(node);
                    proof {
                        let n1 = self.node_opt.unwrap();
                        assert((*n1.rhs).keys() =~= (*n0.rhs).keys().insert(value));
                        assert forall|k: i64| (*n1.rhs).keys().contains(k) implies k
                            > n1.value by {
                            if (*n0.rhs).keys().contains(k) {
                                assert(k > n0.value);
                            }
                        };
                        assert(n1.ordered());
                        assert(-2 <= n1.bal() <= 2);
                        assert(n1.height() == n0.height() || n1.height() == n0.height() + 1);
                        assert(n1.keys() =~= n0.keys().insert(value));
                        if old(self).keys().contains(value) {
                            assert(!(*n0.lhs).keys().contains(value));
                            assert((*n0.rhs).keys().contains(value));
                            assert(*node.rhs == *n0.rhs);
                            assert(n1 == n0);
                            assert(-1 <= n1.bal() <= 1);
                        }
                    }
                    self.rebalance();
                    proof {
                        assert(self.keys() =~= old(self).keys().insert(value));
                    }
                } else {
                    self.set(node);
                    proof {
                        assert(old(self).keys().contains(value));
                        assert(self.keys() =~= old(self).keys().insert(value));
                    }
                }
            }
            None => {
                self.set(Node::new(value));
                proof {
                    assert(old(self).keys() =~= Set::<i64>::empty());
                    assert(self.keys() =~= old(self).keys().insert(value));
                }
            }
        }
    }

    // Removes the value from the slot's subtree if present, rebalancing on
    // the way back up; a missing value is a no-op, not an error.
    fn remove(&mut self, value: &i64) -> (r: Option<i64>)
        requires
            old(self).wf(),
            old(self).height() <= 0x7fff_ffff,
        ensures
            final(self).wf(),
            final(self).keys() =~= old(self).keys().remove(*value),
            r == if old(self).keys().contains(*value) {
                Some(*value)
            } else {
                Option::<i64>::None
            },
            !old(self).keys().contains(*value) ==> *final(self) == *old(self),
            final(self).height() == old(self).height() || final(self).height() + 1 == old(
                self,
            ).height(),
        decreases old(self).height(), 1int,
    {
        match self.take() {
            Some(mut node) => {
                let ghost n0 = node;
                proof {
                    assert(n0.wf());
                    assert(n0.keys() == (*n0.lhs).keys().union((*n0.rhs).keys()).insert(
                        n0.value,
                    ));
                }
                if *value < node.value {
                    proof {
                        assert((*n0.lhs).height() < n0.height());
                    }
                    let result = (&mut *node.lhs).remove(value);
                    self.set(node);
                    proof {
                        let n1 = self.node_opt.unwrap();
                        assert((*n1.lhs).keys() =~= (*n0.lhs).keys().remove(*value));
                        assert forall|k: i64| (*n1.lhs).keys().contains(k) implies k
                            < n1.value by {
                            assert((*n0.lhs).keys().contains(k));
                        };
                        assert(n1.ordered());
                        assert(-2 <= n1.bal() <= 2);
                        assert(!(*n0.rhs).keys().contains(*value));
                        assert(n1.keys() =~= n0.keys().remove(*value));
                        if !old(self).keys().contains(*value) {
                            assert(!(*n0.lhs).keys().contains(*value));
                            assert(*node.lhs == *n0.lhs);
                            assert(n1 == n0);
                            assert(-1 <= n1.bal() <= 1);
                        }
                    }
                    self.rebalance();
                    proof {
                        assert(self.keys() =~= old(self).keys().remove(*value));
                    }
                    result
                } else if *value > node.value {
                    proof {
                        assert((*n0.rhs).height() < n0.height());
                    }
                    let result = (&mut *node.rhs).remove(value);
                    self.set(node);
                    proof {
                        let n1 = self.node_opt.unwrap();
                        assert((*n1.rhs).keys() =~= (*n0.rhs).keys().remove(*value));
                        assert forall|k: i64| (*n1.rhs).keys().contains(k) implies k
                            > n1.value by {
                            assert((*n0.rhs).keys().contains(k));
                        };
                        assert(n1.ordered());
                        assert(-2 <= n1.bal() <= 2);
                        assert(!(*n0.lhs).keys().contains(*value));
                        assert(n1.keys() =~= n0.keys().remove(*value));
                        if !old(self).keys().contains(*value) {
                            assert(!(*n0.rhs).keys().contains(*value));
                            assert(*node.rhs == *n0.rhs);
                            assert(n1 == n0);
                            assert(-1 <= n1.bal() <= 1);
                        }
                    }
                    self.rebalance();
                    proof {
                        assert(self.keys() =~= old(self).keys().remove(*value));
                    }
                    result
                } else {
                    self.set(node);
                    self.remove_self(value)
                }
            }
            None => {
                proof {
                    assert(old(self).keys() =~= Set::<i64>::empty());
                    assert(self.keys() =~= old(self).keys().remove(*value));
                }
                None
            }
        }
    }

    // Removes the value held by the node in this slot; the node's key is
    // required to equal the given value.
    fn remove_self(&mut self, value: &i64) -> (r: Option<i64>)
        requires
            old(self).node_opt is Some,
            old(self).node_opt.unwrap().value == *value,
            old(self).wf(),
            old(self).height() <= 0x7fff_ffff,
        ensures
            final(self).wf(),
            final(self).keys() =~= old(self).keys().remove(*value),
            r == Some(*value),
            final(self).height() == old(self).height() || final(self).height() + 1 == old(
                self,
            ).height(),
        decreases old(self).height(), 0int,
    {
        let mut node = self.take().unwrap();
        let ghost n0 = node;
        proof {
            assert(n0.wf());
            assert(n0.keys() == (*n0.lhs).keys().union((*n0.rhs).keys()).insert(n0.value));
            assert(n0.keys().contains(*value));
            assert(!(*n0.lhs).keys().contains(*value));
            assert(!(*n0.rhs).keys().contains(*value));
        }

        if node.lhs.node_opt.is_none() && node.rhs.node_opt.is_none() {
            proof {
                assert((*n0.lhs).keys() =~= Set::<i64>::empty());
                assert((*n0.rhs).keys() =~= Set::<i64>::empty());
                assert(self.keys() =~= old(self).keys().remove(*value));
            }
            Some(node.value)
        } else if node.lhs.node_opt.is_some() && node.rhs.node_opt.is_some() {
            let v0: i64 = node.value;
            let mut lhs_node = (&mut *node.lhs).take().unwrap();
            proof {
                assert(lhs_node == (*n0.lhs).node_opt.unwrap());
                assert(lhs_node.keys() == (*n0.lhs).keys());
                assert((*n0.lhs).wf());
                assert(lhs_node.wf());
                assert(lhs_node.height() == (*n0.lhs).height());
            }
            let m = lhs_node.swap_with_max(v0);
            (&mut *node.lhs).set(lhs_node);
            node.value = m;
            let ghost lk = (*n0.lhs).keys();
            proof {
                assert((*node.lhs).keys() =~= lk.remove(m).insert(v0));
                assert((*node.lhs).height() == (*n0.lhs).height());
                assert((*node.lhs).height() < n0.height());
                assert((*node.lhs).wf());
                assert(lk.contains(m));
                assert(m < v0);
                assert((*node.lhs).keys().contains(v0));
            }

            let result = (&mut *node.lhs).remove(value);
            self.set(node);
            proof {
                let n1 = self.node_opt.unwrap();
                assert((*n1.lhs).keys() =~= lk.remove(m).insert(v0).remove(v0));
                assert(!lk.contains(v0));
                assert((*n1.lhs).keys() =~= lk.remove(m));
                assert forall|k: i64| (*n1.lhs).keys().contains(k) implies k < n1.value by {
                    assert(lk.contains(k));
                    assert(k <= m);
                };
                assert forall|k: i64| (*n1.rhs).keys().contains(k) implies k > n1.value by {
                    assert((*n0.rhs).keys().contains(k));
                    assert(k > v0);
                };
                assert(n1.ordered());
                assert(-2 <= n1.bal() <= 2);
                assert(n1.keys() =~= n0.keys().remove(v0));
            }
            self.rebalance();
            proof {
                assert(self.keys() =~= old(self).keys().remove(*value));
            }
            result
        } else if node.lhs.node_opt.is_none() {
            match (&mut *node.rhs).take() {
                Some(rhs_node) => {
                    self.set(rhs_node);
                }
                None => {}
            }
            proof {
                assert((*n0.lhs).keys() =~= Set::<i64>::empty());
                assert(self.keys() == (*n0.rhs).keys());
                assert(self.keys() =~= old(self).keys().remove(*value));
                assert((*n0.lhs).height() == 0);
            }
            Some(node.value)
        } else {
            match (&mut *node.lhs).take() {
                Some(lhs_node) => {
                    self.set(lhs_node);
                }
                None => {}
            }
            proof {
                assert((*n0.rhs).keys() =~= Set::<i64>::empty());
                assert(self.keys() == (*n0.lhs).keys());
                assert(self.keys() =~= old(self).keys().remove(*value));
                assert((*n0.rhs).height() == 0);
            }
            Some(node.value)
        }
    }

    fn find(&self, value: &i64) -> (r: Option<&i64>)
        requires
            self.wf(),
        ensures
            match r {
                Some(v) => self.keys().contains(*value) && *v == *value,
                None => !self.keys().contains(*value),
            },
        decreases *self,
    {
        let node = match self.as_ref() {
            Some(node) => node,
            None => {
                return None;
            }
        };

        if *value == node.value {
            proof {
                assert(self.keys().contains(*value));
            }
            Some(&node.value)
        } else if *value < node.value {
            proof {
                assert(!(*node.rhs).keys().contains(*value));
                assert(self.keys().contains(*value) == (*node.lhs).keys().contains(*value));
            }
            node.lhs.find(value)
        } else {
            proof {
                assert(!(*node.lhs).keys().contains(*value));
                assert(self.keys().contains(*value) == (*node.rhs).keys().contains(*value));
            }
            node.rhs.find(value)
        }
    }
}

/// The key set of a tree is finite.
proof fn lemma_keys_finite(t: NodeOption)
    ensures
        t.keys().finite(),
    decreases t,
{
    match t.node_opt {
        None => {}
        Some(node) => {
            lemma_keys_finite(*node.lhs);
            lemma_keys_finite(*node.rhs);
        }
    }
}

/// The cardinality of the union of two disjoint finite sets is the sum of
/// their cardinalities.
proof fn lemma_len_disjoint_union(s1: Set<i64>, s2: Set<i64>)
    requires
        s1.finite(),
        s2.finite(),
        s1.intersect(s2) =~= Set::empty(),
    ensures
        s1.union(s2).len() == s1.len() + s2.len(),
        s1.union(s2).finite(),
    decreases s1.len(),
{
    if s1.is_empty() {
        assert(s1.union(s2) =~= s2);
    } else {
        let a = s1.choose();
        assert(s1.contains(a));
        if s2.contains(a) {
            assert(s1.intersect(s2).contains(a));
        }
        assert(!s2.contains(a));
        assert(s1.remove(a).intersect(s2) =~= Set::empty());
        lemma_len_disjoint_union(s1.remove(a), s2);
        assert(s1.union(s2) =~= s1.remove(a).union(s2).insert(a));
        assert(!s1.remove(a).union(s2).contains(a));
    }
}

/// A well-formed tree of height `h` holds at least `2^(h / 2) - 1` keys:
/// the balance invariant keeps the tree dense.
proof fn lemma_wf_keys_lower_bound(t: NodeOption)
    requires
        t.wf(),
    ensures
        t.keys().finite(),
        pow2(t.height() / 2) <= t.keys().len() + 1,
    decreases t,
{
    lemma_keys_finite(t);
    match t.node_opt {
        None => {
            assert(pow2(0) == 1) by {
                lemma2_to64();
            }
        }
        Some(node) => {
            lemma_wf_keys_lower_bound(*node.lhs);
            lemma_wf_keys_lower_bound(*node.rhs);
            let lk = (*node.lhs).keys();
            let rk = (*node.rhs).keys();
            let h = t.height();
            assert(lk.intersect(rk) =~= Set::empty());
            lemma_len_disjoint_union(lk, rk);
            assert(!lk.union(rk).contains(node.value));
            assert(t.keys().len() == lk.len() + rk.len() + 1);

            let hl = (*node.lhs).height();
            let hr = (*node.rhs).height();
            // The shorter child has height at least h - 2.
            assert(hl + 1 == h || hr + 1 == h);
            assert(hl + 2 >= h && hr + 2 >= h);
            if h >= 2 {
                assert(pow2(hl / 2) + pow2(hr / 2) >= 2 * pow2((h - 2) as nat / 2)) by {
                    if hl / 2 > (h - 2) as nat / 2 {
                        lemma_pow2_strictly_increases((h - 2) as nat / 2, hl / 2);
                    }
                    if hr / 2 > (h - 2) as nat / 2 {
                        lemma_pow2_strictly_increases((h - 2) as nat / 2, hr / 2);
                    }
                }
                assert(2 * pow2((h - 2) as nat / 2) == pow2((h - 2) as nat / 2 + 1)) by {
                    lemma_pow2_adds((h - 2) as nat / 2, 1);
                    lemma2_to64();
                }
                assert((h - 2) as nat / 2 + 1 >= h / 2);
                if (h - 2) as nat / 2 + 1 > h / 2 {
                    lemma_pow2_strictly_increases(h / 2, (h - 2) as nat / 2 + 1);
                }
                assert(pow2(h / 2) <= pow2(hl / 2) + pow2(hr / 2));
                assert(pow2(hl / 2) <= lk.len() + 1 && pow2(hr / 2) <= rk.len() + 1);
            } else {
                assert(h == 1);
                assert(pow2(0) == 1) by {
                    lemma2_to64();
                }
            }
        }
    }
}

/// A well-formed tree whose key set fits in a machine word is shallow:
/// its height is at most 129, which keeps height arithmetic far from
/// any fixed-width limit.
proof fn lemma_wf_height_bound(t: NodeOption)
    requires
        t.wf(),
        t.keys().len() <= usize::MAX,
    ensures
        t.height() <= 129,
{
    lemma_wf_keys_lower_bound(t);
    if t.height() > 129 {
        assert(t.height() / 2 >= 65);
        assert(pow2(65) <= pow2(t.height() / 2)) by {
            if t.height() / 2 > 65 {
                lemma_pow2_strictly_increases(65, t.height() / 2);
            }
        }
        assert(pow2(64) == 0x10000000000000000 && pow2(65) == 2 * pow2(64)) by {
            lemma2_to64();
            lemma_pow2_adds(64, 1);
        }
        assert(usize::MAX <= 0xffffffffffffffff);
        assert(false);
    }
}

impl AVL {
    /// The set of keys stored in the tree.
    pub closed spec fn view(&self) -> Set<i64> {
        self.root.keys()
    }

    /// The tree invariant: binary-search-tree ordering, AVL height balance,
    /// and a key count that fits in a machine word (no larger tree can exist
    /// in memory, and the bound keeps height arithmetic in range).
    pub closed spec fn well_formed(self) -> bool {
        &&& self.root.wf()
        &&& self.root.keys().finite()
        &&& self.root.keys().len() <= usize::MAX
    }

    /// The height of the tree: 0 when empty, otherwise one more than the
    /// taller subtree's height.
    pub closed spec fn height(self) -> nat {
        self.root.height()
    }

    /// The keys of the tree in the order an in-order traversal visits them.
    pub closed spec fn in_order(self) -> Seq<i64> {
        self.root.in_order()
    }

    /// Constructs a new, empty tree.
    pub fn new() -> (t: Self)
        ensures
            t.well_formed(),
            t@ == Set::<i64>::empty(),
    {
        let t = Self { root: NodeOption::new() };
        proof {
            assert(t.root.keys() =~= Set::<i64>::empty());
        }
        t
    }

    /// Finds a stored key equal to the given value.
    ///
    /// Returns the stored key when the value is present and `None` when it is
    /// absent; absence is a normal outcome, not a failure.
    pub fn find(&self, value: &i64) -> (r: Option<&i64>)
        requires
            self.well_formed(),
        ensures
            match r {
                Some(v) => self@.contains(*value) && *v == *value,
                None => !self@.contains(*value),
            },
    {
        self.root.find(value)
    }

    /// Adds a node containing the given value.
    ///
    /// Adding a value that is already stored leaves the tree unchanged, both
    /// structurally and logically: adding the same value twice is the same as
    /// adding it once, and duplicate keys never arise.
    pub fn add(&mut self, value: i64)
        requires
            old(self).well_formed(),
            old(self)@.len() < usize::MAX,
        ensures
            final(self).well_formed(),
            final(self)@ == old(self)@.insert(value),
            old(self)@.contains(value) ==> *final(self) == *old(self),
    {
        proof {
            lemma_wf_height_bound(self.root);
        }
        self.root.add(value);
        proof {
            broadcast use vstd::set::axiom_set_insert_len;

            assert(self@ =~= old(self)@.insert(value));
            lemma_keys_finite(self.root);
        }
    }

    /// Removes the node containing the given value, if there is one.
    ///
    /// Returns the removed value, or `None` when the value is absent; in the
    /// latter case the tree is left unchanged, structurally and logically.
    pub fn remove(&mut self, value: &i64) -> (r: Option<i64>)
        requires
            old(self).well_formed(),
        ensures
            final(self).well_formed(),
            final(self)@ == old(self)@.remove(*value),
            r == if old(self)@.contains(*value) {
                Some(*value)
            } else {
                Option::<i64>::None
            },
            !old(self)@.contains(*value) ==> *final(self) == *old(self),
    {
        proof {
            lemma_wf_height_bound(self.root);
        }
        let r = self.root.remove(value);
        proof {
            broadcast use vstd::set::axiom_set_remove_len;

            assert(self@ =~= old(self)@.remove(*value));
            lemma_keys_finite(self.root);
            assert(self@.len() <= old(self)@.len());
        }
        r
    }

    /// Builds a tree from a slice by adding its elements in order.
    pub fn from_slice(array: &[i64]) -> (t: Self)
        ensures
            t.well_formed(),
            t@ == array@.to_set(),
    {
        let mut t = Self::new();
        let mut i: usize = 0;
        while i < array.len()
            invariant
                i <= array.len(),
                t.well_formed(),
                t@ == array@.subrange(0, i as int).to_set(),
                t@.len() <= i,
            decreases array.len() - i,
        {
            t.add(array[i]);
            proof {
                let s1 = array@.subrange(0, i as int);
                let s2 = array@.subrange(0, (i + 1) as int);
                let x = array@[i as int];
                assert(s2 == s1.push(x));
                assert forall|k: i64| s2.to_set().contains(k) implies s1.to_set().insert(
                    x,
                ).contains(k) by {
                    let j = choose|j: int| 0 <= j < s2.len() && s2[j] == k;
                    if j < s1.len() {
                        assert(s1[j] == k);
                    } else {
                        assert(k == x);
                    }
                };
                assert forall|k: i64| s1.to_set().insert(x).contains(k) implies s2.to_set()
                    .contains(k) by {
                    if s1.contains(k) {
                        let j = choose|j: int| 0 <= j < s1.len() && s1[j] == k;
                        assert(s2[j] == k);
                    } else {
                        assert(s2[s1.len() as int] == x);
                        assert(s2.contains(x));
                    }
                };
                assert(s2.to_set() =~= s1.to_set().insert(x));
            }
            i += 1;
        }
        proof {
            assert(array@.subrange(0, array@.len() as int) == array@);
        }
        t
    }
}

/// Membership correctness, stated over the views that `from_slice` and `find`
/// promise: a tree built from a slice holds exactly the slice's elements, so
/// `find` succeeds on a value if and only if the slice contains it.
pub proof fn lemma_membership_after_from_slice(s: Seq<i64>, k: i64)
    ensures
        s.to_set().contains(k) <==> s.contains(k),
{
}

/// Deletion correctness, stated over the view that `remove` promises: after
/// removing `k`, `k` itself is gone and the membership of every other value
/// is what it was before.
pub proof fn lemma_removal_preserves_others(s: Set<i64>, k: i64, j: i64)
    ensures
        !s.remove(k).contains(k),
        j != k ==> s.remove(k).contains(j) == s.contains(j),
{
}

/// In a well-formed tree the in-order traversal visits every stored key
/// exactly once, in strictly increasing order: the tree is a valid binary
/// search tree with no duplicate keys.
pub proof fn lemma_in_order_strictly_increasing(t: AVL)
    requires
        t.well_formed(),
    ensures
        t.in_order().to_set() == t@,
        forall|i: int, j: int|
            0 <= i < j < t.in_order().len() ==> t.in_order()[i] < t.in_order()[j],
{
    lemma_in_order_props(t.root);
}

proof fn lemma_in_order_props(t: NodeOption)
    requires
        t.wf(),
    ensures
        t.in_order().to_set() == t.keys(),
        forall|i: int, j: int| 0 <= i < j < t.in_order().len() ==> t.in_order()[i] < t.in_order()[j],
    decreases t,
{
    match t.node_opt {
        None => {
            assert(t.in_order().to_set() =~= t.keys());
        }
        Some(node) => {
            lemma_in_order_props(*node.lhs);
            lemma_in_order_props(*node.rhs);
            let ls = (*node.lhs).in_order();
            let rs = (*node.rhs).in_order();
            let s = t.in_order();
            let v = node.value;
            assert(s == ls + seq![v] + rs);
            assert(s.len() == ls.len() + 1 + rs.len());

            assert forall|i: int| 0 <= i < ls.len() implies s[i] < v by {
                assert(ls.contains(ls[i]));
                assert(ls.to_set().contains(ls[i]));
                assert((*node.lhs).keys().contains(ls[i]));
            };
            assert forall|i: int| ls.len() < i < s.len() implies s[i] > v by {
                assert(rs.contains(rs[i - ls.len() - 1]));
                assert(rs.to_set().contains(rs[i - ls.len() - 1]));
                assert((*node.rhs).keys().contains(rs[i - ls.len() - 1]));
                assert(s[i] == rs[i - ls.len() - 1]);
            };
            assert(s[ls.len() as int] == v);
            assert forall|i: int, j: int| 0 <= i < j < s.len() implies s[i] < s[j] by {
                if j < ls.len() {
                    assert(s[i] == ls[i] && s[j] == ls[j]);
                } else if i > ls.len() {
                    assert(s[i] == rs[i - ls.len() - 1] && s[j] == rs[j - ls.len() - 1]);
                } else if i < ls.len() && j == ls.len() {
                    assert(s[i] < v);
                } else if i == ls.len() {
                    assert(s[j] > v);
                } else {
                    assert(s[i] < v && s[j] > v);
                }
            };

            assert forall|k: i64| s.to_set().contains(k) implies t.keys().contains(k) by {
                let i = choose|i: int| 0 <= i < s.len() && s[i] == k;
                if i < ls.len() {
                    assert(ls.contains(ls[i]));
                    assert((*node.lhs).keys().contains(k));
                } else if i == ls.len() {
                    assert(k == v);
                } else {
                    assert(rs.contains(rs[i - ls.len() - 1]));
                    assert((*node.rhs).keys().contains(k));
                }
            };
            assert forall|k: i64| t.keys().contains(k) implies s.to_set().contains(k) by {
                if (*node.lhs).keys().contains(k) {
                    assert(ls.to_set().contains(k));
                    let i = choose|i: int| 0 <= i < ls.len() && ls[i] == k;
                    assert(s[i] == k);
                    assert(s.contains(k));
                } else if (*node.rhs).keys().contains(k) {
                    assert(rs.to_set().contains(k));
                    let i = choose|i: int| 0 <= i < rs.len() && rs[i] == k;
                    assert(s[ls.len() + 1 + i] == k);
                    assert(s.contains(k));
                } else {
                    assert(k == v);
                    assert(s[ls.len() as int] == k);
                    assert(s.contains(k));
                }
            };
            assert(s.to_set() =~= t.keys());
        }
    }
}

/// The height-balance invariant makes the tree dense: a well-formed tree of
/// height `h` holds at least `2^(h / 2) - 1` keys, so the height is
/// logarithmic in the number of keys.
pub proof fn lemma_balanced_height(t: AVL)
    requires
        t.well_formed(),
    ensures
        pow2(t.height() / 2) <= t@.len() + 1,
{
    lemma_wf_keys_lower_bound(t.root);
}

} // verus!
