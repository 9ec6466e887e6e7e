//! An unbalanced binary search tree holding a set of unique keys.
//!
//! Every node owns its two child subtrees; the key of a node is greater than
//! every key in its left subtree and smaller than every key in its right
//! subtree. The view of a tree is the set of its keys. Deleting a node with
//! two children swaps its key with the greatest key of the left subtree (the
//! in-order predecessor) and then deletes from that subtree.

use vstd::prelude::*;

verus! {

pub struct BinaryTree {
    root: NodeOpt,
}

struct Node {
    value: i64,
    lhs: NodeOpt,
    rhs: NodeOpt,
}

type NodeOpt = Option<Box<Node>>;

impl Node {
    spec fn keys(self) -> Set<i64>
        decreases self,
    {
        Node::opt_keys(self.lhs).union(Node::opt_keys(self.rhs)).insert(self.value)
    }

    spec fn opt_keys(node_opt: NodeOpt) -> Set<i64>
        decreases node_opt,
    {
        match node_opt {
            None => Set::empty(),
            Some(node) => node.keys(),
        }
    }

    spec fn wf(self) -> bool
        decreases self,
    {
        &&& (forall|k: i64| Node::opt_keys(self.lhs).contains(k) ==> k < self.value)
        &&& (forall|k: i64| Node::opt_keys(self.rhs).contains(k) ==> k > self.value)
        &&& Node::opt_wf(self.lhs)
        &&& Node::opt_wf(self.rhs)
    }

    spec fn opt_wf(node_opt: NodeOpt) -> bool
        decreases node_opt,
    {
        match node_opt {
            None => true,
            Some(node) => node.wf(),
        }
    }

    spec fn height(self) -> nat
        decreases self,
    {
        1 + vstd::math::max(
            Node::opt_height(self.lhs) as int,
            Node::opt_height(self.rhs) as int,
        ) as nat
    }

    spec fn opt_height(node_opt: NodeOpt) -> nat
        decreases node_opt,
    {
        match node_opt {
            None => 0,
            Some(node) => node.height(),
        }
    }

    fn new(value: i64) -> (n: Self)
        ensures
            n.value == value,
            n.lhs is None,
            n.rhs is None,
            n.keys() == Set::empty().insert(value),
            n.wf(),
    {
        let n = Self { value, lhs: None, rhs: None };
        assert(n.keys() =~= Set::empty().insert(value));
        n
    }

    fn find(&self, value: &i64) -> (r: Option<&Self>)
        requires
            self.wf(),
        ensures
            match r {
                Some(n) => self.keys().contains(*value) && n.value == *value,
                None => !self.keys().contains(*value),
            },
        decreases *self,
    {
        if *value == self.value {
            proof {
                assert(self.keys().contains(*value));
            }
            Some(self)
        } else if *value < self.value {
            proof {
                assert(!Node::opt_keys(self.rhs).contains(*value));
                assert(self.keys().contains(*value) == Node::opt_keys(self.lhs).contains(
                    *value,
                ));
            }
            match &self.lhs {
                Some(lhs) => lhs.find(value),
                None => None,
            }
        } else {
            proof {
                assert(!Node::opt_keys(self.lhs).contains(*value));
                assert(self.keys().contains(*value) == Node::opt_keys(self.rhs).contains(
                    *value,
                ));
            }
            match &self.rhs {
                Some(rhs) => rhs.find(value),
                None => None,
            }
        }
    }

    fn add(&mut self, value: i64)
        requires
            old(self).wf(),
        ensures
            final(self).wf(),
            final(self).keys() =~= old(self).keys().insert(value),
            final(self).value == old(self).value,
            old(self).keys().contains(value) ==> *final(self) == *old(self),
        decreases *old(self),
    {
        if value < self.value {
            match self.lhs.take() {
                Some(mut lhs) => {
                    (&mut *lhs).add(value);
                    self.lhs = Some(lhs);
                    proof {
                        assert(Node::opt_keys(self.lhs) =~= Node::opt_keys(
                            old(self).lhs,
                        ).insert(value));
                        assert(self.keys() =~= old(self).keys().insert(value));
                        if old(self).keys().contains(value) {
                            assert(!Node::opt_keys(old(self).rhs).contains(value));
                            assert(Node::opt_keys(old(self).lhs).contains(value));
                            assert(self.lhs == old(self).lhs);
                        }
                    }
                }
                None => {
                    self.lhs = Some(Box::new(Node::new(value)));
                    proof {
                        assert(Node::opt_keys(self.lhs) =~= Set::empty().insert(value));
                        assert(self.keys() =~= old(self).keys().insert(value));
                        assert(!Node::opt_keys(old(self).rhs).contains(value));
                        assert(!old(self).keys().contains(value));
                    }
                }
            }
        } else if value > self.value {
            match self.rhs.take() {
                Some(mut rhs) => {
                    (&mut *rhs).add(value);
                    self.rhs = Some(rhs);
                    proof {
                        assert(Node::opt_keys(self.rhs) =~= Node::opt_keys(
                            old(self).rhs,
                        ).insert(value));
                        assert(self.keys() =~= old(self).keys().insert(value));
                        if old(self).keys().contains(value) {
                            assert(!Node::opt_keys(old(self).lhs).contains(value));
                            assert(Node::opt_keys(old(self).rhs).contains(value));
                            assert(self.rhs == old(self).rhs);
                        }
                    }
                }
                None => {
                    self.rhs = Some(Box::new(Node::new(value)));
                    proof {
                        assert(Node::opt_keys(self.rhs) =~= Set::empty().insert(value));
                        assert(self.keys() =~= old(self).keys().insert(value));
                        assert(!Node::opt_keys(old(self).lhs).contains(value));
                        assert(!old(self).keys().contains(value));
                    }
                }
            }
        } else {
            proof {
                assert(self.keys().contains(value));
                assert(self.keys() =~= old(self).keys().insert(value));
            }
        }
    }

    /// Swaps `x` into the node holding the greatest key of this subtree and
    /// returns that key. Only that one key changes; the shape of the subtree
    /// stays as it was.
    fn swap_with_max(&mut self, x: i64) -> (m: i64)
        requires
            old(self).wf(),
            forall|k: i64| old(self).keys().contains(k) ==> k < x,
        ensures
            final(self).wf(),
            old(self).keys().contains(m),
            forall|k: i64| old(self).keys().contains(k) ==> k <= m,
            final(self).keys() =~= old(self).keys().remove(m).insert(x),
            final(self).height() == old(self).height(),
            final(self).lhs == old(self).lhs,
        decreases *old(self),
    {
        proof {
            assert(old(self).keys().contains(old(self).value));
            assert(forall|k: i64|
                Node::opt_keys(old(self).rhs).contains(k) ==> old(self).keys().contains(k));
            assert(forall|k: i64|
                Node::opt_keys(old(self).lhs).contains(k) ==> old(self).keys().contains(k));
        }
        match self.rhs.take() {
            Some(mut rhs) => {
                proof {
                    assert(rhs == old(self).rhs.unwrap());
                    assert(rhs.keys() == Node::opt_keys(old(self).rhs));
                    assert forall|k: i64| rhs.keys().contains(k) implies k < x by {
                        assert(Node::opt_keys(old(self).rhs).contains(k));
                        assert(old(self).keys().contains(k));
                    };
                }
                let m = (&mut *rhs).swap_with_max(x);
                self.rhs = Some(rhs);
                proof {
                    assert(Node::opt_keys(self.rhs) =~= Node::opt_keys(old(self).rhs).remove(
                        m,
                    ).insert(x));
                    assert(Node::opt_keys(old(self).rhs).contains(m));
                    assert(m > old(self).value);
                    assert forall|k: i64| old(self).keys().contains(k) implies k <= m by {
                        if Node::opt_keys(old(self).lhs).contains(k) {
                            assert(k < old(self).value);
                        }
                    };
                    assert forall|k: i64|
                        self.keys().contains(k) == old(self).keys().remove(m).insert(x).contains(
                            k,
                        ) by {
                        assert(self.keys().contains(k) == (Node::opt_keys(self.lhs).contains(k)
                            || Node::opt_keys(self.rhs).contains(k) || k == self.value));
                        assert(old(self).keys().contains(k) == (Node::opt_keys(
                            old(self).lhs,
                        ).contains(k) || Node::opt_keys(old(self).rhs).contains(k) || k == old(
                            self,
                        ).value));
                        if Node::opt_keys(old(self).lhs).contains(k) {
                            assert(k < old(self).value);
                        }
                    };
                    assert(self.keys() =~= old(self).keys().remove(m).insert(x));
                }
                m
            }
            None => {
                let m: i64 = self.value;
                self.value = x;
                proof {
                    assert(old(self).keys() =~= Node::opt_keys(old(self).lhs).insert(m));
                    assert(!Node::opt_keys(old(self).lhs).contains(m));
                    assert(self.keys() =~= old(self).keys().remove(m).insert(x));
                }
                m
            }
        }
    }

    fn remove(node_opt: &mut NodeOpt, value: &i64) -> (r: NodeOpt)
        requires
            Node::opt_wf(*old(node_opt)),
        ensures
            Node::opt_wf(*final(node_opt)),
            Node::opt_keys(*final(node_opt)) =~= Node::opt_keys(*old(node_opt)).remove(*value),
            match r {
                Some(n) => Node::opt_keys(*old(node_opt)).contains(*value) && n.value == *value,
                None => !Node::opt_keys(*old(node_opt)).contains(*value)
                    && *final(node_opt) == *old(node_opt),
            },
        decreases Node::opt_height(*old(node_opt)),
    {
        let mut node = match node_opt.take() {
            Some(n) => n,
            None => {
                return None;
            }
        };
        proof {
            assert(node == old(node_opt).unwrap());
            assert(node.keys().contains(node.value));
        }

        if *value == node.value {
            if node.lhs.is_none() && node.rhs.is_none() {
                proof {
                    assert(node.keys() =~= Set::empty().insert(node.value));
                    assert(Node::opt_keys(*node_opt) =~= node.keys().remove(*value));
                }
                Some(node)
            } else if node.lhs.is_some() && node.rhs.is_some() {
                let ghost old_node = *node;
                let v0: i64 = node.value;
                let mut lhs = node.lhs.take().unwrap();
                proof {
                    assert(lhs == old_node.lhs.unwrap());
                    assert(lhs.keys() == Node::opt_keys(old_node.lhs));
                    assert(old_node.wf());
                    assert(Node::opt_wf(old_node.lhs));
                    assert(lhs.wf());
                    assert(lhs.height() == Node::opt_height(old_node.lhs));
                }
                let m = (&mut *lhs).swap_with_max(v0);
                node.lhs = Some(lhs);
                node.value = m;
                proof {
                    assert(Node::opt_keys(node.lhs) =~= Node::opt_keys(old_node.lhs).remove(
                        m,
                    ).insert(v0));
                    assert(Node::opt_height(node.lhs) == Node::opt_height(old_node.lhs));
                    assert(Node::opt_height(*old(node_opt)) == old_node.height());
                    assert(old_node.height() > Node::opt_height(old_node.lhs));
                    assert(Node::opt_height(node.lhs) < Node::opt_height(*old(node_opt)));
                    assert(Node::opt_keys(old_node.lhs).contains(m));
                    assert(m < v0);
                    assert(forall|k: i64| Node::opt_keys(node.lhs).contains(k) ==> k <= v0);
                }

                let removed = Self::remove(&mut node.lhs, value);
                proof {
                    assert(Node::opt_keys(node.lhs) =~= Node::opt_keys(old_node.lhs).remove(m));
                    assert(node.wf());
                }
                *node_opt = Some(node);
                proof {
                    assert(!Node::opt_keys(old_node.lhs).contains(v0));
                    assert(!Node::opt_keys(old_node.rhs).contains(v0));
                    assert(Node::opt_keys(*node_opt) =~= Node::opt_keys(*old(node_opt)).remove(
                        *value,
                    ));
                }
                removed
            } else if node.lhs.is_none() {
                let mut removed = node;
                *node_opt = removed.rhs.take();
                proof {
                    assert(old(node_opt).unwrap().keys() =~= Node::opt_keys(
                        old(node_opt).unwrap().rhs,
                    ).insert(*value));
                    assert(!Node::opt_keys(old(node_opt).unwrap().rhs).contains(*value));
                    assert(Node::opt_keys(*node_opt) =~= Node::opt_keys(*old(node_opt)).remove(
                        *value,
                    ));
                }
                Some(removed)
            } else {
                let mut removed = node;
                *node_opt = removed.lhs.take();
                proof {
                    assert(old(node_opt).unwrap().keys() =~= Node::opt_keys(
                        old(node_opt).unwrap().lhs,
                    ).insert(*value));
                    assert(!Node::opt_keys(old(node_opt).unwrap().lhs).contains(*value));
                    assert(Node::opt_keys(*node_opt) =~= Node::opt_keys(*old(node_opt)).remove(
                        *value,
                    ));
                }
                Some(removed)
            }
        } else if *value < node.value {
            proof {
                assert(Node::opt_height(node.lhs) < Node::opt_height(*old(node_opt)));
                assert(!Node::opt_keys(old(node_opt).unwrap().rhs).contains(*value));
            }
            let removed = Self::remove(&mut node.lhs, value);
            *node_opt = Some(node);
            proof {
                assert(Node::opt_keys(*node_opt) =~= Node::opt_keys(*old(node_opt)).remove(
                    *value,
                ));
            }
            removed
        } else {
            proof {
                assert(Node::opt_height(node.rhs) < Node::opt_height(*old(node_opt)));
                assert(!Node::opt_keys(old(node_opt).unwrap().lhs).contains(*value));
            }
            let removed = Self::remove(&mut node.rhs, value);
            *node_opt = Some(node);
            proof {
                assert(Node::opt_keys(*node_opt) =~= Node::opt_keys(*old(node_opt)).remove(
                    *value,
                ));
            }
            removed
        }
    }
}

impl BinaryTree {
    /// The set of keys stored in the tree.
    pub closed spec fn view(&self) -> Set<i64> {
        Node::opt_keys(self.root)
    }

    /// The binary-search-tree ordering invariant.
    pub closed spec fn well_formed(self) -> bool {
        Node::opt_wf(self.root)
    }

    pub fn new() -> (t: Self)
        ensures
            t.well_formed(),
            t@ == Set::<i64>::empty(),
    {
        Self { root: None }
    }

    /// Builds a tree by adding the elements of a slice in order.
    pub fn make_tree(array: &[i64]) -> (t: Self)
        ensures
            t.well_formed(),
            t@ == array@.to_set(),
    {
        let mut t = Self::new();
        let mut i: usize = 0;
        while i < array.len()
            invariant
                i <= array.len(),
                t.well_formed(),
                t@ == array@.subrange(0, i as int).to_set(),
            decreases array.len() - i,
        {
            t.add(array[i]);
            proof {
                let s1 = array@.subrange(0, i as int);
                let s2 = array@.subrange(0, (i + 1) as int);
                let x = array@[i as int];
                assert(s2 == s1.push(x));
                assert forall|k: i64| s2.to_set().contains(k) implies s1.to_set().insert(
                    x,
                ).contains(k) by {
                    let j = choose|j: int| 0 <= j < s2.len() && s2[j] == k;
                    if j < s1.len() {
                        assert(s1[j] == k);
                    } else {
                        assert(k == x);
                    }
                };
                assert forall|k: i64| s1.to_set().insert(x).contains(k) implies s2.to_set()
                    .contains(k) by {
                    if s1.contains(k) {
                        let j = choose|j: int| 0 <= j < s1.len() && s1[j] == k;
                        assert(s2[j] == k);
                    } else {
                        assert(s2[s1.len() as int] == x);
                        assert(s2.contains(x));
                    }
                };
                assert(s2.to_set() =~= s1.to_set().insert(x));
            }
            i += 1;
        }
        proof {
            assert(array@.subrange(0, array@.len() as int) == array@);
        }
        t
    }

    pub fn find(&self, value: &i64) -> (r: Option<&i64>)
        requires
            self.well_formed(),
        ensures
            match r {
                Some(v) => self@.contains(*value) && *v == *value,
                None => !self@.contains(*value),
            },
    {
        match &self.root {
            Some(root) => match root.find(value) {
                Some(n) => Some(&n.value),
                None => None,
            },
            None => None,
        }
    }

    pub fn add(&mut self, value: i64)
        requires
            old(self).well_formed(),
        ensures
            final(self).well_formed(),
            final(self)@ == old(self)@.insert(value),
            old(self)@.contains(value) ==> *final(self) == *old(self),
    {
        match self.root.take() {
            Some(mut root) => {
                (&mut *root).add(value);
                self.root = Some(root);
            }
            None => {
                self.root = Some(Box::new(Node::new(value)));
            }
        }
        assert(self@ =~= old(self)@.insert(value));
    }

    pub fn remove(&mut self, value: &i64) -> (r: Option<i64>)
        requires
            old(self).well_formed(),
        ensures
            final(self).well_formed(),
            final(self)@ == old(self)@.remove(*value),
            r == if old(self)@.contains(*value) {
                Some(*value)
            } else {
                Option::<i64>::None
            },
            !old(self)@.contains(*value) ==> *final(self) == *old(self),
    {
        let removed = Node::remove(&mut self.root, value);
        assert(self@ =~= old(self)@.remove(*value));
        match removed {
            Some(n) => Some(n.value),
            None => None,
        }
    }
}

} // verus!
