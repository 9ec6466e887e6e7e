//! A first-in first-out queue over a singly linked list of owned nodes.
//!
//! The view of a queue is the sequence of its values in arrival order, so
//! `push` appends at the end of the view and `pop` removes its head.

use vstd::prelude::*;

verus! {

pub struct Queue<T> {
    head: Option<Box<Node<T>>>,
}

struct Node<T> {
    value: T,
    next: Option<Box<Node<T>>>,
}

impl<T> Node<T> {
    spec fn as_seq(self) -> Seq<T>
        decreases self,
    {
        match self.next {
            None => seq![self.value],
            Some(next) => seq![self.value] + next.as_seq(),
        }
    }

    spec fn opt_as_seq(node_opt: Option<Box<Node<T>>>) -> Seq<T> {
        match node_opt {
            None => Seq::empty(),
            Some(node) => node.as_seq(),
        }
    }

    fn new(value: T) -> (n: Self)
        ensures
            n.value == value,
            n.next is None,
    {
        Self { value, next: None }
    }

    /// Appends a value at the tail of the list hanging off this node.
    fn push(&mut self, value: T)
        ensures
            final(self).as_seq() == old(self).as_seq().push(value),
        decreases *old(self),
    {
        match self.next.take() {
            Some(mut next) => {
                (&mut *next).push(value);
                self.next = Some(next);
                assert(self.as_seq() =~= old(self).as_seq().push(value));
            }
            None => {
                self.next = Some(Box::new(Node::new(value)));
                assert(self.next.unwrap().as_seq() == seq![value]);
                assert(self.as_seq() =~= old(self).as_seq().push(value));
            }
        }
    }
}

impl<T> Queue<T> {
    /// The queued values, the longest-waiting value first.
    pub closed spec fn view(&self) -> Seq<T> {
        Node::opt_as_seq(self.head)
    }

    pub fn new() -> (q: Self)
        ensures
            q@ == Seq::<T>::empty(),
    {
        Self { head: None }
    }

    pub fn peek(&self) -> (r: Option<&T>)
        ensures
            match r {
                Some(v) => self@.len() > 0 && *v == self@[0],
                None => self@.len() == 0,
            },
    {
        match &self.head {
            Some(h) => Some(&h.value),
            None => None,
        }
    }

    pub fn push(&mut self, value: T)
        ensures
            final(self)@ == old(self)@.push(value),
    {
        match self.head.take() {
            None => {
                self.head = Some(Box::new(Node::new(value)));
                assert(self@ =~= old(self)@.push(value));
            }
            Some(mut h) => {
                (&mut *h).push(value);
                self.head = Some(h);
            }
        }
    }

    pub fn pop(&mut self) -> (r: Option<T>)
        ensures
            match r {
                Some(v) => old(self)@.len() > 0 && v == old(self)@[0]
                    && final(self)@ == old(self)@.drop_first(),
                None => old(self)@.len() == 0 && final(self)@ == old(self)@,
            },
    {
        match self.head.take() {
            Some(ret) => {
                self.head = ret.next;
                assert(self@ =~= old(self)@.drop_first());
                Some(ret.value)
            }
            None => None,
        }
    }
}

} // verus!
