//! A last-in first-out stack over a singly linked list of owned nodes.
//!
//! The view of a stack is the sequence of its values with the most recently
//! pushed value first, so `pop` returns the head of the view.

use vstd::prelude::*;

verus! {

pub struct Stack<T> {
    cur: Option<Box<Node<T>>>,
}

struct Node<T> {
    value: T,
    prev: Option<Box<Node<T>>>,
}

impl<T> Node<T> {
    fn new(value: T, prev: Option<Box<Node<T>>>) -> (n: Self)
        ensures
            n.value == value,
            n.prev == prev,
    {
        Self { value, prev }
    }

    spec fn as_seq(node_opt: Option<Box<Node<T>>>) -> Seq<T>
        decreases node_opt,
    {
        match node_opt {
            None => Seq::empty(),
            Some(node) => seq![node.value] + Node::as_seq(node.prev),
        }
    }
}

impl<T> Stack<T> {
    /// The values on the stack, most recently pushed first.
    pub closed spec fn view(&self) -> Seq<T> {
        Node::as_seq(self.cur)
    }

    pub fn new() -> (s: Self)
        ensures
            s@ == Seq::<T>::empty(),
    {
        Self { cur: None }
    }

    pub fn peek(&self) -> (r: Option<&T>)
        ensures
            match r {
                Some(v) => self@.len() > 0 && *v == self@[0],
                None => self@.len() == 0,
            },
    {
        match &self.cur {
            Some(node) => Some(&node.value),
            None => None,
        }
    }

    pub fn push(&mut self, value: T)
        ensures
            final(self)@ == seq![value] + old(self)@,
    {
        self.cur = Some(Box::new(Node::new(value, self.cur.take())));
    }

    pub fn pop(&mut self) -> (r: Option<T>)
        ensures
            match r {
                Some(v) => old(self)@.len() > 0 && v == old(self)@[0]
                    && final(self)@ == old(self)@.drop_first(),
                None => old(self)@.len() == 0 && final(self)@ == old(self)@,
            },
    {
        match self.cur.take() {
            Some(cur) => {
                self.cur = cur.prev;
                assert(self@ =~= old(self)@.drop_first());
                Some(cur.value)
            }
            None => None,
        }
    }
}

} // verus!
