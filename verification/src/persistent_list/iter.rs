use crate::persistent_list::{link_view, LinkedList, Node};
use vstd::prelude::*;

verus! {

/// A shared traversal over a persistent list's items, head first.
pub struct Iter<'a, T> {
    next: Option<&'a Node<T>>,
}

impl<T> LinkedList<T> {
    /// Opens a shared traversal over the list's items.
    pub fn iter(&self) -> (it: Iter<T>)
        ensures
            it.remaining() == self@,
    {
        Iter {
            next: match &self.head {
                None => None,
                Some(node) => Some(&**node),
            },
        }
    }
}

impl<'a, T> Iter<'a, T> {
    /// The items this traversal has yet to yield.
    pub closed spec fn remaining(&self) -> Seq<T> {
        match self.next {
            None => Seq::empty(),
            Some(node) => seq![node.item] + link_view(node.next),
        }
    }

    /// Yields a reference to the next item, front to back.
    pub fn next(&mut self) -> (item: Option<&'a T>)
        ensures
            match item {
                Some(yielded) => old(self).remaining().len() > 0 && *yielded == old(
                    self,
                ).remaining()[0] && final(self).remaining() == old(self).remaining().drop_first(),
                None => old(self).remaining().len() == 0 && final(self).remaining() == old(
                    self,
                ).remaining(),
            },
    {
        match self.next {
            None => None,
            Some(node) => {
                self.next = match &node.next {
                    None => None,
                    Some(next_node) => Some(&**next_node),
                };
                Some(&node.item)
            },
        }
    }
}

} // verus!
