use crate::linked_list::{link_view, LinkedList, Node};
use vstd::prelude::*;

verus! {

/// A mutable traversal over a list's items, head first: each yielded
/// reference rebinds one item in place.
pub struct IterMut<'a, T> {
    next: Option<&'a mut Node<T>>,
}

impl<T> LinkedList<T> {
    /// Opens a mutable traversal over the list's items.
    pub fn iter_mut(&mut self) -> (it: IterMut<T>)
        ensures
            it.remaining() == old(self)@,
    {
        IterMut {
            next: match &mut self.head {
                None => None,
                Some(boxed_node) => Some(&mut **boxed_node),
            },
        }
    }
}

impl<'a, T> IterMut<'a, T> {
    /// The items this traversal has yet to yield.
    pub closed spec fn remaining(&self) -> Seq<T> {
        match self.next {
            None => Seq::empty(),
            Some(node) => seq![node.item] + link_view(node.next),
        }
    }

    /// Yields a writable reference to the next item, front to back.
    pub fn next(&mut self) -> (item: Option<&'a mut T>)
        ensures
            match item {
                Some(yielded) => old(self).remaining().len() > 0 && *yielded == old(
                    self,
                ).remaining()[0] && final(self).remaining() == old(self).remaining().drop_first(),
                None => old(self).remaining().len() == 0 && final(self).remaining() == old(
                    self,
                ).remaining(),
            },
    {
        match self.next.take() {
            None => None,
            Some(node) => {
                self.next = match &mut node.next {
                    None => None,
                    Some(boxed_node) => Some(&mut **boxed_node),
                };
                Some(&mut node.item)
            },
        }
    }
}

} // verus!
