pub mod iter;
pub mod iter_mut;

use vstd::prelude::*;

verus! {

pub(crate) type Link<T> = Option<Box<Node<T>>>;

pub(crate) struct Node<T> {
    pub(crate) item: T,
    pub(crate) next: Link<T>,
}

/// The items a chain of nodes holds, head first.
pub(crate) open spec fn link_view<T>(link: Link<T>) -> Seq<T>
    decreases link,
{
    match link {
        None => Seq::empty(),
        Some(node) => seq![node.item] + link_view(node.next),
    }
}

/// A mutable, stack-like singly linked list: items are pushed and popped
/// at the head.
pub struct LinkedList<T> {
    head: Link<T>,
}

impl<T> View for LinkedList<T> {
    type V = Seq<T>;

    /// The list's items, head first.
    closed spec fn view(&self) -> Seq<T> {
        link_view(self.head)
    }
}

impl<T> LinkedList<T> {
    /// Creates an empty list.
    pub fn new() -> (list: Self)
        ensures
            list@ == Seq::<T>::empty(),
    {
        LinkedList { head: None }
    }

    /// Pushes an item to the head of the list.
    pub fn push(&mut self, item: T)
        ensures
            final(self)@ == seq![item] + old(self)@,
    {
        let new_node = Box::new(Node { item, next: self.head.take() });
        self.head = Some(new_node);
    }

    fn pop_link(&mut self) -> (link: Link<T>)
        ensures
            match link {
                Some(node) => old(self)@.len() > 0 && node.item == old(self)@[0]
                    && node.next is None && final(self)@ == old(self)@.drop_first(),
                None => old(self)@.len() == 0 && final(self)@ == old(self)@,
            },
    {
        match self.head.take() {
            None => None,
            Some(mut boxed_node) => {
                self.head = boxed_node.next.take();
                Some(boxed_node)
            },
        }
    }

    /// Removes the list's head and returns it, if it exists.
    pub fn pop(&mut self) -> (item: Option<T>)
        ensures
            match item {
                Some(popped) => old(self)@.len() > 0 && popped == old(self)@[0] && final(self)@
                    == old(self)@.drop_first(),
                None => old(self)@.len() == 0 && final(self)@ == old(self)@,
            },
    {
        match self.pop_link() {
            None => None,
            Some(node) => Some(node.item),
        }
    }

    /// Returns a shared reference to the list's head, if it exists.
    pub fn peek(&self) -> (item: Option<&T>)
        ensures
            match item {
                Some(head) => self@.len() > 0 && *head == self@[0],
                None => self@.len() == 0,
            },
    {
        match &self.head {
            None => None,
            Some(node) => Some(&node.item),
        }
    }

    /// Returns a mutable reference to the list's head, if it exists:
    /// whatever is written through it becomes the new head item.
    pub fn peek_mut(&mut self) -> (item: Option<&mut T>)
        ensures
            match item {
                Some(head) => old(self)@.len() > 0 && *head == old(self)@[0] && final(self)@
                    == old(self)@.update(0, *final(head)),
                None => old(self)@.len() == 0 && final(self)@ == old(self)@,
            },
    {
        match &mut self.head {
            None => None,
            Some(node) => Some(&mut node.item),
        }
    }
}

} // verus!
