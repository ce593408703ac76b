pub mod iter;

use std::rc::Rc;
use vstd::prelude::*;

verus! {

pub(crate) type Link<T> = Option<Rc<Node<T>>>;

pub(crate) struct Node<T> {
    pub(crate) item: T,
    pub(crate) next: Link<T>,
}

/// The items a chain of shared nodes holds, head first.
pub(crate) open spec fn link_view<T>(link: Link<T>) -> Seq<T>
    decreases link,
{
    match link {
        None => Seq::empty(),
        Some(node) => seq![node.item] + link_view(node.next),
    }
}

/// An immutable, persistent stack-like linked list. Lists built from one
/// another share their nodes in memory, so prepending and taking tails
/// never copies items.
pub struct LinkedList<T> {
    head: Link<T>,
}

impl<T> View for LinkedList<T> {
    type V = Seq<T>;

    /// The list's items, head first.
    closed spec fn view(&self) -> Seq<T> {
        link_view(self.head)
    }
}

fn clone_link<T>(link: &Link<T>) -> (duplicate: Link<T>)
    ensures
        link_view(duplicate) == link_view(*link),
{
    match link {
        None => None,
        Some(node) => Some(Rc::clone(node)),
    }
}

impl<T> LinkedList<T> {
    /// Creates an empty immutable list.
    pub fn new() -> (list: Self)
        ensures
            list@ == Seq::<T>::empty(),
    {
        LinkedList { head: None }
    }

    /// Creates a new list from the current one with the item prepended to
    /// the beginning. The current list is untouched and shares its nodes
    /// with the new one.
    pub fn prepend(&self, item: T) -> (list: Self)
        ensures
            list@ == seq![item] + self@,
    {
        let new_node = Rc::new(Node { item, next: clone_link(&self.head) });
        LinkedList { head: Some(new_node) }
    }

    /// Creates a new list which excludes the head of the current one.
    pub fn tail(&self) -> (list: Self)
        ensures
            self@.len() > 0 ==> list@ == self@.drop_first(),
            self@.len() == 0 ==> list@ == Seq::<T>::empty(),
    {
        match &self.head {
            None => LinkedList { head: None },
            Some(node) => LinkedList { head: clone_link(&node.next) },
        }
    }

    /// Returns a reference to the list's head, if it exists.
    pub fn head(&self) -> (item: Option<&T>)
        ensures
            match item {
                Some(head) => self@.len() > 0 && *head == self@[0],
                None => self@.len() == 0,
            },
    {
        match &self.head {
            None => None,
            Some(node) => Some(&node.item),
        }
    }
}

} // verus!
