//! A first-in, first-out queue over the linked list.

use crate::linear_list::LinkedList;
use vstd::prelude::*;

verus! {

/// A first-in, first-out queue without a bound on its length: elements enter
/// at the back of a linked list and leave at its front.
pub struct LinkedQueue<T>(LinkedList<T>);

impl<T> View for LinkedQueue<T> {
    type V = Seq<T>;

    /// The elements in the order in which they will leave.
    closed spec fn view(&self) -> Seq<T> {
        self.0@
    }
}

impl<T> LinkedQueue<T> {
    /// The list behind the queue is well-formed.
    pub closed spec fn wf(&self) -> bool {
        self.0.wf()
    }

    /// An empty queue.
    pub fn new() -> (queue: Self)
        ensures
            queue.wf(),
            queue@ == Seq::<T>::empty(),
    {
        Self(LinkedList::new())
    }

    /// Drops every element.
    pub fn clear(&mut self)
        requires
            old(self).wf(),
        ensures
            final(self).wf(),
            final(self)@ == Seq::<T>::empty(),
    {
        self.0.clear()
    }

    /// Whether the queue holds no element.
    pub fn is_empty(&self) -> (empty: bool)
        requires
            self.wf(),
        ensures
            empty == (self@.len() == 0),
    {
        self.0.is_empty()
    }

    /// The number of elements the queue holds.
    pub fn len(&self) -> (len: usize)
        requires
            self.wf(),
        ensures
            len == self@.len(),
    {
        self.0.len()
    }

    /// Borrows the element that will leave next, or `None` if the queue is
    /// empty.
    pub fn front(&self) -> (elem: Option<&T>)
        requires
            self.wf(),
        ensures
            self@.len() == 0 ==> elem is None,
            self@.len() > 0 ==> elem == Some(&self@.first()),
    {
        self.0.front()
    }

    /// Lets `elem` enter at the back.
    pub fn push(&mut self, elem: T)
        requires
            old(self).wf(),
        ensures
            final(self).wf(),
            final(self)@ == old(self)@.push(elem),
    {
        self.0.push_back(elem)
    }

    /// Lets the element at the front leave and returns it, or returns `None`
    /// if the queue is empty.
    pub fn pop(&mut self) -> (elem: Option<T>)
        requires
            old(self).wf(),
        ensures
            final(self).wf(),
            old(self)@.len() == 0 ==> elem is None && final(self)@ == old(self)@,
            old(self)@.len() > 0 ==> elem == Some(old(self)@.first()) && final(self)@ == old(
                self,
            )@.drop_first(),
    {
        self.0.pop_front()
    }

    /// Gives up the queue for the list behind it.
    pub fn into_linked_list(self) -> (list: LinkedList<T>)
        requires
            self.wf(),
        ensures
            list.wf(),
            list@ == self@,
    {
        self.0
    }
}

} // verus!
