//! A last-in, first-out stack over a vector.

use std::slice::Iter;
use vstd::prelude::*;
use vstd::std_specs::iter::IteratorSpec;

verus! {

/// What `<[T]>::iter_mut` hands out: a cursor over mutable borrows of a
/// slice's elements.
#[verifier::external_type_specification]
#[verifier::external_body]
#[verifier::reject_recursive_types(Elem)]
pub struct ExIterMut<'a, Elem: 'a>(std::slice::IterMut<'a, Elem>);

/// Calls `<[T]>::iter_mut` on the elements of `elems`. What is claimed of the
/// cursor it returns is taken on trust: the items it has to yield are one
/// mutable borrow for each element, first element first, each borrow
/// standing for the element as it is now; and when the cursor is gone the
/// vector has as many elements as before, each being what was left behind
/// the borrow of it.
#[verifier::external_body]
fn slice_iter_mut<'a, T>(elems: &'a mut Vec<T>) -> (iter: std::slice::IterMut<'a, T>)
    ensures
        iter.remaining().len() == old(elems)@.len(),
        forall|i: int|
            0 <= i < old(elems)@.len() ==> *(#[trigger] iter.remaining()[i]) == old(elems)@[i],
        final(elems)@.len() == old(elems)@.len(),
        forall|i: int|
            0 <= i < old(elems)@.len() ==> #[trigger] final(elems)@[i] == *final(iter.remaining()[i]),
{
    elems.iter_mut()
}

/// A last-in, first-out stack without a bound on its height.
pub struct VecStack<T>(Vec<T>);

impl<T> View for VecStack<T> {
    type V = Seq<T>;

    /// The elements from the bottom of the stack to its top.
    closed spec fn view(&self) -> Seq<T> {
        self.0@
    }
}

impl<T> VecStack<T> {
    /// An empty stack.
    pub fn new() -> (stack: Self)
        ensures
            stack@ == Seq::<T>::empty(),
    {
        Self(Vec::new())
    }

    /// Drops every element.
    pub fn clear(&mut self)
        ensures
            final(self)@ == Seq::<T>::empty(),
    {
        self.0.clear()
    }

    /// Whether the stack holds no element.
    pub fn is_empty(&self) -> (empty: bool)
        ensures
            empty == (self@.len() == 0),
    {
        self.0.is_empty()
    }

    /// The number of elements on the stack.
    pub fn len(&self) -> (len: usize)
        ensures
            len == self@.len(),
    {
        self.0.len()
    }

    /// Borrows the element on top, or `None` if the stack is empty.
    pub fn top(&self) -> (elem: Option<&T>)
        ensures
            self@.len() == 0 ==> elem is None,
            self@.len() > 0 ==> elem == Some(&self@.last()),
    {
        self.0.last()
    }

    /// Puts `elem` on top.
    pub fn push(&mut self, elem: T)
        ensures
            final(self)@ == old(self)@.push(elem),
    {
        self.0.push(elem)
    }

    /// Takes the element on top off the stack and returns it, or returns
    /// `None` if the stack is empty.
    pub fn pop(&mut self) -> (elem: Option<T>)
        ensures
            old(self)@.len() == 0 ==> elem is None && final(self)@ == old(self)@,
            old(self)@.len() > 0 ==> elem == Some(old(self)@.last()) && final(self)@ == old(
                self,
            )@.drop_last(),
    {
        let elem = self.0.pop();
        assert(old(self)@.len() > 0 ==> self@ =~= old(self)@.drop_last());
        elem
    }

    /// A cursor that borrows the elements from the bottom of the stack to
    /// its top.
    pub fn iter(&self) -> (iter: Iter<'_, T>)
        ensures
            iter.remaining() == self@.as_ref(),
    {
        self.0.iter()
    }

    /// A cursor that borrows the elements for writing, from the bottom of
    /// the stack to its top. The height of the stack stays as it is, and each
    /// element is afterwards what the caller left behind the borrow of it.
    pub fn iter_mut(&mut self) -> (iter: std::slice::IterMut<'_, T>)
        ensures
            iter.remaining().len() == old(self)@.len(),
            forall|i: int|
                0 <= i < old(self)@.len() ==> *(#[trigger] iter.remaining()[i]) == old(self)@[i],
            final(self)@.len() == old(self)@.len(),
            forall|i: int|
                0 <= i < old(self)@.len() ==> #[trigger] final(self)@[i] == *final(iter.remaining()[i]),
    {
        slice_iter_mut(&mut self.0)
    }

    /// Gives up the stack for the vector of its elements, bottom first.
    pub fn into_vec(self) -> (elems: Vec<T>)
        ensures
            elems@ == self@,
    {
        self.0
    }
}

} // verus!
