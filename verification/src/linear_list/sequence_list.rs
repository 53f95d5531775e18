//! A bounded list over the first slots of a raw buffer.

use crate::raw::RawArray;
use vstd::prelude::*;

verus! {

/// A list with a capacity fixed at construction. Its elements occupy the
/// first `len` slots of a raw buffer; the slots behind them are vacant.
pub struct SequenceList<T> {
    raw: RawArray<T>,
    len: usize,
}

impl<T> View for SequenceList<T> {
    type V = Seq<T>;

    /// The elements in index order.
    closed spec fn view(&self) -> Seq<T> {
        Seq::new(self.len as nat, |i: int| self.raw@[i]->0)
    }
}

impl<T> SequenceList<T> {
    /// The live slots are exactly the prefix `[0, len)` of the buffer.
    pub closed spec fn wf(&self) -> bool {
        &&& self.raw.wf()
        &&& self.len <= self.raw.cap
        &&& self.raw.live_in(0, self.len as int)
        &&& self.raw.vacant_in(self.len as int, self.raw.cap as int)
    }

    /// The number of elements the list can hold.
    pub closed spec fn spec_capacity(&self) -> nat {
        self.raw.cap as nat
    }

    /// A well-formed list never holds more than its capacity.
    pub proof fn lemma_len_le_capacity(&self)
        requires
            self.wf(),
        ensures
            self@.len() <= self.spec_capacity(),
    {
    }

    /// Inserting at a position and then removing at that position returns
    /// what was inserted and leaves the elements as they were.
    pub proof fn lemma_insert_then_remove(elems: Seq<T>, index: int, elem: T)
        requires
            0 <= index <= elems.len(),
        ensures
            elems.insert(index, elem)[index] == elem,
            elems.insert(index, elem).remove(index) == elems,
    {
        assert(elems.insert(index, elem).remove(index) =~= elems);
    }

    /// An empty list that can hold `capacity` elements.
    pub fn new(capacity: usize) -> (list: Self)
        requires
            RawArray::<T>::spec_fits(capacity),
        ensures
            list.wf(),
            list@ == Seq::<T>::empty(),
            list.spec_capacity() == capacity,
    {
        let raw = RawArray::allocate(capacity);
        let list = Self { raw, len: 0 };
        assert(list@ =~= Seq::<T>::empty());
        list
    }

    /// An empty list that can hold `capacity` elements, or `None` if that
    /// many slots do not fit in one allocation.
    pub fn try_new(capacity: usize) -> (list: Option<Self>)
        ensures
            list is Some <==> RawArray::<T>::spec_fits(capacity),
            list matches Some(l) ==> l.wf() && l@ == Seq::<T>::empty() && l.spec_capacity()
                == capacity,
    {
        if RawArray::<T>::fits(capacity) {
            Some(Self::new(capacity))
        } else {
            None
        }
    }

    /// Whether the list holds no element.
    pub fn is_empty(&self) -> (empty: bool)
        requires
            self.wf(),
        ensures
            empty == (self@.len() == 0),
    {
        self.len == 0
    }

    /// The number of elements the list holds.
    pub fn len(&self) -> (len: usize)
        requires
            self.wf(),
        ensures
            len == self@.len(),
    {
        self.len
    }

    /// The number of elements the list can hold.
    pub fn capacity(&self) -> (capacity: usize)
        requires
            self.wf(),
        ensures
            capacity == self.spec_capacity(),
    {
        self.raw.cap
    }

    /// Appends `elem`. The list must not be full.
    pub fn push(&mut self, elem: T)
        requires
            old(self).wf(),
            old(self)@.len() < old(self).spec_capacity(),
        ensures
            final(self).wf(),
            final(self).spec_capacity() == old(self).spec_capacity(),
            final(self)@ == old(self)@.push(elem),
    {
        self.raw.write(self.len, elem);
        self.len = self.len + 1;
        assert(self@ =~= old(self)@.push(elem));
    }

    /// Removes and returns the last element, or `None` if the list is empty.
    pub fn pop(&mut self) -> (elem: Option<T>)
        requires
            old(self).wf(),
        ensures
            final(self).wf(),
            final(self).spec_capacity() == old(self).spec_capacity(),
            old(self)@.len() == 0 ==> elem is None && final(self)@ == old(self)@,
            old(self)@.len() > 0 ==> elem == Some(old(self)@.last()) && final(self)@ == old(
                self,
            )@.drop_last(),
    {
        if self.len == 0 {
            return None;
        }
        self.len = self.len - 1;
        let elem = self.raw.read(self.len);
        assert(self@ =~= old(self)@.drop_last());
        Some(elem)
    }

    /// Drops every element. The capacity stays as it is.
    pub fn clear(&mut self)
        requires
            old(self).wf(),
        ensures
            final(self).wf(),
            final(self).spec_capacity() == old(self).spec_capacity(),
            final(self)@ == Seq::<T>::empty(),
    {
        let len = self.len;
        self.len = 0;
        self.raw.drop_run(0, len);
        assert(self@ =~= Seq::<T>::empty());
    }

    /// Puts `elem` at position `index`, shifting the elements from `index`
    /// on one place to the right. `index` may be the length; the list must
    /// not be full.
    pub fn insert(&mut self, index: usize, elem: T)
        requires
            old(self).wf(),
            index <= old(self)@.len(),
            old(self)@.len() < old(self).spec_capacity(),
        ensures
            final(self).wf(),
            final(self).spec_capacity() == old(self).spec_capacity(),
            final(self)@ == old(self)@.insert(index as int, elem),
    {
        let count = self.len - index;
        self.raw.move_run(index, index + 1, count);
        self.raw.write(index, elem);
        self.len = self.len + 1;
        assert(self@ =~= old(self)@.insert(index as int, elem));
    }

    /// Takes out and returns the element at position `index`, shifting the
    /// elements behind it one place to the left.
    pub fn remove(&mut self, index: usize) -> (elem: T)
        requires
            old(self).wf(),
            index < old(self)@.len(),
        ensures
            final(self).wf(),
            final(self).spec_capacity() == old(self).spec_capacity(),
            elem == old(self)@[index as int],
            final(self)@ == old(self)@.remove(index as int),
    {
        let count = self.len - 1 - index;
        let elem = self.raw.read(index);
        self.raw.move_run(index + 1, index, count);
        self.len = self.len - 1;
        assert(self@ =~= old(self)@.remove(index as int));
        elem
    }

    /// Borrows the element at position `idx` for writing. The list holds
    /// afterwards whatever the caller leaves behind the reference.
    pub fn get_mut(&mut self, idx: usize) -> (elem: &mut T)
        requires
            old(self).wf(),
            idx < old(self)@.len(),
        ensures
            *elem == old(self)@[idx as int],
            final(self).wf(),
            final(self).spec_capacity() == old(self).spec_capacity(),
            final(self)@ == old(self)@.update(idx as int, *final(elem)),
    {
        self.raw.get_mut(idx)
    }

    /// Turns the list into an iterator that owns its elements and yields
    /// them from either end.
    pub fn into_iter(self) -> (iter: IterOwned<T>)
        requires
            self.wf(),
        ensures
            iter.wf(),
            iter@ == self@,
    {
        let len = self.len;
        let iter = IterOwned { raw: self.raw, head: 0, tail: len, len };
        assert(iter@ =~= self@);
        iter
    }
}

impl<T> vstd::std_specs::core::IndexSpecImpl<usize> for SequenceList<T> {
    /// Indexing needs a position below the length.
    open spec fn index_req(&self, index: &usize) -> bool {
        self.wf() && *index < self@.len()
    }
}

impl<T> core::ops::Index<usize> for SequenceList<T> {
    type Output = T;

    /// Borrows the element at position `idx`.
    fn index(&self, idx: usize) -> (elem: &T)
        ensures
            *elem == self@[idx as int],
    {
        self.raw.get(idx)
    }
}

/// An iterator that has taken over a list's buffer. The elements it has not
/// yet yielded occupy the slots `[head, tail)`.
pub struct IterOwned<T> {
    raw: RawArray<T>,
    head: usize,
    tail: usize,
    len: usize,
}

impl<T> View for IterOwned<T> {
    type V = Seq<T>;

    /// The elements not yet yielded, front to back.
    closed spec fn view(&self) -> Seq<T> {
        Seq::new(self.len as nat, |i: int| self.raw@[self.head + i]->0)
    }
}

impl<T> IterOwned<T> {
    /// The live slots of the buffer are exactly `[head, tail)`.
    pub closed spec fn wf(&self) -> bool {
        &&& self.raw.wf()
        &&& self.head + self.len == self.tail
        &&& self.tail <= self.raw.cap
        &&& self.raw.vacant_in(0, self.head as int)
        &&& self.raw.live_in(self.head as int, self.tail as int)
        &&& self.raw.vacant_in(self.tail as int, self.raw.cap as int)
    }

    /// Yields the first of the remaining elements.
    pub fn next(&mut self) -> (elem: Option<T>)
        requires
            old(self).wf(),
        ensures
            final(self).wf(),
            old(self)@.len() == 0 ==> elem is None && final(self)@ == old(self)@,
            old(self)@.len() > 0 ==> elem == Some(old(self)@.first()) && final(self)@ == old(
                self,
            )@.drop_first(),
    {
        if self.len == 0 {
            None
        } else {
            let elem = self.raw.read(self.head);
            self.head = self.head + 1;
            self.len = self.len - 1;
            assert(self@ =~= old(self)@.drop_first());
            Some(elem)
        }
    }

    /// Yields the last of the remaining elements.
    pub fn next_back(&mut self) -> (elem: Option<T>)
        requires
            old(self).wf(),
        ensures
            final(self).wf(),
            old(self)@.len() == 0 ==> elem is None && final(self)@ == old(self)@,
            old(self)@.len() > 0 ==> elem == Some(old(self)@.last()) && final(self)@ == old(
                self,
            )@.drop_last(),
    {
        if self.len == 0 {
            None
        } else {
            self.tail = self.tail - 1;
            self.len = self.len - 1;
            let elem = self.raw.read(self.tail);
            assert(self@ =~= old(self)@.drop_last());
            Some(elem)
        }
    }

    /// The number of elements not yet yielded.
    pub fn len(&self) -> (len: usize)
        requires
            self.wf(),
        ensures
            len == self@.len(),
    {
        self.len
    }

    /// Lower and upper bound of the number of elements still to come; both
    /// are exact.
    pub fn size_hint(&self) -> (hint: (usize, Option<usize>))
        requires
            self.wf(),
        ensures
            hint.0 == self@.len(),
            hint.1 == Some(self@.len() as usize),
    {
        (self.len, Some(self.len))
    }
}

} // verus!
