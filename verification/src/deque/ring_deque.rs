//! A bounded double-ended queue over a window of a raw buffer that wraps
//! round at the end of the buffer.

use crate::raw::RawArray;
use crate::trace::full;
use vstd::arithmetic::div_mod::{lemma_mod_sub_multiples_vanish, lemma_small_mod};
use vstd::prelude::*;

verus! {

/// The slot that lies `k` places behind slot `head` in a ring of `cap`
/// slots, for `0 <= head < cap` and `0 <= k <= cap`.
pub open spec fn ring_slot(head: int, k: int, cap: int) -> int {
    if head + k < cap {
        head + k
    } else {
        head + k - cap
    }
}

/// Walking a ring is arithmetic modulo its capacity.
pub proof fn lemma_ring_slot_is_mod(head: int, k: int, cap: int)
    requires
        0 <= head < cap,
        0 <= k <= cap,
    ensures
        ring_slot(head, k, cap) == (head + k) % cap,
        0 <= ring_slot(head, k, cap) < cap,
{
    if head + k < cap {
        lemma_small_mod((head + k) as nat, cap as nat);
    } else {
        lemma_small_mod((head + k - cap) as nat, cap as nat);
        lemma_mod_sub_multiples_vanish(head + k, cap);
    }
}

/// The slot after `index`, wrapping from the last slot to the first.
pub fn step_forward(index: usize, cap: usize) -> (next: usize)
    requires
        index < cap,
    ensures
        next == ring_slot(index as int, 1, cap as int),
        next == (index + 1) % (cap as int),
        next < cap,
{
    proof {
        lemma_ring_slot_is_mod(index as int, 1, cap as int);
    }
    if index + 1 == cap {
        0
    } else {
        index + 1
    }
}

/// The slot before `index`, wrapping from the first slot to the last.
pub fn step_back(index: usize, cap: usize) -> (prev: usize)
    requires
        index < cap,
    ensures
        prev == ring_slot(index as int, cap - 1, cap as int),
        prev == (index + cap - 1) % (cap as int),
        prev < cap,
{
    proof {
        lemma_ring_slot_is_mod(index as int, cap - 1, cap as int);
    }
    if index == 0 {
        cap - 1
    } else {
        index - 1
    }
}

/// A double-ended queue with a capacity fixed at construction. Its elements
/// occupy a window of `len` slots of a raw buffer that starts at `head` and
/// wraps round at the end of the buffer; `tail` is the slot that the next
/// element pushed at the back goes to.
pub struct RingDeque<T> {
    raw: RawArray<T>,
    head: usize,
    tail: usize,
    len: usize,
}

impl<T> View for RingDeque<T> {
    type V = Seq<T>;

    /// The elements from front to back.
    closed spec fn view(&self) -> Seq<T> {
        Seq::new(self.len as nat, |k: int| self.raw@[self.slot(k)]->0)
    }
}

impl<T> RingDeque<T> {
    /// The slot of the element `k` places behind the front.
    spec fn slot(&self, k: int) -> int {
        ring_slot(self.head as int, k, self.raw.cap as int)
    }

    /// The live slots are exactly the `len` slots from `head` on, and `tail`
    /// is the slot behind them.
    pub closed spec fn wf(&self) -> bool {
        &&& self.raw.wf()
        &&& self.len <= self.raw.cap
        &&& self.raw.cap == 0 ==> self.head == 0 && self.tail == 0
        &&& self.raw.cap > 0 ==> self.head < self.raw.cap && self.tail == self.slot(self.len as int)
        &&& forall|k: int|
            0 <= k < self.len ==> self.raw@[#[trigger] ring_slot(
                self.head as int,
                k,
                self.raw.cap as int,
            )] is Some
        &&& forall|k: int|
            self.len <= k < self.raw.cap ==> self.raw@[#[trigger] ring_slot(
                self.head as int,
                k,
                self.raw.cap as int,
            )] is None
    }

    /// The number of elements the deque can hold.
    pub closed spec fn spec_capacity(&self) -> nat {
        self.raw.cap as nat
    }

    /// The deque holds as many elements as it can.
    pub open spec fn spec_is_full(&self) -> bool {
        full(self@, self.spec_capacity())
    }

    /// A well-formed deque never holds more than its capacity.
    pub proof fn lemma_len_le_capacity(&self)
        requires
            self.wf(),
        ensures
            self@.len() <= self.spec_capacity(),
    {
    }

    /// An empty deque that can hold `capacity` elements.
    pub fn new(capacity: usize) -> (deque: Self)
        requires
            RawArray::<T>::spec_fits(capacity),
        ensures
            deque.wf(),
            deque@ == Seq::<T>::empty(),
            deque.spec_capacity() == capacity,
    {
        let raw = RawArray::allocate(capacity);
        let deque = Self { raw, head: 0, tail: 0, len: 0 };
        assert(deque@ =~= Seq::<T>::empty());
        deque
    }

    /// An empty deque that can hold `capacity` elements, or `None` if that
    /// many slots do not fit in one allocation.
    pub fn try_new(capacity: usize) -> (deque: Option<Self>)
        ensures
            deque is Some <==> RawArray::<T>::spec_fits(capacity),
            deque matches Some(d) ==> d.wf() && d@ == Seq::<T>::empty() && d.spec_capacity()
                == capacity,
    {
        if RawArray::<T>::fits(capacity) {
            Some(Self::new(capacity))
        } else {
            None
        }
    }

    /// Whether the deque holds no element.
    pub fn is_empty(&self) -> (empty: bool)
        requires
            self.wf(),
        ensures
            empty == (self@.len() == 0),
    {
        self.len == 0
    }

    /// Whether the deque holds as many elements as it can.
    pub fn is_full(&self) -> (full: bool)
        requires
            self.wf(),
        ensures
            full == self.spec_is_full(),
    {
        self.len == self.raw.cap
    }

    /// The number of elements the deque holds.
    pub fn len(&self) -> (len: usize)
        requires
            self.wf(),
        ensures
            len == self@.len(),
    {
        self.len
    }

    /// The number of elements the deque can hold.
    pub fn capacity(&self) -> (capacity: usize)
        requires
            self.wf(),
        ensures
            capacity == self.spec_capacity(),
    {
        self.raw.cap
    }

    /// Drops every element: the one run of slots that the window covers, or
    /// the two runs at the end and at the start of the buffer if the window
    /// wraps. The capacity stays as it is.
    pub fn clear(&mut self)
        requires
            old(self).wf(),
        ensures
            final(self).wf(),
            final(self).spec_capacity() == old(self).spec_capacity(),
            final(self)@ == Seq::<T>::empty(),
    {
        if self.is_empty() {
            assert(self@ =~= Seq::<T>::empty());
            return ;
        }
        if self.len <= self.raw.cap - self.head {
            self.raw.drop_run(self.head, self.len);
        } else {
            self.raw.drop_run(self.head, self.raw.cap - self.head);
            self.raw.drop_run(0, self.tail);
        }
        proof {
            let cap = self.raw.cap as int;
            let head = old(self).head as int;
            assert forall|i: int| 0 <= i < cap implies (#[trigger] self.raw@[i]) is None by {
                let k = if i >= head {
                    i - head
                } else {
                    i - head + cap
                };
                assert(old(self).slot(k) == i);
                if k >= old(self).len {
                    assert(old(self).raw@[old(self).slot(k)] is None);
                }
            }
        }
        self.head = 0;
        self.tail = 0;
        self.len = 0;
        assert(self@ =~= Seq::<T>::empty());
    }

    /// Appends `elem` at the back. The deque must not be full.
    pub fn push_back(&mut self, elem: T)
        requires
            old(self).wf(),
            !old(self).spec_is_full(),
        ensures
            final(self).wf(),
            final(self).spec_capacity() == old(self).spec_capacity(),
            final(self)@ == old(self)@.push(elem),
    {
        let ghost head = self.head as int;
        let ghost cap = self.raw.cap as int;
        assert(self.raw@[ring_slot(head, self.len as int, cap)] is None);
        self.raw.write(self.tail, elem);
        self.tail = step_forward(self.tail, self.raw.cap);
        self.len = self.len + 1;
        proof {
            assert forall|k: int| 0 <= k < self.len implies self.raw@[#[trigger] ring_slot(
                head,
                k,
                cap,
            )] is Some by {
                if k < old(self).len {
                    assert(old(self).raw@[ring_slot(head, k, cap)] is Some);
                }
            }
            assert(self@ =~= old(self)@.push(elem));
        }
    }

    /// Puts `elem` in front of the first element. The deque must not be full.
    pub fn push_front(&mut self, elem: T)
        requires
            old(self).wf(),
            !old(self).spec_is_full(),
        ensures
            final(self).wf(),
            final(self).spec_capacity() == old(self).spec_capacity(),
            final(self)@ == seq![elem] + old(self)@,
    {
        let ghost head = self.head as int;
        let ghost cap = self.raw.cap as int;
        assert(self.raw@[ring_slot(head, cap - 1, cap)] is None);
        self.head = step_back(self.head, self.raw.cap);
        self.raw.write(self.head, elem);
        self.len = self.len + 1;
        proof {
            let new_head = self.head as int;
            assert forall|k: int| 0 < k < cap implies #[trigger] ring_slot(new_head, k, cap)
                == ring_slot(head, k - 1, cap) by {}
            assert forall|k: int| 0 <= k < self.len implies self.raw@[#[trigger] ring_slot(
                new_head,
                k,
                cap,
            )] is Some by {
                if k > 0 {
                    assert(old(self).raw@[ring_slot(head, k - 1, cap)] is Some);
                }
            }
            assert forall|k: int| self.len <= k < cap implies self.raw@[#[trigger] ring_slot(
                new_head,
                k,
                cap,
            )] is None by {
                assert(old(self).raw@[ring_slot(head, k - 1, cap)] is None);
            }
            assert(self@ =~= seq![elem] + old(self)@);
        }
    }

    /// Removes and returns the last element, or `None` if the deque is
    /// empty.
    pub fn pop_back(&mut self) -> (elem: Option<T>)
        requires
            old(self).wf(),
        ensures
            final(self).wf(),
            final(self).spec_capacity() == old(self).spec_capacity(),
            old(self)@.len() == 0 ==> elem is None && final(self)@ == old(self)@,
            old(self)@.len() > 0 ==> elem == Some(old(self)@.last()) && final(self)@ == old(
                self,
            )@.drop_last(),
    {
        if self.is_empty() {
            None
        } else {
            let ghost head = self.head as int;
            let ghost cap = self.raw.cap as int;
            assert(self.raw@[ring_slot(head, self.len - 1, cap)] is Some);
            self.tail = step_back(self.tail, self.raw.cap);
            self.len = self.len - 1;
            let elem = self.raw.read(self.tail);
            proof {
                assert forall|k: int| self.len <= k < cap implies self.raw@[#[trigger] ring_slot(
                    head,
                    k,
                    cap,
                )] is None by {
                    if k > self.len {
                        assert(old(self).raw@[ring_slot(head, k, cap)] is None);
                    }
                }
                assert(self@ =~= old(self)@.drop_last());
            }
            Some(elem)
        }
    }

    /// Removes and returns the first element, or `None` if the deque is
    /// empty.
    pub fn pop_front(&mut self) -> (elem: Option<T>)
        requires
            old(self).wf(),
        ensures
            final(self).wf(),
            final(self).spec_capacity() == old(self).spec_capacity(),
            old(self)@.len() == 0 ==> elem is None && final(self)@ == old(self)@,
            old(self)@.len() > 0 ==> elem == Some(old(self)@.first()) && final(self)@ == old(
                self,
            )@.drop_first(),
    {
        if self.is_empty() {
            None
        } else {
            let ghost head = self.head as int;
            let ghost cap = self.raw.cap as int;
            assert(self.raw@[ring_slot(head, 0, cap)] is Some);
            let elem = self.raw.read(self.head);
            self.head = step_forward(self.head, self.raw.cap);
            self.len = self.len - 1;
            proof {
                let new_head = self.head as int;
                assert forall|k: int| 0 <= k < cap - 1 implies #[trigger] ring_slot(
                    new_head,
                    k,
                    cap,
                ) == ring_slot(head, k + 1, cap) by {}
                assert forall|k: int| 0 <= k < self.len implies self.raw@[#[trigger] ring_slot(
                    new_head,
                    k,
                    cap,
                )] is Some by {
                    assert(old(self).raw@[ring_slot(head, k + 1, cap)] is Some);
                }
                assert forall|k: int| self.len <= k < cap implies self.raw@[#[trigger] ring_slot(
                    new_head,
                    k,
                    cap,
                )] is None by {
                    if k < cap - 1 {
                        assert(old(self).raw@[ring_slot(head, k + 1, cap)] is None);
                    }
                }
                assert(self@ =~= old(self)@.drop_first());
            }
            Some(elem)
        }
    }

    /// A cursor that borrows the elements from either end, front to back.
    pub fn iter(&self) -> (iter: Iter<'_, T>)
        requires
            self.wf(),
        ensures
            iter.wf(),
            iter@ == self@,
    {
        let iter = Iter { iter: RawPtrIter::from_ring_deque(self), raw: self.raw.shadow_clone() };
        assert(iter@ =~= self@);
        iter
    }

    /// A cursor that borrows the elements for writing, from either end. It
    /// holds the deque until it is dropped; the deque is then what the
    /// cursor left of it.
    pub fn iter_mut(&mut self) -> (iter: IterMut<'_, T>)
        requires
            old(self).wf(),
        ensures
            iter.wf(),
            *iter.deque == *old(self),
            *final(iter.deque) == *final(self),
            iter.spec_front() == 0,
            iter.spec_back() == old(self)@.len(),
    {
        let iter = RawPtrIter::from_ring_deque(self);
        IterMut { deque: self, iter }
    }

    /// Turns the deque into an iterator that owns its elements and yields
    /// them from either end.
    pub fn into_iter(self) -> (iter: IterOwned<T>)
        requires
            self.wf(),
        ensures
            iter.wf(),
            iter@ == self@,
    {
        IterOwned(self)
    }
}

/// An iterator that owns a deque and empties it from either end.
pub struct IterOwned<T>(RingDeque<T>);

impl<T> View for IterOwned<T> {
    type V = Seq<T>;

    /// The elements not yet yielded, front to back.
    closed spec fn view(&self) -> Seq<T> {
        self.0@
    }
}

impl<T> IterOwned<T> {
    /// The deque behind the iterator is well-formed.
    pub closed spec fn wf(&self) -> bool {
        self.0.wf()
    }

    /// Yields the first of the remaining elements.
    pub fn next(&mut self) -> (elem: Option<T>)
        requires
            old(self).wf(),
        ensures
            final(self).wf(),
            old(self)@.len() == 0 ==> elem is None && final(self)@ == old(self)@,
            old(self)@.len() > 0 ==> elem == Some(old(self)@.first()) && final(self)@ == old(
                self,
            )@.drop_first(),
    {
        self.0.pop_front()
    }

    /// Yields the last of the remaining elements.
    pub fn next_back(&mut self) -> (elem: Option<T>)
        requires
            old(self).wf(),
        ensures
            final(self).wf(),
            old(self)@.len() == 0 ==> elem is None && final(self)@ == old(self)@,
            old(self)@.len() > 0 ==> elem == Some(old(self)@.last()) && final(self)@ == old(
                self,
            )@.drop_last(),
    {
        self.0.pop_back()
    }

    /// The number of elements not yet yielded.
    pub fn len(&self) -> (len: usize)
        requires
            self.wf(),
        ensures
            len == self@.len(),
    {
        self.0.len()
    }

    /// Lower and upper bound of the number of elements still to come; both
    /// are exact.
    pub fn size_hint(&self) -> (hint: (usize, Option<usize>))
        requires
            self.wf(),
        ensures
            hint.0 == self@.len(),
            hint.1 == Some(self@.len() as usize),
    {
        (self.0.len(), Some(self.0.len()))
    }
}

/// A cursor over the slots of a deque's window. It keeps its own copy of
/// the window's bounds and yields slot numbers, from either end, without
/// touching the deque.
pub struct RawPtrIter {
    head: usize,
    tail: usize,
    len: usize,
    cap: usize,
    start: Ghost<int>,
    front: Ghost<nat>,
}

impl View for RawPtrIter {
    type V = Seq<int>;

    /// The slots still to be yielded, front to back.
    closed spec fn view(&self) -> Seq<int> {
        Seq::new(self.len as nat, |k: int| ring_slot(self.start@, self.front@ + k, self.cap as int))
    }
}

impl RawPtrIter {
    /// The cursor stands on a window of a ring of `cap` slots.
    pub closed spec fn wf(&self) -> bool {
        &&& self.cap == 0 ==> self.len == 0
        &&& self.cap > 0 ==> {
            &&& 0 <= self.start@ < self.cap
            &&& self.front@ + self.len <= self.cap
            &&& self.head == ring_slot(self.start@, self.front@ as int, self.cap as int)
            &&& self.tail == ring_slot(self.start@, self.front@ + self.len, self.cap as int)
        }
    }

    /// The number of slots in the ring the cursor walks.
    pub closed spec fn spec_cap(&self) -> nat {
        self.cap as nat
    }

    /// The slot of the window's first position when the cursor was made.
    pub closed spec fn spec_start(&self) -> int {
        self.start@
    }

    /// How many slots the cursor has yielded from the front.
    pub closed spec fn spec_front(&self) -> nat {
        self.front@
    }

    /// Every slot the cursor yields is a slot of the ring.
    pub proof fn lemma_slots_in_ring(&self)
        requires
            self.wf(),
        ensures
            forall|k: int| 0 <= k < self@.len() ==> 0 <= #[trigger] self@[k] < self.spec_cap(),
            forall|k: int|
                0 <= k < self@.len() ==> #[trigger] self@[k] == ring_slot(
                    self.spec_start(),
                    self.spec_front() + k,
                    self.spec_cap() as int,
                ),
    {
    }

    /// A cursor over the whole window of `rd`.
    fn from_ring_deque<T>(rd: &RingDeque<T>) -> (iter: Self)
        requires
            rd.wf(),
        ensures
            iter.wf(),
            iter.cap == rd.raw.cap,
            iter.start@ == rd.head,
            iter.front@ == 0,
            iter.len == rd.len,
            iter@ == Seq::new(rd.len as nat, |k: int| rd.slot(k)),
    {
        let iter = Self {
            head: rd.head,
            tail: rd.tail,
            len: rd.len,
            cap: rd.raw.cap,
            start: Ghost(rd.head as int),
            front: Ghost(0),
        };
        assert(iter@ =~= Seq::new(rd.len as nat, |k: int| rd.slot(k)));
        iter
    }

    /// Yields the first of the remaining slots.
    fn next_front(&mut self) -> (slot: Option<usize>)
        requires
            old(self).wf(),
        ensures
            final(self).wf(),
            final(self).cap == old(self).cap,
            final(self).start@ == old(self).start@,
            old(self)@.len() == 0 ==> slot is None && *final(self) == *old(self),
            old(self)@.len() > 0 ==> {
                &&& slot is Some
                &&& slot->0 == old(self)@.first()
                &&& final(self)@ == old(self)@.drop_first()
                &&& final(self).front@ == old(self).front@ + 1
                &&& final(self).len == old(self).len - 1
            },
    {
        if self.len == 0 {
            None
        } else {
            let slot = self.head;
            self.head = step_forward(self.head, self.cap);
            self.len = self.len - 1;
            self.front = Ghost((self.front@ + 1) as nat);
            assert(self@ =~= old(self)@.drop_first());
            Some(slot)
        }
    }

    /// Yields the last of the remaining slots.
    fn next_back(&mut self) -> (slot: Option<usize>)
        requires
            old(self).wf(),
        ensures
            final(self).wf(),
            final(self).cap == old(self).cap,
            final(self).start@ == old(self).start@,
            final(self).front@ == old(self).front@,
            old(self)@.len() == 0 ==> slot is None && *final(self) == *old(self),
            old(self)@.len() > 0 ==> {
                &&& slot is Some
                &&& slot->0 == old(self)@.last()
                &&& final(self)@ == old(self)@.drop_last()
                &&& final(self).len == old(self).len - 1
            },
    {
        if self.len == 0 {
            None
        } else {
            self.tail = step_back(self.tail, self.cap);
            self.len = self.len - 1;
            assert(self@ =~= old(self)@.drop_last());
            Some(self.tail)
        }
    }
}

/// A cursor that borrows the elements of a deque, from either end.
pub struct Iter<'a, T> {
    iter: RawPtrIter,
    raw: &'a RawArray<T>,
}

impl<'a, T> View for Iter<'a, T> {
    type V = Seq<T>;

    /// The elements still to be yielded, front to back.
    closed spec fn view(&self) -> Seq<T> {
        Seq::new(self.iter@.len(), |k: int| self.raw@[self.iter@[k]]->0)
    }
}

impl<'a, T> Iter<'a, T> {
    /// Every slot the cursor will yield is a live slot of the buffer.
    pub closed spec fn wf(&self) -> bool {
        &&& self.iter.wf()
        &&& self.raw.wf()
        &&& self.iter.cap == self.raw.cap
        &&& forall|k: int| 0 <= k < self.iter@.len() ==> (#[trigger] self.raw@[self.iter@[k]]) is Some
    }

    /// Yields the first of the remaining elements.
    pub fn next(&mut self) -> (elem: Option<&'a T>)
        requires
            old(self).wf(),
        ensures
            final(self).wf(),
            old(self)@.len() == 0 ==> elem is None && final(self)@ == old(self)@,
            old(self)@.len() > 0 ==> elem == Some(&old(self)@.first()) && final(self)@ == old(
                self,
            )@.drop_first(),
    {
        proof {
            self.iter.lemma_slots_in_ring();
        }
        match self.iter.next_front() {
            Some(slot) => {
                assert(old(self).raw@[old(self).iter@[0]] is Some);
                proof {
                    assert forall|k: int| 0 <= k < self.iter@.len() implies (
                    #[trigger] self.raw@[self.iter@[k]]) is Some by {
                        assert(old(self).raw@[old(self).iter@[k + 1]] is Some);
                    }
                    assert(self@ =~= old(self)@.drop_first());
                }
                Some(self.raw.get(slot))
            },
            None => None,
        }
    }

    /// Yields the last of the remaining elements.
    pub fn next_back(&mut self) -> (elem: Option<&'a T>)
        requires
            old(self).wf(),
        ensures
            final(self).wf(),
            old(self)@.len() == 0 ==> elem is None && final(self)@ == old(self)@,
            old(self)@.len() > 0 ==> elem == Some(&old(self)@.last()) && final(self)@ == old(
                self,
            )@.drop_last(),
    {
        proof {
            self.iter.lemma_slots_in_ring();
        }
        match self.iter.next_back() {
            Some(slot) => {
                assert(old(self).raw@[old(self).iter@[old(self).iter@.len() - 1]] is Some);
                proof {
                    assert forall|k: int| 0 <= k < self.iter@.len() implies (
                    #[trigger] self.raw@[self.iter@[k]]) is Some by {
                        assert(old(self).raw@[old(self).iter@[k]] is Some);
                    }
                    assert(self@ =~= old(self)@.drop_last());
                }
                Some(self.raw.get(slot))
            },
            None => None,
        }
    }

    /// The number of elements still to be yielded.
    pub fn len(&self) -> (len: usize)
        requires
            self.wf(),
        ensures
            len == self@.len(),
    {
        self.iter.len
    }

    /// Lower and upper bound of the number of elements still to come; both
    /// are exact.
    pub fn size_hint(&self) -> (hint: (usize, Option<usize>))
        requires
            self.wf(),
        ensures
            hint.0 == self@.len(),
            hint.1 == Some(self@.len() as usize),
    {
        (self.iter.len, Some(self.iter.len))
    }
}

/// A cursor that borrows the elements of a deque for writing, from either
/// end. The positions `[spec_front(), spec_back())` of the deque are still
/// to be yielded.
pub struct IterMut<'a, T> {
    pub deque: &'a mut RingDeque<T>,
    pub iter: RawPtrIter,
}

impl<'a, T> View for IterMut<'a, T> {
    type V = Seq<T>;

    /// The elements still to be yielded, front to back.
    open spec fn view(&self) -> Seq<T> {
        self.deque@.subrange(self.spec_front() as int, self.spec_back() as int)
    }
}

impl<'a, T> IterMut<'a, T> {
    /// The cursor stands on the window of its deque.
    pub closed spec fn wf(&self) -> bool {
        &&& self.deque.wf()
        &&& self.iter.wf()
        &&& self.iter.cap == self.deque.raw.cap
        &&& self.iter.start@ == self.deque.head
        &&& self.iter.front@ + self.iter.len <= self.deque.len
    }

    /// The position in the deque of the next element from the front.
    pub closed spec fn spec_front(&self) -> nat {
        self.iter.front@
    }

    /// The position in the deque behind the next element from the back.
    pub closed spec fn spec_back(&self) -> nat {
        self.iter.front@ + self.iter.len as nat
    }

    /// Yields the first of the remaining elements. What the caller leaves
    /// behind the reference takes that element's place in the deque.
    pub fn next(&mut self) -> (elem: Option<&mut T>)
        requires
            old(self).wf(),
        ensures
            final(self).wf(),
            final(self).deque.wf(),
            *final(final(self).deque) == *final(old(self).deque),
            final(self).spec_back() == old(self).spec_back(),
            final(self).deque.spec_capacity() == old(self).deque.spec_capacity(),
            old(self).spec_front() == old(self).spec_back() ==> {
                &&& elem is None
                &&& final(self).spec_front() == old(self).spec_front()
                &&& final(self).deque@ == old(self).deque@
            },
            old(self).spec_front() < old(self).spec_back() ==> {
                &&& elem is Some
                &&& *elem->0 == old(self).deque@[old(self).spec_front() as int]
                &&& final(self).spec_front() == old(self).spec_front() + 1
                &&& final(self).deque@ == old(self).deque@.update(
                    old(self).spec_front() as int,
                    *final(elem->0),
                )
            },
    {
        proof {
            self.iter.lemma_slots_in_ring();
        }
        match self.iter.next_front() {
            Some(slot) => {
                assert(slot == old(self).deque.slot(old(self).iter.front@ as int));
                assert(old(self).deque.raw@[old(self).deque.slot(old(self).iter.front@ as int)] is Some);
                Some(self.deque.raw.get_mut(slot))
            },
            None => None,
        }
    }

    /// Yields the last of the remaining elements. What the caller leaves
    /// behind the reference takes that element's place in the deque.
    pub fn next_back(&mut self) -> (elem: Option<&mut T>)
        requires
            old(self).wf(),
        ensures
            final(self).wf(),
            final(self).deque.wf(),
            *final(final(self).deque) == *final(old(self).deque),
            final(self).spec_front() == old(self).spec_front(),
            final(self).deque.spec_capacity() == old(self).deque.spec_capacity(),
            old(self).spec_front() == old(self).spec_back() ==> {
                &&& elem is None
                &&& final(self).spec_back() == old(self).spec_back()
                &&& final(self).deque@ == old(self).deque@
            },
            old(self).spec_front() < old(self).spec_back() ==> {
                &&& elem is Some
                &&& *elem->0 == old(self).deque@[old(self).spec_back() - 1]
                &&& final(self).spec_back() == old(self).spec_back() - 1
                &&& final(self).deque@ == old(self).deque@.update(
                    old(self).spec_back() - 1,
                    *final(elem->0),
                )
            },
    {
        proof {
            self.iter.lemma_slots_in_ring();
        }
        match self.iter.next_back() {
            Some(slot) => {
                assert(slot == old(self).deque.slot(old(self).iter.front@ + old(self).iter.len - 1));
                assert(old(self).deque.raw@[ring_slot(
                    old(self).deque.head as int,
                    old(self).iter.front@ + old(self).iter.len - 1,
                    old(self).deque.raw.cap as int,
                )] is Some);
                Some(self.deque.raw.get_mut(slot))
            },
            None => None,
        }
    }

    /// The number of elements still to be yielded.
    pub fn len(&self) -> (len: usize)
        requires
            self.wf(),
        ensures
            len == self.spec_back() - self.spec_front(),
    {
        self.iter.len
    }

    /// Lower and upper bound of the number of elements still to come; both
    /// are exact.
    pub fn size_hint(&self) -> (hint: (usize, Option<usize>))
        requires
            self.wf(),
        ensures
            hint.0 == self.spec_back() - self.spec_front(),
            hint.1 == Some(hint.0),
    {
        (self.iter.len, Some(self.iter.len))
    }
}

} // verus!
