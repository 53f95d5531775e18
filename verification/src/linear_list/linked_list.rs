//! An unbounded doubly linked list whose nodes form a ring.

use crate::linear_list::node_arena::{Node, NodeArena, NIL};
use crate::linear_list::sorted::{
    greater, gt, inserted_in_order, lemma_insert_position_unique, lemma_inserted_in_order_sorted,
    sorted, total_order,
};
use vstd::prelude::*;
use vstd::std_specs::iter::IteratorSpec;

verus! {

/// The position behind `i` in a ring of `n` positions.
spec fn succ(i: int, n: int) -> int {
    if i + 1 == n {
        0
    } else {
        i + 1
    }
}

/// The position before `i` in a ring of `n` positions.
spec fn pred(i: int, n: int) -> int {
    if i == 0 {
        n - 1
    } else {
        i - 1
    }
}

/// Position `k` of a ring of `n` positions, where position `n` is the first
/// position again.
spec fn turn(k: int, n: int) -> int {
    if k == n {
        0
    } else {
        k
    }
}

/// The nodes numbered in `ring` are distinct and in use, and each is linked
/// to the one behind it and the one before it, the last to the first and the
/// first to the last.
spec fn linked<T>(nodes: Seq<Node<T>>, ring: Seq<int>) -> bool {
    &&& ring.no_duplicates()
    &&& forall|i: int| 0 <= i < ring.len() ==> 0 <= #[trigger] ring[i] < nodes.len()
    &&& forall|i: int|
        0 <= i < ring.len() ==> {
            &&& (#[trigger] nodes[ring[i]]).elem is Some
            &&& nodes[ring[i]].next == ring[succ(i, ring.len() as int)]
            &&& nodes[ring[i]].prev == ring[pred(i, ring.len() as int)]
        }
}

/// The elements that the nodes numbered in `ring` hold, in that order.
spec fn contents<T>(nodes: Seq<Node<T>>, ring: Seq<int>) -> Seq<T> {
    Seq::new(ring.len(), |i: int| nodes[ring[i]].elem->0)
}

/// A doubly linked list without a bound on its length. Its nodes form a
/// ring; `head` is the node of the first element, and the node before it is
/// the node of the last.
pub struct LinkedList<T> {
    arena: NodeArena<T>,
    head: usize,
    len: usize,
    ring: Ghost<Seq<int>>,
}

impl<T> View for LinkedList<T> {
    type V = Seq<T>;

    /// The elements from front to back.
    closed spec fn view(&self) -> Seq<T> {
        contents(self.arena@, self.ring@)
    }
}

impl<T> LinkedList<T> {
    /// Following the links from `head` visits the nodes of the elements in
    /// order and returns to `head` after `len` steps; no other node is in
    /// use; an empty list has no `head`.
    pub closed spec fn wf(&self) -> bool {
        &&& self.arena.wf()
        &&& self.arena.spec_live() == self.len
        &&& self.ring@.len() == self.len
        &&& linked(self.arena@, self.ring@)
        &&& self.len == 0 ==> self.head == NIL
        &&& self.len > 0 ==> self.head == self.ring@[0]
    }

    /// An empty list.
    pub fn new() -> (list: Self)
        ensures
            list.wf(),
            list@ == Seq::<T>::empty(),
    {
        let list = Self { arena: NodeArena::new(), head: NIL, len: 0, ring: Ghost(Seq::empty()) };
        assert(list@ =~= Seq::<T>::empty());
        list
    }

    /// Whether the list holds no element.
    pub fn is_empty(&self) -> (empty: bool)
        requires
            self.wf(),
        ensures
            empty == (self@.len() == 0),
    {
        self.len == 0
    }

    /// The number of elements the list holds.
    pub fn len(&self) -> (len: usize)
        requires
            self.wf(),
        ensures
            len == self@.len(),
    {
        self.len
    }

    /// Borrows the first element, or `None` if the list is empty.
    pub fn front(&self) -> (elem: Option<&T>)
        requires
            self.wf(),
        ensures
            self@.len() == 0 ==> elem is None,
            self@.len() > 0 ==> elem == Some(&self@.first()),
    {
        if self.len == 0 {
            None
        } else {
            assert(self.ring@[0] == self.head);
            Some(self.arena.elem(self.head))
        }
    }

    /// Makes the empty list a list of one element: a single node linked to
    /// itself.
    fn init(&mut self, elem: T)
        requires
            old(self).wf(),
            old(self)@.len() == 0,
        ensures
            final(self).wf(),
            final(self)@ == seq![elem],
    {
        let idx = self.arena.allocate(elem, NIL, NIL);
        self.arena.set_prev(idx, idx);
        self.arena.set_next(idx, idx);
        self.head = idx;
        self.len = 1;
        self.ring = Ghost(Seq::<int>::empty().push(idx as int));
        assert(self@ =~= seq![elem]);
    }

    /// Takes the only element out of a list of one element.
    fn deinit(&mut self) -> (elem: T)
        requires
            old(self).wf(),
            old(self)@.len() == 1,
        ensures
            final(self).wf(),
            elem == old(self)@[0],
            final(self)@ == Seq::<T>::empty(),
    {
        let head = self.head;
        assert(self.ring@[0] == head);
        self.len = 0;
        self.head = NIL;
        self.ring = Ghost(Seq::empty());
        let elem = self.arena.consume(head);
        assert(self@ =~= Seq::<T>::empty());
        elem
    }

    /// Puts `elem` into the ring before the node `at`, which is the node at
    /// position `pos` of the ring or, for `pos` equal to the length, the
    /// first node. The new node takes position `pos`.
    fn splice(&mut self, elem: T, at: usize, pos: usize)
        requires
            old(self).wf(),
            old(self)@.len() > 0,
            pos <= old(self)@.len(),
            at == old(self).ring@[turn(pos as int, old(self)@.len() as int)],
        ensures
            final(self).wf(),
            final(self)@ == old(self)@.insert(pos as int, elem),
    {
        let ghost ring = self.ring@;
        let ghost at_pos = turn(pos as int, self.len as int);
        assert(self.arena.is_live(ring[at_pos]));
        assert(self.arena.is_live(ring[pred(at_pos, ring.len() as int)]));
        let before = self.arena.prev(at);
        let idx = self.arena.insert(elem, before, at);
        proof {
            self.arena.lemma_live_fits();
            lemma_splice(old(self).arena@, self.arena@, ring, pos as int, idx as int, elem);
            self.ring = Ghost(ring.insert(pos as int, idx as int));
        }
        self.len = self.len + 1;
        if pos == 0 {
            self.head = idx;
        }
    }

    /// Takes the node `at`, which is at position `pos` of a ring of two or
    /// more nodes, out of the ring and returns its element.
    fn unsplice(&mut self, at: usize, pos: usize) -> (elem: T)
        requires
            old(self).wf(),
            old(self)@.len() >= 2,
            pos < old(self)@.len(),
            at == old(self).ring@[pos as int],
        ensures
            final(self).wf(),
            elem == old(self)@[pos as int],
            final(self)@ == old(self)@.remove(pos as int),
    {
        let ghost ring = self.ring@;
        let ghost n = ring.len() as int;
        assert(self.arena.is_live(ring[pos as int]));
        assert(self.arena.is_live(ring[succ(pos as int, n)]));
        assert(self.arena.is_live(ring[pred(pos as int, n)]));
        if pos == 0 {
            self.head = self.arena.next(at);
        }
        self.len = self.len - 1;
        self.arena.delete(at);
        let ghost unlinked = self.arena@;
        let elem = self.arena.consume(at);
        proof {
            assert forall|j: int| 0 <= j < self.arena@.len() && j != at implies #[trigger] self.arena@[j]
                == unlinked[j] by {}
            lemma_unsplice(old(self).arena@, self.arena@, ring, pos as int);
            self.ring = Ghost(ring.remove(pos as int));
        }
        elem
    }

    /// Appends `elem` behind the last element.
    pub fn push_back(&mut self, elem: T)
        requires
            old(self).wf(),
        ensures
            final(self).wf(),
            final(self)@ == old(self)@.push(elem),
    {
        if self.is_empty() {
            self.init(elem);
            assert(self@ =~= old(self)@.push(elem));
        } else {
            let head = self.head;
            self.splice(elem, head, self.len);
            assert(self@ =~= old(self)@.push(elem));
        }
    }

    /// Puts `elem` in front of the first element.
    pub fn push_front(&mut self, elem: T)
        requires
            old(self).wf(),
        ensures
            final(self).wf(),
            final(self)@ == seq![elem] + old(self)@,
    {
        if self.is_empty() {
            self.init(elem);
            assert(self@ =~= seq![elem] + old(self)@);
        } else {
            let head = self.head;
            self.splice(elem, head, 0);
            assert(self@ =~= seq![elem] + old(self)@);
        }
    }

    /// Removes and returns the last element, or `None` if the list is empty.
    pub fn pop_back(&mut self) -> (elem: Option<T>)
        requires
            old(self).wf(),
        ensures
            final(self).wf(),
            old(self)@.len() == 0 ==> elem is None && final(self)@ == old(self)@,
            old(self)@.len() > 0 ==> elem == Some(old(self)@.last()) && final(self)@ == old(
                self,
            )@.drop_last(),
    {
        if self.len == 0 {
            None
        } else if self.len == 1 {
            let elem = self.deinit();
            assert(self@ =~= old(self)@.drop_last());
            Some(elem)
        } else {
            assert(self.arena.is_live(self.ring@[0]));
            let tail = self.arena.prev(self.head);
            let elem = self.unsplice(tail, self.len - 1);
            assert(self@ =~= old(self)@.drop_last());
            Some(elem)
        }
    }

    /// Removes and returns the first element, or `None` if the list is
    /// empty.
    pub fn pop_front(&mut self) -> (elem: Option<T>)
        requires
            old(self).wf(),
        ensures
            final(self).wf(),
            old(self)@.len() == 0 ==> elem is None && final(self)@ == old(self)@,
            old(self)@.len() > 0 ==> elem == Some(old(self)@.first()) && final(self)@ == old(
                self,
            )@.drop_first(),
    {
        if self.len == 0 {
            None
        } else if self.len == 1 {
            let elem = self.deinit();
            assert(self@ =~= old(self)@.drop_first());
            Some(elem)
        } else {
            let head = self.head;
            let elem = self.unsplice(head, 0);
            assert(self@ =~= old(self)@.drop_first());
            Some(elem)
        }
    }

    /// Drops every element and takes back every node, walking the ring once
    /// from `head`.
    pub fn clear(&mut self)
        requires
            old(self).wf(),
        ensures
            final(self).wf(),
            final(self)@ == Seq::<T>::empty(),
    {
        let mut at = self.head;
        let len = self.len;
        let ghost ring = self.ring@;
        self.head = NIL;
        self.len = 0;
        self.ring = Ghost(Seq::empty());
        let mut done: usize = 0;
        while done < len
            invariant
                self.arena.wf(),
                self.head == NIL,
                self.len == 0,
                self.ring@ == Seq::<int>::empty(),
                done <= len,
                ring.len() == len,
                ring.no_duplicates(),
                self.arena.spec_live() == len - done,
                done < len ==> at == ring[done as int],
                forall|i: int|
                    done <= i < len ==> {
                        &&& self.arena.is_live(#[trigger] ring[i])
                        &&& self.arena@[ring[i]].next == ring[succ(i, len as int)]
                    },
            decreases len - done,
        {
            let next = self.arena.next(at);
            self.arena.dealloc(at);
            at = next;
            done = done + 1;
        }
        assert(self@ =~= Seq::<T>::empty());
    }

    /// A list of the elements that `iter` yields, in that order.
    pub fn from_iter<I: Iterator<Item = T>>(iter: I) -> (list: Self)
        requires
            iter.obeys_prophetic_iter_laws(),
            iter.decrease() is Some,
        ensures
            list.wf(),
            list@ == iter.remaining(),
    {
        let mut list = Self::new();
        let mut rest = iter;
        loop
            invariant
                list.wf(),
                rest.obeys_prophetic_iter_laws(),
                rest.decrease() is Some,
                list@ + rest.remaining() == iter.remaining(),
            decreases rest.decrease()->0,
        {
            match rest.next() {
                Some(elem) => {
                    assert(list@.push(elem) + rest.remaining() =~= iter.remaining());
                    list.push_back(elem);
                },
                None => {
                    assert(list@ =~= iter.remaining());
                    return list;
                },
            }
        }
    }

    /// A cursor that borrows the elements from either end, front to back.
    pub fn iter(&self) -> (iter: Iter<'_, T>)
        requires
            self.wf(),
        ensures
            iter.wf(),
            iter@ == self@,
    {
        let iter = Iter { iter: RawNodeIter::from_list(self), list: self };
        assert(iter@ =~= self@);
        iter
    }

    /// A cursor that borrows the elements for writing, from either end. It
    /// holds the list until it is dropped; the list is then what the cursor
    /// left of it.
    pub fn iter_mut(&mut self) -> (iter: IterMut<'_, T>)
        requires
            old(self).wf(),
        ensures
            iter.wf(),
            *iter.list == *old(self),
            *final(iter.list) == *final(self),
            iter.spec_front() == 0,
            iter.spec_back() == old(self)@.len(),
    {
        let iter = RawNodeIter::from_list(self);
        IterMut { list: self, iter }
    }

    /// Turns the list into an iterator that owns its elements and yields
    /// them from either end.
    pub fn into_iter(self) -> (iter: IterOwned<T>)
        requires
            self.wf(),
        ensures
            iter.wf(),
            iter@ == self@,
    {
        IterOwned(self)
    }
}

impl<T: Ord> LinkedList<T> {
    /// Puts `elem` in front of the first element that comes strictly after
    /// it, found by walking the list from the front, and behind the last
    /// element if there is none. A sorted list stays sorted.
    pub fn ordered_insert(&mut self, elem: T)
        requires
            old(self).wf(),
            total_order::<T>(),
        ensures
            final(self).wf(),
            final(self)@ == inserted_in_order(old(self)@, elem),
            sorted(old(self)@) ==> sorted(final(self)@),
    {
        proof {
            if sorted(self@) {
                lemma_inserted_in_order_sorted(self@, elem);
            }
        }
        if self.is_empty() {
            self.init(elem);
            assert(self@ =~= inserted_in_order(old(self)@, elem));
        } else {
            let mut at = self.head;
            let mut pos: usize = 0;
            while pos < self.len
                invariant_except_break
                    forall|i: int| 0 <= i < pos ==> !gt(#[trigger] self@[i], elem),
                invariant
                    self.wf(),
                    total_order::<T>(),
                    self.len > 0,
                    pos <= self.len,
                    at == self.ring@[turn(pos as int, self.len as int)],
                ensures
                    forall|i: int| 0 <= i < pos ==> !gt(#[trigger] self@[i], elem),
                    pos < self.len ==> gt(self@[pos as int], elem),
                decreases self.len - pos,
            {
                assert(self.arena.is_live(self.ring@[pos as int]));
                if greater(self.arena.elem(at), &elem) {
                    break ;
                }
                at = self.arena.next(at);
                pos = pos + 1;
            }
            proof {
                lemma_insert_position_unique(self@, elem, pos as int);
            }
            self.splice(elem, at, pos);
        }
    }
}

/// An iterator that owns a list and empties it from either end.
pub struct IterOwned<T>(LinkedList<T>);

impl<T> View for IterOwned<T> {
    type V = Seq<T>;

    /// The elements not yet yielded, front to back.
    closed spec fn view(&self) -> Seq<T> {
        self.0@
    }
}

impl<T> IterOwned<T> {
    /// The list behind the iterator is well-formed.
    pub closed spec fn wf(&self) -> bool {
        self.0.wf()
    }

    /// Yields the first of the remaining elements.
    pub fn next(&mut self) -> (elem: Option<T>)
        requires
            old(self).wf(),
        ensures
            final(self).wf(),
            old(self)@.len() == 0 ==> elem is None && final(self)@ == old(self)@,
            old(self)@.len() > 0 ==> elem == Some(old(self)@.first()) && final(self)@ == old(
                self,
            )@.drop_first(),
    {
        self.0.pop_front()
    }

    /// Yields the last of the remaining elements.
    pub fn next_back(&mut self) -> (elem: Option<T>)
        requires
            old(self).wf(),
        ensures
            final(self).wf(),
            old(self)@.len() == 0 ==> elem is None && final(self)@ == old(self)@,
            old(self)@.len() > 0 ==> elem == Some(old(self)@.last()) && final(self)@ == old(
                self,
            )@.drop_last(),
    {
        self.0.pop_back()
    }

    /// The number of elements not yet yielded.
    pub fn len(&self) -> (len: usize)
        requires
            self.wf(),
        ensures
            len == self@.len(),
    {
        self.0.len()
    }

    /// Lower and upper bound of the number of elements still to come; both
    /// are exact.
    pub fn size_hint(&self) -> (hint: (usize, Option<usize>))
        requires
            self.wf(),
        ensures
            hint.0 == self@.len(),
            hint.1 == Some(hint.0),
    {
        (self.0.len(), Some(self.0.len()))
    }
}

/// A cursor over the nodes of a list. It keeps its own copy of the two ends
/// of what is still to come and yields node numbers, from either end,
/// without touching the list. The positions `[front, front + len)` of the
/// list are still to be yielded.
pub struct RawNodeIter {
    head: usize,
    tail: usize,
    len: usize,
    front: Ghost<nat>,
}

impl RawNodeIter {
    /// How many nodes the cursor has yielded from the front.
    pub closed spec fn spec_front(&self) -> nat {
        self.front@
    }

    /// How many nodes are still to be yielded.
    pub closed spec fn spec_len(&self) -> nat {
        self.len as nat
    }

    /// The cursor's two ends are the nodes at the two ends of the positions
    /// of `list` that it has not yielded.
    pub closed spec fn stands_on<T>(&self, list: &LinkedList<T>) -> bool {
        &&& list.wf()
        &&& self.front@ + self.len <= list.len
        &&& self.len > 0 ==> {
            &&& self.head == list.ring@[self.front@ as int]
            &&& self.tail == list.ring@[self.front@ + self.len - 1]
        }
    }

    /// A cursor over all nodes of `list`.
    fn from_list<T>(list: &LinkedList<T>) -> (iter: Self)
        requires
            list.wf(),
        ensures
            iter.stands_on(list),
            iter.front@ == 0,
            iter.len == list.len,
    {
        if list.len == 0 {
            Self { head: NIL, tail: NIL, len: 0, front: Ghost(0) }
        } else {
            assert(list.arena.is_live(list.ring@[0]));
            Self {
                head: list.head,
                tail: list.arena.prev(list.head),
                len: list.len,
                front: Ghost(0),
            }
        }
    }

    /// Yields the first of the remaining nodes and steps to the node behind
    /// it.
    fn next_front<T>(&mut self, list: &LinkedList<T>) -> (node: Option<usize>)
        requires
            old(self).stands_on(list),
        ensures
            final(self).stands_on(list),
            old(self).len == 0 ==> node is None && *final(self) == *old(self),
            old(self).len > 0 ==> {
                &&& node is Some
                &&& node->0 == list.ring@[old(self).front@ as int]
                &&& final(self).front@ == old(self).front@ + 1
                &&& final(self).len == old(self).len - 1
            },
    {
        if self.len == 0 {
            None
        } else if self.len == 1 {
            let node = self.head;
            self.len = 0;
            self.head = NIL;
            self.tail = NIL;
            self.front = Ghost((self.front@ + 1) as nat);
            Some(node)
        } else {
            let node = self.head;
            assert(list.arena.is_live(list.ring@[self.front@ as int]));
            self.len = self.len - 1;
            self.head = list.arena.next(node);
            self.front = Ghost((self.front@ + 1) as nat);
            Some(node)
        }
    }

    /// Yields the last of the remaining nodes and steps to the node before
    /// it.
    fn next_back<T>(&mut self, list: &LinkedList<T>) -> (node: Option<usize>)
        requires
            old(self).stands_on(list),
        ensures
            final(self).stands_on(list),
            final(self).front@ == old(self).front@,
            old(self).len == 0 ==> node is None && *final(self) == *old(self),
            old(self).len > 0 ==> {
                &&& node is Some
                &&& node->0 == list.ring@[old(self).front@ + old(self).len - 1]
                &&& final(self).len == old(self).len - 1
            },
    {
        if self.len == 0 {
            None
        } else if self.len == 1 {
            let node = self.tail;
            self.len = 0;
            self.head = NIL;
            self.tail = NIL;
            Some(node)
        } else {
            let node = self.tail;
            assert(list.arena.is_live(list.ring@[self.front@ + self.len - 1]));
            self.len = self.len - 1;
            self.tail = list.arena.prev(node);
            Some(node)
        }
    }
}

/// A cursor that borrows the elements of a list, from either end.
pub struct Iter<'a, T> {
    iter: RawNodeIter,
    list: &'a LinkedList<T>,
}

impl<'a, T> View for Iter<'a, T> {
    type V = Seq<T>;

    /// The elements still to be yielded, front to back.
    closed spec fn view(&self) -> Seq<T> {
        self.list@.subrange(self.iter.front@ as int, self.iter.front@ + self.iter.len)
    }
}

impl<'a, T> Iter<'a, T> {
    /// The cursor stands on its list.
    pub closed spec fn wf(&self) -> bool {
        self.iter.stands_on(self.list)
    }

    /// Yields the first of the remaining elements.
    pub fn next(&mut self) -> (elem: Option<&'a T>)
        requires
            old(self).wf(),
        ensures
            final(self).wf(),
            old(self)@.len() == 0 ==> elem is None && final(self)@ == old(self)@,
            old(self)@.len() > 0 ==> elem == Some(&old(self)@.first()) && final(self)@ == old(
                self,
            )@.drop_first(),
    {
        match self.iter.next_front(self.list) {
            Some(node) => {
                assert(self.list.arena.is_live(self.list.ring@[old(self).iter.front@ as int]));
                assert(self@ =~= old(self)@.drop_first());
                Some(self.list.arena.elem(node))
            },
            None => None,
        }
    }

    /// Yields the last of the remaining elements.
    pub fn next_back(&mut self) -> (elem: Option<&'a T>)
        requires
            old(self).wf(),
        ensures
            final(self).wf(),
            old(self)@.len() == 0 ==> elem is None && final(self)@ == old(self)@,
            old(self)@.len() > 0 ==> elem == Some(&old(self)@.last()) && final(self)@ == old(
                self,
            )@.drop_last(),
    {
        match self.iter.next_back(self.list) {
            Some(node) => {
                assert(self.list.arena.is_live(
                    self.list.ring@[old(self).iter.front@ + old(self).iter.len - 1],
                ));
                assert(self@ =~= old(self)@.drop_last());
                Some(self.list.arena.elem(node))
            },
            None => None,
        }
    }

    /// The number of elements still to be yielded.
    pub fn len(&self) -> (len: usize)
        requires
            self.wf(),
        ensures
            len == self@.len(),
    {
        self.iter.len
    }

    /// Lower and upper bound of the number of elements still to come; both
    /// are exact.
    pub fn size_hint(&self) -> (hint: (usize, Option<usize>))
        requires
            self.wf(),
        ensures
            hint.0 == self@.len(),
            hint.1 == Some(hint.0),
    {
        (self.iter.len, Some(self.iter.len))
    }
}

/// A cursor that borrows the elements of a list for writing, from either
/// end. The positions `[spec_front(), spec_back())` of the list are still to
/// be yielded.
pub struct IterMut<'a, T> {
    pub list: &'a mut LinkedList<T>,
    pub iter: RawNodeIter,
}

impl<'a, T> View for IterMut<'a, T> {
    type V = Seq<T>;

    /// The elements still to be yielded, front to back.
    open spec fn view(&self) -> Seq<T> {
        self.list@.subrange(self.spec_front() as int, self.spec_back() as int)
    }
}

impl<'a, T> IterMut<'a, T> {
    /// The cursor stands on its list.
    pub closed spec fn wf(&self) -> bool {
        self.iter.stands_on(&*self.list)
    }

    /// The position in the list of the next element from the front.
    pub closed spec fn spec_front(&self) -> nat {
        self.iter.front@
    }

    /// The position in the list behind the next element from the back.
    pub closed spec fn spec_back(&self) -> nat {
        self.iter.front@ + self.iter.len as nat
    }

    /// Yields the first of the remaining elements. What the caller leaves
    /// behind the reference takes that element's place in the list.
    pub fn next(&mut self) -> (elem: Option<&mut T>)
        requires
            old(self).wf(),
        ensures
            final(self).wf(),
            final(self).list.wf(),
            *final(final(self).list) == *final(old(self).list),
            final(self).spec_back() == old(self).spec_back(),
            old(self).spec_front() == old(self).spec_back() ==> {
                &&& elem is None
                &&& final(self).spec_front() == old(self).spec_front()
                &&& final(self).list@ == old(self).list@
            },
            old(self).spec_front() < old(self).spec_back() ==> {
                &&& elem is Some
                &&& *elem->0 == old(self).list@[old(self).spec_front() as int]
                &&& final(self).spec_front() == old(self).spec_front() + 1
                &&& final(self).list@ == old(self).list@.update(
                    old(self).spec_front() as int,
                    *final(elem->0),
                )
            },
    {
        match self.iter.next_front(&*self.list) {
            Some(node) => {
                assert(self.list.arena.is_live(self.list.ring@[old(self).iter.front@ as int]));
                Some(self.list.arena.elem_mut(node))
            },
            None => None,
        }
    }

    /// Yields the last of the remaining elements. What the caller leaves
    /// behind the reference takes that element's place in the list.
    pub fn next_back(&mut self) -> (elem: Option<&mut T>)
        requires
            old(self).wf(),
        ensures
            final(self).wf(),
            final(self).list.wf(),
            *final(final(self).list) == *final(old(self).list),
            final(self).spec_front() == old(self).spec_front(),
            old(self).spec_front() == old(self).spec_back() ==> {
                &&& elem is None
                &&& final(self).spec_back() == old(self).spec_back()
                &&& final(self).list@ == old(self).list@
            },
            old(self).spec_front() < old(self).spec_back() ==> {
                &&& elem is Some
                &&& *elem->0 == old(self).list@[old(self).spec_back() - 1]
                &&& final(self).spec_back() == old(self).spec_back() - 1
                &&& final(self).list@ == old(self).list@.update(
                    old(self).spec_back() - 1,
                    *final(elem->0),
                )
            },
    {
        match self.iter.next_back(&*self.list) {
            Some(node) => {
                assert(self.list.arena.is_live(
                    self.list.ring@[old(self).iter.front@ + old(self).iter.len - 1],
                ));
                Some(self.list.arena.elem_mut(node))
            },
            None => None,
        }
    }

    /// The number of elements still to be yielded.
    pub fn len(&self) -> (len: usize)
        requires
            self.wf(),
        ensures
            len == self.spec_back() - self.spec_front(),
    {
        self.iter.len
    }

    /// Lower and upper bound of the number of elements still to come; both
    /// are exact.
    pub fn size_hint(&self) -> (hint: (usize, Option<usize>))
        requires
            self.wf(),
        ensures
            hint.0 == self.spec_back() - self.spec_front(),
            hint.1 == Some(hint.0),
    {
        (self.iter.len, Some(self.iter.len))
    }
}

/// Putting a fresh node between two neighbours of a ring gives a ring with
/// the node at the place between them.
proof fn lemma_splice<T>(
    before: Seq<Node<T>>,
    after: Seq<Node<T>>,
    ring: Seq<int>,
    k: int,
    idx: int,
    elem: T,
)
    requires
        linked(before, ring),
        ring.len() > 0,
        0 <= k <= ring.len(),
        0 <= idx < after.len(),
        before.len() <= after.len(),
        !(idx < before.len() && before[idx].elem is Some),
        after[idx].elem == Some(elem),
        after[idx].next == ring[turn(k, ring.len() as int)],
        after[idx].prev == ring[pred(turn(k, ring.len() as int), ring.len() as int)],
        forall|j: int|
            0 <= j < after.len() && j != idx ==> {
                &&& j < before.len()
                &&& (#[trigger] after[j]).elem == before[j].elem
                &&& after[j].next == if j == ring[pred(
                    turn(k, ring.len() as int),
                    ring.len() as int,
                )] {
                    idx
                } else {
                    before[j].next as int
                }
                &&& after[j].prev == if j == ring[turn(k, ring.len() as int)] {
                    idx
                } else {
                    before[j].prev as int
                }
            },
    ensures
        linked(after, ring.insert(k, idx)),
        contents(after, ring.insert(k, idx)) == contents(before, ring).insert(k, elem),
{
    let n = ring.len() as int;
    let grown = ring.insert(k, idx);
    let at_pos = turn(k, n);
    let at = ring[at_pos];
    let prev = ring[pred(at_pos, n)];
    assert forall|i: int| 0 <= i < n implies ring[i] != idx by {
        assert(before[ring[i]].elem is Some);
    }
    assert forall|a: int, b: int| 0 <= a < n + 1 && 0 <= b < n + 1 && a != b implies grown[a]
        != grown[b] by {
        let oa = if a < k { a } else { a - 1 };
        let ob = if b < k { b } else { b - 1 };
        if a != k && b != k {
            assert(ring[oa] != ring[ob]);
        }
    }
    assert forall|i: int| 0 <= i < n + 1 implies 0 <= #[trigger] grown[i] < after.len() by {
        if i != k {
            let o = if i < k { i } else { i - 1 };
            assert(grown[i] == ring[o]);
        }
    }
    assert forall|i: int| 0 <= i < n + 1 implies {
        &&& (#[trigger] after[grown[i]]).elem is Some
        &&& after[grown[i]].next == grown[succ(i, n + 1)]
        &&& after[grown[i]].prev == grown[pred(i, n + 1)]
    } by {
        let up = succ(i, n + 1);
        let down = pred(i, n + 1);
        assert(grown[up] == if up < k { ring[up] } else if up == k { idx } else { ring[up - 1] });
        assert(grown[down] == if down < k { ring[down] } else if down == k { idx } else { ring[down - 1] });
        if i == k {
            assert(grown[i] == idx);
        } else {
            let o = if i < k { i } else { i - 1 };
            let j = ring[o];
            assert(grown[i] == j);
            assert(before[j].elem is Some);
            assert(before[j].next == ring[succ(o, n)]);
            assert(before[j].prev == ring[pred(o, n)]);
            assert(j == prev <==> o == pred(at_pos, n));
            assert(j == at <==> o == at_pos);
        }
    }
    assert(contents(after, grown) =~= contents(before, ring).insert(k, elem)) by {
        assert forall|i: int| 0 <= i < n + 1 implies contents(after, grown)[i] == contents(
            before,
            ring,
        ).insert(k, elem)[i] by {
            if i != k {
                let o = if i < k { i } else { i - 1 };
                assert(grown[i] == ring[o]);
            }
        }
    }
}

/// Pointing the two neighbours of a node of a ring at each other and taking
/// the node back gives a ring without that node.
proof fn lemma_unsplice<T>(
    before: Seq<Node<T>>,
    after: Seq<Node<T>>,
    ring: Seq<int>,
    k: int,
)
    requires
        linked(before, ring),
        ring.len() >= 2,
        0 <= k < ring.len(),
        after.len() == before.len(),
        forall|j: int|
            0 <= j < after.len() && j != ring[k] ==> {
                &&& (#[trigger] after[j]).elem == before[j].elem
                &&& after[j].next == if j == ring[pred(k, ring.len() as int)] {
                    ring[succ(k, ring.len() as int)]
                } else {
                    before[j].next as int
                }
                &&& after[j].prev == if j == ring[succ(k, ring.len() as int)] {
                    ring[pred(k, ring.len() as int)]
                } else {
                    before[j].prev as int
                }
            },
    ensures
        linked(after, ring.remove(k)),
        contents(after, ring.remove(k)) == contents(before, ring).remove(k),
{
    let n = ring.len() as int;
    let shrunk = ring.remove(k);
    let gone = ring[k];
    let prev = ring[pred(k, n)];
    let next = ring[succ(k, n)];
    assert forall|a: int, b: int| 0 <= a < n - 1 && 0 <= b < n - 1 && a != b implies shrunk[a]
        != shrunk[b] by {
        let oa = if a < k { a } else { a + 1 };
        let ob = if b < k { b } else { b + 1 };
        assert(ring[oa] != ring[ob]);
    }
    assert forall|i: int| 0 <= i < n - 1 implies 0 <= #[trigger] shrunk[i] < after.len() by {
        let o = if i < k { i } else { i + 1 };
        assert(shrunk[i] == ring[o]);
    }
    assert forall|i: int| 0 <= i < n - 1 implies {
        &&& (#[trigger] after[shrunk[i]]).elem is Some
        &&& after[shrunk[i]].next == shrunk[succ(i, n - 1)]
        &&& after[shrunk[i]].prev == shrunk[pred(i, n - 1)]
    } by {
        let up = succ(i, n - 1);
        let down = pred(i, n - 1);
        assert(shrunk[up] == if up < k { ring[up] } else { ring[up + 1] });
        assert(shrunk[down] == if down < k { ring[down] } else { ring[down + 1] });
        let o = if i < k { i } else { i + 1 };
        let j = ring[o];
        assert(shrunk[i] == j);
        assert(j != gone);
        assert(before[j].elem is Some);
        assert(before[j].next == ring[succ(o, n)]);
        assert(before[j].prev == ring[pred(o, n)]);
        assert(j == prev <==> o == pred(k, n));
        assert(j == next <==> o == succ(k, n));
    }
    assert(contents(after, shrunk) =~= contents(before, ring).remove(k)) by {
        assert forall|i: int| 0 <= i < n - 1 implies contents(after, shrunk)[i] == contents(
            before,
            ring,
        ).remove(k)[i] by {
            let o = if i < k { i } else { i + 1 };
            assert(shrunk[i] == ring[o]);
            assert(ring[o] != gone);
        }
    }
}

} // verus!
