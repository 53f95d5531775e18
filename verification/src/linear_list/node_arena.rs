//! The node store of the linked list: nodes addressed by number, with a
//! free list for the nodes that are out of use.

use vstd::prelude::*;

verus! {

/// The link value that points at no node.
pub const NIL: usize = usize::MAX;

/// One node of a doubly linked ring. A node in use holds an element and the
/// numbers of its two neighbours; a node out of use holds no element.
pub struct Node<T> {
    pub elem: Option<T>,
    pub prev: usize,
    pub next: usize,
}

/// The nodes of a linked list, addressed by number. Nodes are handed out
/// one at a time and taken back one at a time; a node that was taken back is
/// kept on a free list and handed out again before the arena grows.
pub struct NodeArena<T> {
    nodes: Vec<Node<T>>,
    free: usize,
    spare: Ghost<Seq<int>>,
    live: Ghost<nat>,
}

impl<T> View for NodeArena<T> {
    type V = Seq<Node<T>>;

    /// All nodes, in use or not, by number.
    closed spec fn view(&self) -> Seq<Node<T>> {
        self.nodes@
    }
}

impl<T> NodeArena<T> {
    /// Node `i` exists and is in use.
    pub open spec fn is_live(&self, i: int) -> bool {
        0 <= i < self@.len() && self@[i].elem is Some
    }

    /// The free list threads exactly the nodes that are out of use, each
    /// once, from `free` to `NIL`.
    #[verifier::opaque]
    pub closed spec fn wf(&self) -> bool {
        &&& self.live@ + self.spare@.len() == self.nodes@.len()
        &&& self.spare@.no_duplicates()
        &&& self.free == if self.spare@.len() > 0 {
            self.spare@[0]
        } else {
            NIL as int
        }
        &&& forall|j: int|
            0 <= j < self.spare@.len() ==> 0 <= #[trigger] self.spare@[j] < self.nodes@.len()
        &&& forall|j: int|
            0 <= j < self.spare@.len() ==> {
                &&& (#[trigger] self.nodes@[self.spare@[j]]).elem is None
                &&& self.nodes@[self.spare@[j]].next == if j + 1 < self.spare@.len() {
                    self.spare@[j + 1]
                } else {
                    NIL as int
                }
            }
        &&& forall|i: int|
            0 <= i < self.nodes@.len() && (#[trigger] self.nodes@[i]).elem is None
                ==> self.spare@.contains(i)
    }

    /// The number of nodes in use.
    pub closed spec fn spec_live(&self) -> nat {
        self.live@
    }

    /// The nodes in use can be counted in a `usize`.
    pub proof fn lemma_live_fits(&self)
        requires
            self.wf(),
        ensures
            self.spec_live() <= self@.len() <= usize::MAX,
    {
        reveal(NodeArena::wf);
        assert(self.nodes.len() == self.nodes@.len());
    }

    /// An arena without nodes.
    pub fn new() -> (arena: Self)
        ensures
            arena.wf(),
            arena@.len() == 0,
            arena.spec_live() == 0,
    {
        proof {
            reveal(NodeArena::wf);
        }
        Self { nodes: Vec::new(), free: NIL, spare: Ghost(Seq::empty()), live: Ghost(0) }
    }

    /// Hands out a node that holds `elem` and the links `prev` and `next`.
    /// No other node changes.
    pub fn allocate(&mut self, elem: T, prev: usize, next: usize) -> (idx: usize)
        requires
            old(self).wf(),
        ensures
            final(self).wf(),
            final(self).spec_live() == old(self).spec_live() + 1,
            !old(self).is_live(idx as int),
            idx < NIL,
            idx < final(self)@.len(),
            old(self)@.len() <= final(self)@.len(),
            final(self)@[idx as int] == (Node { elem: Some(elem), prev, next }),
            forall|j: int|
                0 <= j < final(self)@.len() && j != idx ==> j < old(self)@.len()
                    && #[trigger] final(self)@[j] == old(self)@[j],
    {
        proof {
            reveal(NodeArena::wf);
            self.live = Ghost(self.live@ + 1);
        }
        if self.free == NIL {
            let idx = self.nodes.len();
            self.nodes.push(Node { elem: Some(elem), prev, next });
            assert(self.nodes.len() == self.nodes@.len());
            proof {
                assert forall|i: int|
                    0 <= i < self.nodes@.len() && (#[trigger] self.nodes@[i]).elem is None
                    implies self.spare@.contains(i) by {
                    assert(old(self).nodes@[i].elem is None);
                }
            }
            idx
        } else {
            let idx = self.free;
            assert(self.spare@.len() > 0 && self.spare@[0] == idx);
            self.free = self.nodes[idx].next;
            self.nodes[idx] = Node { elem: Some(elem), prev, next };
            proof {
                let before = self.spare@;
                let after = before.drop_first();
                self.spare = Ghost(after);
                assert(old(self).nodes@[before[0]].elem is None);
                assert forall|j: int| 0 <= j < after.len() implies {
                    &&& (#[trigger] self.nodes@[after[j]]).elem is None
                    &&& self.nodes@[after[j]].next == if j + 1 < after.len() {
                        after[j + 1]
                    } else {
                        NIL as int
                    }
                } by {
                    assert(after[j] == before[j + 1]);
                    assert(before[j + 1] != before[0]);
                    assert(old(self).nodes@[before[j + 1]].elem is None);
                }
                assert forall|i: int|
                    0 <= i < self.nodes@.len() && (#[trigger] self.nodes@[i]).elem is None
                    implies after.contains(i) by {
                    assert(old(self).nodes@[i].elem is None);
                    assert(before.contains(i));
                    let j = choose|j: int| 0 <= j < before.len() && before[j] == i;
                    assert(after[j - 1] == i);
                }
            }
            idx
        }
    }

    /// Takes back node `idx` and returns the element it held. No other node
    /// changes.
    pub fn consume(&mut self, idx: usize) -> (elem: T)
        requires
            old(self).wf(),
            old(self).is_live(idx as int),
        ensures
            final(self).wf(),
            final(self).spec_live() == old(self).spec_live() - 1,
            elem == old(self)@[idx as int].elem->0,
            final(self)@.len() == old(self)@.len(),
            !final(self).is_live(idx as int),
            forall|j: int|
                0 <= j < final(self)@.len() && j != idx ==> #[trigger] final(self)@[j] == old(
                    self,
                )@[j],
    {
        proof {
            reveal(NodeArena::wf);
        }
        let free = self.free;
        let node = &mut self.nodes[idx];
        let elem = node.elem.take().unwrap();
        node.next = free;
        self.free = idx;
        proof {
            assert(!self.spare@.contains(idx as int));
            assert(self.live@ > 0) by {
                if self.live@ == 0 {
                    lemma_full_range(self.spare@, self.nodes@.len() as int, idx as int);
                }
            }
            self.live = Ghost((self.live@ - 1) as nat);
            let before = self.spare@;
            let after = seq![idx as int] + before;
            self.spare = Ghost(after);
            assert forall|j: int| 0 <= j < after.len() implies {
                &&& (#[trigger] self.nodes@[after[j]]).elem is None
                &&& self.nodes@[after[j]].next == if j + 1 < after.len() {
                    after[j + 1]
                } else {
                    NIL as int
                }
            } by {
                if j > 0 {
                    assert(after[j] == before[j - 1]);
                    assert(before.contains(before[j - 1]));
                    assert(old(self).nodes@[before[j - 1]].elem is None);
                }
            }
            assert forall|i: int|
                0 <= i < self.nodes@.len() && (#[trigger] self.nodes@[i]).elem is None
                implies after.contains(i) by {
                if i == idx {
                    assert(after[0] == i);
                } else {
                    assert(old(self).nodes@[i].elem is None);
                    let j = choose|j: int| 0 <= j < before.len() && before[j] == i;
                    assert(after[j + 1] == i);
                }
            }
            assert forall|a: int, b: int|
                0 <= a < after.len() && 0 <= b < after.len() && a != b implies after[a]
                != after[b] by {
                if a > 0 {
                    assert(before.contains(before[a - 1]));
                }
                if b > 0 {
                    assert(before.contains(before[b - 1]));
                }
            }
        }
        elem
    }

    /// Drops the element of node `idx` and takes the node back.
    pub fn dealloc(&mut self, idx: usize)
        requires
            old(self).wf(),
            old(self).is_live(idx as int),
        ensures
            final(self).wf(),
            final(self).spec_live() == old(self).spec_live() - 1,
            final(self)@.len() == old(self)@.len(),
            !final(self).is_live(idx as int),
            forall|j: int|
                0 <= j < final(self)@.len() && j != idx ==> #[trigger] final(self)@[j] == old(
                    self,
                )@[j],
    {
        let _elem = self.consume(idx);
    }

    /// The element of the live node `idx`.
    pub fn elem(&self, idx: usize) -> (elem: &T)
        requires
            self.wf(),
            self.is_live(idx as int),
        ensures
            *elem == self@[idx as int].elem->0,
    {
        self.nodes[idx].elem.as_ref().unwrap()
    }

    /// The element of the live node `idx`, for writing. The node holds
    /// afterwards whatever the caller leaves behind the reference; its links
    /// and all other nodes stay as they are.
    pub fn elem_mut(&mut self, idx: usize) -> (elem: &mut T)
        requires
            old(self).wf(),
            old(self).is_live(idx as int),
        ensures
            *elem == old(self)@[idx as int].elem->0,
            final(self).wf(),
            final(self).spec_live() == old(self).spec_live(),
            final(self)@ == old(self)@.update(
                idx as int,
                Node {
                    elem: Some(*final(elem)),
                    prev: old(self)@[idx as int].prev,
                    next: old(self)@[idx as int].next,
                },
            ),
    {
        proof {
            reveal(NodeArena::wf);
        }
        let node = &mut self.nodes[idx];
        node.elem.as_mut().unwrap()
    }

    /// The link of the live node `idx` to the node behind it.
    pub fn next(&self, idx: usize) -> (next: usize)
        requires
            self.wf(),
            self.is_live(idx as int),
        ensures
            next == self@[idx as int].next,
    {
        self.nodes[idx].next
    }

    /// The link of the live node `idx` to the node before it.
    pub fn prev(&self, idx: usize) -> (prev: usize)
        requires
            self.wf(),
            self.is_live(idx as int),
        ensures
            prev == self@[idx as int].prev,
    {
        self.nodes[idx].prev
    }

    /// Points the live node `idx` at `next` as the node behind it.
    pub fn set_next(&mut self, idx: usize, next: usize)
        requires
            old(self).wf(),
            old(self).is_live(idx as int),
        ensures
            final(self).wf(),
            final(self).spec_live() == old(self).spec_live(),
            final(self)@ == old(self)@.update(
                idx as int,
                Node {
                    elem: old(self)@[idx as int].elem,
                    prev: old(self)@[idx as int].prev,
                    next,
                },
            ),
    {
        let node = &mut self.nodes[idx];
        node.next = next;
        proof {
            reveal(NodeArena::wf);
            assert forall|i: int|
                0 <= i < self.nodes@.len() && (#[trigger] self.nodes@[i]).elem is None
                implies self.spare@.contains(i) by {
                assert(old(self).nodes@[i].elem is None);
            }
        }
    }

    /// Points the live node `idx` at `prev` as the node before it.
    pub fn set_prev(&mut self, idx: usize, prev: usize)
        requires
            old(self).wf(),
            old(self).is_live(idx as int),
        ensures
            final(self).wf(),
            final(self).spec_live() == old(self).spec_live(),
            final(self)@ == old(self)@.update(
                idx as int,
                Node {
                    elem: old(self)@[idx as int].elem,
                    prev,
                    next: old(self)@[idx as int].next,
                },
            ),
    {
        let node = &mut self.nodes[idx];
        node.prev = prev;
        proof {
            reveal(NodeArena::wf);
            assert forall|i: int|
                0 <= i < self.nodes@.len() && (#[trigger] self.nodes@[i]).elem is None
                implies self.spare@.contains(i) by {
                assert(old(self).nodes@[i].elem is None);
            }
        }
    }

    /// Takes the live node `idx` out of its ring: its two neighbours are
    /// pointed at each other. The node itself keeps its element and links.
    pub fn delete(&mut self, idx: usize)
        requires
            old(self).wf(),
            old(self).is_live(idx as int),
            old(self).is_live(old(self)@[idx as int].prev as int),
            old(self).is_live(old(self)@[idx as int].next as int),
        ensures
            final(self).wf(),
            final(self).spec_live() == old(self).spec_live(),
            final(self)@.len() == old(self)@.len(),
            forall|j: int|
                0 <= j < final(self)@.len() ==> #[trigger] final(self)@[j] == relinked(
                    old(self)@[j],
                    j,
                    old(self)@[idx as int].prev,
                    old(self)@[idx as int].next,
                    old(self)@[idx as int].next,
                    old(self)@[idx as int].prev,
                ),
    {
        let prev = self.prev(idx);
        let next = self.next(idx);
        self.set_next(prev, next);
        self.set_prev(next, prev);
    }

    /// Hands out a node that holds `elem` and puts it into a ring between
    /// the live nodes `prev` and `next`, which may be one and the same.
    pub fn insert(&mut self, elem: T, prev: usize, next: usize) -> (idx: usize)
        requires
            old(self).wf(),
            old(self).is_live(prev as int),
            old(self).is_live(next as int),
        ensures
            final(self).wf(),
            final(self).spec_live() == old(self).spec_live() + 1,
            !old(self).is_live(idx as int),
            idx < NIL,
            idx < final(self)@.len(),
            old(self)@.len() <= final(self)@.len(),
            final(self)@[idx as int] == (Node { elem: Some(elem), prev, next }),
            forall|j: int|
                0 <= j < final(self)@.len() && j != idx ==> j < old(self)@.len()
                    && #[trigger] final(self)@[j] == relinked(
                    old(self)@[j],
                    j,
                    prev,
                    next,
                    idx,
                    idx,
                ),
    {
        let idx = self.allocate(elem, prev, next);
        let ghost fresh = self@;
        self.set_next(prev, idx);
        let ghost half = self@;
        self.set_prev(next, idx);
        proof {
            assert forall|j: int| 0 <= j < self@.len() && j != idx implies j < old(self)@.len()
                && #[trigger] self@[j] == relinked(old(self)@[j], j, prev, next, idx, idx) by {
                assert(fresh[j] == old(self)@[j]);
                assert(half[j].elem == fresh[j].elem);
                assert(self@[j].elem == half[j].elem);
            }
        }
        idx
    }
}

/// A duplicate-free sequence of `n` numbers below `n` holds every number
/// below `n`.
proof fn lemma_full_range(s: Seq<int>, n: int, x: int)
    requires
        s.no_duplicates(),
        s.len() == n,
        forall|j: int| 0 <= j < s.len() ==> 0 <= #[trigger] s[j] < n,
        0 <= x < n,
    ensures
        s.contains(x),
    decreases n,
{
    if !s.contains(x) {
        // Drop the one occurrence of `n - 1`, if any, and recurse on `n - 1`.
        if s.contains(n - 1) {
            let at = choose|at: int| 0 <= at < s.len() && s[at] == n - 1;
            let rest = s.remove(at);
            assert forall|j: int| 0 <= j < rest.len() implies 0 <= #[trigger] rest[j] < n - 1 by {
                if j < at {
                    assert(rest[j] == s[j]);
                } else {
                    assert(rest[j] == s[j + 1]);
                }
            }
            assert(rest.no_duplicates()) by {
                assert forall|a: int, b: int|
                    0 <= a < rest.len() && 0 <= b < rest.len() && a != b implies rest[a]
                    != rest[b] by {
                    let aa = if a < at { a } else { a + 1 };
                    let bb = if b < at { b } else { b + 1 };
                    assert(rest[a] == s[aa] && rest[b] == s[bb]);
                }
            }
            assert(x != n - 1);
            lemma_full_range(rest, n - 1, x);
            let j = choose|j: int| 0 <= j < rest.len() && rest[j] == x;
            let jj = if j < at { j } else { j + 1 };
            assert(s[jj] == x);
        } else {
            let rest = s.drop_last();
            if n == 1 {
                assert(s[0] == 0);
            } else {
                assert(s.last() < n - 1);
                // `rest` has n - 1 distinct entries below n - 1, so it holds
                // `s.last()` as well: a duplicate.
                assert forall|j: int| 0 <= j < rest.len() implies 0 <= #[trigger] rest[j] < n
                    - 1 by {
                    assert(rest[j] == s[j]);
                    assert(s.contains(s[j]));
                }
                lemma_full_range(rest, n - 1, s.last());
                let j = choose|j: int| 0 <= j < rest.len() && rest[j] == s.last();
                assert(s[j] == s[n - 1]);
            }
        }
    }
}

/// Node `j` after the node `before` has been given `new_next` as the node
/// behind it and the node `behind` has been given `new_prev` as the node
/// before it.
pub open spec fn relinked<T>(
    node: Node<T>,
    j: int,
    before: usize,
    behind: usize,
    new_next: usize,
    new_prev: usize,
) -> Node<T> {
    Node {
        elem: node.elem,
        prev: if j == behind {
            new_prev
        } else {
            node.prev
        },
        next: if j == before {
            new_next
        } else {
            node.next
        },
    }
}

} // verus!
