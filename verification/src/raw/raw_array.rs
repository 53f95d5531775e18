//! The raw buffer: a fixed run of slots that bounded containers fill and
//! empty slot by slot.

use vstd::layout::size_of;
use vstd::prelude::*;

verus! {

/// A fixed run of slots addressed by index. Each slot is either vacant or
/// holds exactly one element; which of the two is tracked slot by slot, so
/// that reading a vacant slot or overwriting a live one is a contract
/// violation rather than undefined behaviour.
///
/// The descriptor is `{ arr, cap }`. A buffer of capacity zero owns no
/// storage at all.
pub struct RawArray<T> {
    pub arr: Vec<Option<T>>,
    pub cap: usize,
}

impl<T> View for RawArray<T> {
    type V = Seq<Option<T>>;

    /// The slots in index order: `None` for a vacant slot, `Some(x)` for a
    /// slot that holds `x`.
    open spec fn view(&self) -> Seq<Option<T>> {
        self.arr@
    }
}

impl<T> RawArray<T> {
    /// The descriptor agrees with the storage it describes.
    pub open spec fn wf(&self) -> bool {
        self.arr@.len() == self.cap
    }

    /// Every slot in `[lo, hi)` is vacant.
    pub open spec fn vacant_in(&self, lo: int, hi: int) -> bool {
        forall|i: int| lo <= i < hi ==> (#[trigger] self@[i]) is None
    }

    /// Every slot in `[lo, hi)` holds an element.
    pub open spec fn live_in(&self, lo: int, hi: int) -> bool {
        forall|i: int| lo <= i < hi ==> (#[trigger] self@[i]) is Some
    }

    /// Whether `capacity` slots fit in one allocation: their total size in
    /// bytes must not exceed `isize::MAX`.
    pub open spec fn spec_fits(capacity: usize) -> bool {
        capacity * size_of::<Option<T>>() <= isize::MAX
    }

    /// The slots after the elements of `[src + lo, src + hi)` have been moved
    /// to `[dst + lo, dst + hi)`: a moved-to slot holds what its source held,
    /// a moved-from slot that was not moved to is vacant, every other slot is
    /// untouched.
    pub open spec fn moved(
        slots: Seq<Option<T>>,
        src: int,
        dst: int,
        lo: int,
        hi: int,
    ) -> Seq<Option<T>> {
        Seq::new(
            slots.len(),
            |i: int|
                if dst + lo <= i < dst + hi {
                    slots[i - dst + src]
                } else if src + lo <= i < src + hi {
                    None
                } else {
                    slots[i]
                },
        )
    }

    /// The slots after `[start, start + count)` has been emptied.
    pub open spec fn dropped(slots: Seq<Option<T>>, start: int, count: int) -> Seq<Option<T>> {
        Seq::new(
            slots.len(),
            |i: int|
                if start <= i < start + count {
                    None
                } else {
                    slots[i]
                },
        )
    }

    /// Decides at run time whether `capacity` slots fit in one allocation.
    pub fn fits(capacity: usize) -> (ok: bool)
        ensures
            ok == Self::spec_fits(capacity),
    {
        let slot_size: usize = core::mem::size_of::<Option<T>>();
        match capacity.checked_mul(slot_size) {
            Some(bytes) => bytes <= isize::MAX as usize,
            None => {
                assert(capacity * slot_size > isize::MAX) by {
                    assert(usize::MAX >= isize::MAX);
                }
                false
            },
        }
    }

    /// Reserves exactly `capacity` vacant slots. A capacity of zero reserves
    /// nothing.
    pub fn allocate(capacity: usize) -> (raw: Self)
        requires
            Self::spec_fits(capacity),
        ensures
            raw.wf(),
            raw.cap == capacity,
            raw.vacant_in(0, capacity as int),
    {
        if capacity == 0 {
            return Self { arr: Vec::new(), cap: 0 };
        }
        let mut arr: Vec<Option<T>> = Vec::with_capacity(capacity);
        let mut filled: usize = 0;
        while filled < capacity
            invariant
                filled <= capacity,
                arr@.len() == filled,
                forall|i: int| 0 <= i < filled ==> (#[trigger] arr@[i]) is None,
            decreases capacity - filled,
        {
            arr.push(None);
            filled = filled + 1;
        }
        Self { arr, cap: capacity }
    }

    /// Reserves `capacity` vacant slots if that many fit in one allocation,
    /// and reports `None` if they do not.
    pub fn try_allocate(capacity: usize) -> (raw: Option<Self>)
        ensures
            raw is Some <==> Self::spec_fits(capacity),
            raw matches Some(r) ==> r.wf() && r.cap == capacity && r.vacant_in(0, capacity as int),
    {
        if Self::fits(capacity) {
            Some(Self::allocate(capacity))
        } else {
            None
        }
    }

    /// Releases the storage. Every element must have been taken out or
    /// dropped before; afterwards the descriptor has capacity zero.
    pub fn dealloc(&mut self)
        requires
            old(self).wf(),
            old(self).vacant_in(0, old(self).cap as int),
        ensures
            final(self).wf(),
            final(self).cap == 0,
            final(self)@ == Seq::<Option<T>>::empty(),
    {
        self.arr = Vec::new();
        self.cap = 0;
    }

    /// The slot at `index`, for reading.
    pub fn offset(&self, index: usize) -> (slot: &Option<T>)
        requires
            self.wf(),
            index < self.cap,
        ensures
            *slot == self@[index as int],
    {
        &self.arr[index]
    }

    /// The slot at `index`, for reading and writing. Whatever the caller
    /// leaves in the slot is what the buffer holds there afterwards.
    pub fn offset_mut(&mut self, index: usize) -> (slot: &mut Option<T>)
        requires
            old(self).wf(),
            index < old(self).cap,
        ensures
            *slot == old(self)@[index as int],
            final(self)@ == old(self)@.update(index as int, *final(slot)),
            final(self).cap == old(self).cap,
            final(self).wf(),
    {
        &mut self.arr[index]
    }

    /// A second, read-only descriptor of the same storage. It cannot release
    /// the storage nor change a slot.
    pub fn shadow_clone(&self) -> (shadow: &Self)
        ensures
            shadow == self,
    {
        self
    }

    /// Stores `elem` in the vacant slot at `index`.
    pub fn write(&mut self, index: usize, elem: T)
        requires
            old(self).wf(),
            index < old(self).cap,
            old(self)@[index as int] is None,
        ensures
            final(self).wf(),
            final(self).cap == old(self).cap,
            final(self)@ == old(self)@.update(index as int, Some(elem)),
    {
        self.arr[index] = Some(elem);
    }

    /// Takes the element out of the live slot at `index`, leaving it vacant.
    pub fn read(&mut self, index: usize) -> (elem: T)
        requires
            old(self).wf(),
            index < old(self).cap,
            old(self)@[index as int] is Some,
        ensures
            final(self).wf(),
            final(self).cap == old(self).cap,
            elem == old(self)@[index as int]->0,
            final(self)@ == old(self)@.update(index as int, None),
    {
        let slot = &mut self.arr[index];
        slot.take().unwrap()
    }

    /// Borrows the element in the live slot at `index`.
    pub fn get(&self, index: usize) -> (elem: &T)
        requires
            self.wf(),
            index < self.cap,
            self@[index as int] is Some,
        ensures
            *elem == self@[index as int]->0,
    {
        self.arr[index].as_ref().unwrap()
    }

    /// Borrows the element in the live slot at `index` for writing. The slot
    /// stays live and holds whatever the caller leaves behind the reference.
    pub fn get_mut(&mut self, index: usize) -> (elem: &mut T)
        requires
            old(self).wf(),
            index < old(self).cap,
            old(self)@[index as int] is Some,
        ensures
            *elem == old(self)@[index as int]->0,
            final(self).wf(),
            final(self).cap == old(self).cap,
            final(self)@ == old(self)@.update(index as int, Some(*final(elem))),
    {
        let slot = &mut self.arr[index];
        slot.as_mut().unwrap()
    }

    /// Moves the `count` slots starting at `src` to the `count` slots
    /// starting at `dst`. The two runs may overlap. A destination slot that
    /// is not also a source slot must be vacant, so that no live element is
    /// overwritten.
    pub fn move_run(&mut self, src: usize, dst: usize, count: usize)
        requires
            old(self).wf(),
            src + count <= old(self).cap,
            dst + count <= old(self).cap,
            forall|i: int|
                dst <= i < dst + count && !(src <= i < src + count) ==> (#[trigger] old(self)@[i])
                    is None,
        ensures
            final(self).wf(),
            final(self).cap == old(self).cap,
            final(self)@ == Self::moved(old(self)@, src as int, dst as int, 0, count as int),
    {
        if dst < src {
            let mut k: usize = 0;
            while k < count
                invariant
                    self.wf(),
                    self.cap == old(self).cap,
                    old(self).wf(),
                    k <= count,
                    dst < src,
                    src + count <= self.cap,
                    self@ =~= Self::moved(old(self)@, src as int, dst as int, 0, k as int),
                decreases count - k,
            {
                let from = &mut self.arr[src + k];
                let elem = from.take();
                self.arr[dst + k] = elem;
                k = k + 1;
            }
        } else if dst > src {
            let mut k: usize = count;
            while k > 0
                invariant
                    self.wf(),
                    self.cap == old(self).cap,
                    old(self).wf(),
                    k <= count,
                    dst > src,
                    dst + count <= self.cap,
                    self@ =~= Self::moved(old(self)@, src as int, dst as int, k as int, count as int),
                decreases k,
            {
                k = k - 1;
                let from = &mut self.arr[src + k];
                let elem = from.take();
                self.arr[dst + k] = elem;
            }
        }
        assert(self@ =~= Self::moved(old(self)@, src as int, dst as int, 0, count as int));
    }

    /// Drops whatever the `count` slots starting at `start` hold and leaves
    /// them vacant.
    pub fn drop_run(&mut self, start: usize, count: usize)
        requires
            old(self).wf(),
            start + count <= old(self).cap,
        ensures
            final(self).wf(),
            final(self).cap == old(self).cap,
            final(self)@ == Self::dropped(old(self)@, start as int, count as int),
    {
        let mut k: usize = 0;
        while k < count
            invariant
                self.wf(),
                self.cap == old(self).cap,
                old(self).wf(),
                k <= count,
                start + count <= self.cap,
                self@ =~= Self::dropped(old(self)@, start as int, k as int),
            decreases count - k,
        {
            self.arr[start + k] = None;
            k = k + 1;
        }
    }
}

} // verus!
