//! Runs of pushes and pops, and what they do to the contents of a queue, of
//! a queue used from the other side and of a stack. The steps are stated on
//! sequences, as the contracts of the containers are, so that what is shown
//! here of runs holds of every container whose pushes and pops meet those
//! contracts.

use vstd::prelude::*;

verus! {

/// One step of a run of pushes and pops.
pub enum Op<T> {
    Push(T),
    Pop,
}

/// The elements that `ops` pushes, in the order of the pushes.
pub open spec fn pushed<T>(ops: Seq<Op<T>>) -> Seq<T>
    decreases ops.len(),
{
    if ops.len() == 0 {
        Seq::empty()
    } else {
        match ops.last() {
            Op::Push(x) => pushed(ops.drop_last()).push(x),
            Op::Pop => pushed(ops.drop_last()),
        }
    }
}

/// What holds `s` after one step of a queue: a push appends at the back, a
/// pop takes from the front, and a pop from nothing changes nothing.
pub open spec fn queue_step<T>(s: Seq<T>, op: Op<T>) -> Seq<T> {
    match op {
        Op::Push(x) => s.push(x),
        Op::Pop => if s.len() == 0 {
            s
        } else {
            s.drop_first()
        },
    }
}

/// What one step of a queue returns: a pop returns the front element if
/// there is one, anything else returns nothing.
pub open spec fn queue_yield<T>(s: Seq<T>, op: Op<T>) -> Option<T> {
    match op {
        Op::Push(x) => None,
        Op::Pop => if s.len() == 0 {
            None
        } else {
            Some(s.first())
        },
    }
}

/// The same queue seen from the other side: a push goes in front of the
/// first element, a pop takes from the back.
pub open spec fn mirrored_step<T>(s: Seq<T>, op: Op<T>) -> Seq<T> {
    match op {
        Op::Push(x) => seq![x] + s,
        Op::Pop => if s.len() == 0 {
            s
        } else {
            s.drop_last()
        },
    }
}

/// What one step of the mirrored queue returns.
pub open spec fn mirrored_yield<T>(s: Seq<T>, op: Op<T>) -> Option<T> {
    match op {
        Op::Push(x) => None,
        Op::Pop => if s.len() == 0 {
            None
        } else {
            Some(s.last())
        },
    }
}

/// What holds `s` after one step of a stack: a push appends at the back and
/// a pop takes from the back.
pub open spec fn stack_step<T>(s: Seq<T>, op: Op<T>) -> Seq<T> {
    match op {
        Op::Push(x) => s.push(x),
        Op::Pop => if s.len() == 0 {
            s
        } else {
            s.drop_last()
        },
    }
}

/// What one step of a stack returns.
pub open spec fn stack_yield<T>(s: Seq<T>, op: Op<T>) -> Option<T> {
    match op {
        Op::Push(x) => None,
        Op::Pop => if s.len() == 0 {
            None
        } else {
            Some(s.last())
        },
    }
}

/// What a queue that held `start` holds after the steps `ops`.
pub open spec fn queue_after<T>(start: Seq<T>, ops: Seq<Op<T>>) -> Seq<T>
    decreases ops.len(),
{
    if ops.len() == 0 {
        start
    } else {
        queue_step(queue_after(start, ops.drop_last()), ops.last())
    }
}

/// What the steps `ops` return, in order, from a queue that held `start`.
pub open spec fn queue_popped<T>(start: Seq<T>, ops: Seq<Op<T>>) -> Seq<T>
    decreases ops.len(),
{
    if ops.len() == 0 {
        Seq::empty()
    } else {
        match queue_yield(queue_after(start, ops.drop_last()), ops.last()) {
            Some(x) => queue_popped(start, ops.drop_last()).push(x),
            None => queue_popped(start, ops.drop_last()),
        }
    }
}

/// What a mirrored queue that held `start` holds after the steps `ops`.
pub open spec fn mirrored_after<T>(start: Seq<T>, ops: Seq<Op<T>>) -> Seq<T>
    decreases ops.len(),
{
    if ops.len() == 0 {
        start
    } else {
        mirrored_step(mirrored_after(start, ops.drop_last()), ops.last())
    }
}

/// What the steps `ops` return, in order, from a mirrored queue that held
/// `start`.
pub open spec fn mirrored_popped<T>(start: Seq<T>, ops: Seq<Op<T>>) -> Seq<T>
    decreases ops.len(),
{
    if ops.len() == 0 {
        Seq::empty()
    } else {
        match mirrored_yield(mirrored_after(start, ops.drop_last()), ops.last()) {
            Some(x) => mirrored_popped(start, ops.drop_last()).push(x),
            None => mirrored_popped(start, ops.drop_last()),
        }
    }
}

/// What a stack that held `start` holds after the steps `ops`.
pub open spec fn stack_after<T>(start: Seq<T>, ops: Seq<Op<T>>) -> Seq<T>
    decreases ops.len(),
{
    if ops.len() == 0 {
        start
    } else {
        stack_step(stack_after(start, ops.drop_last()), ops.last())
    }
}

/// What the steps `ops` return, in order, from a stack that held `start`.
pub open spec fn stack_popped<T>(start: Seq<T>, ops: Seq<Op<T>>) -> Seq<T>
    decreases ops.len(),
{
    if ops.len() == 0 {
        Seq::empty()
    } else {
        match stack_yield(stack_after(start, ops.drop_last()), ops.last()) {
            Some(x) => stack_popped(start, ops.drop_last()).push(x),
            None => stack_popped(start, ops.drop_last()),
        }
    }
}

/// A container that can hold `cap` elements and holds `s` has no room for
/// another.
pub open spec fn full<T>(s: Seq<T>, cap: nat) -> bool {
    s.len() == cap
}

/// One push for each element of `xs`, in order.
pub open spec fn pushes<T>(xs: Seq<T>) -> Seq<Op<T>> {
    Seq::new(xs.len(), |i: int| Op::Push(xs[i]))
}

/// `count` pops.
pub open spec fn pops<T>(count: nat) -> Seq<Op<T>> {
    Seq::new(count, |i: int| Op::Pop)
}

/// For each element of `xs` in order, a push of it and then a pop.
pub open spec fn rounds<T>(xs: Seq<T>) -> Seq<Op<T>>
    decreases xs.len(),
{
    if xs.len() == 0 {
        Seq::empty()
    } else {
        rounds(xs.drop_last()).push(Op::Push(xs.last())).push(Op::Pop)
    }
}

/// First in, first out. However pushes and pops alternate, what the pops
/// of a queue have returned, followed by what the queue still holds, is
/// what the queue held at the start followed by what was pushed.
pub proof fn lemma_fifo<T>(start: Seq<T>, ops: Seq<Op<T>>)
    ensures
        queue_popped(start, ops) + queue_after(start, ops) == start + pushed(ops),
    decreases ops.len(),
{
    if ops.len() == 0 {
        assert(Seq::<T>::empty() + start =~= start + Seq::<T>::empty());
    } else {
        let before = ops.drop_last();
        lemma_fifo(start, before);
        let held = queue_after(start, before);
        let out = queue_popped(start, before);
        match ops.last() {
            Op::Push(x) => {
                assert(out + held.push(x) =~= (out + held).push(x));
                assert(start + pushed(before).push(x) =~= (start + pushed(before)).push(x));
            },
            Op::Pop => {
                if held.len() > 0 {
                    assert(out.push(held.first()) + held.drop_first() =~= out + held);
                }
            },
        }
    }
}

/// From an empty queue the pops return the pushed elements in the order
/// in which they were pushed, and after `n` pushes and `m` pops that each
/// found an element the queue holds the other `n - m` elements.
pub proof fn lemma_fifo_from_empty<T>(ops: Seq<Op<T>>)
    ensures
        queue_popped(Seq::empty(), ops).len() <= pushed(ops).len(),
        queue_popped(Seq::empty(), ops) == pushed(ops).subrange(
            0,
            queue_popped(Seq::empty(), ops).len() as int,
        ),
        queue_after(Seq::empty(), ops) == pushed(ops).subrange(
            queue_popped(Seq::empty(), ops).len() as int,
            pushed(ops).len() as int,
        ),
        queue_after(Seq::empty(), ops).len() == pushed(ops).len() - queue_popped(
            Seq::empty(),
            ops,
        ).len(),
{
    let out = queue_popped(Seq::<T>::empty(), ops);
    let held = queue_after(Seq::<T>::empty(), ops);
    lemma_fifo(Seq::<T>::empty(), ops);
    assert(Seq::<T>::empty() + pushed(ops) =~= pushed(ops));
    assert((out + held).len() == out.len() + held.len());
    assert(out =~= (out + held).subrange(0, out.len() as int));
    assert(held =~= (out + held).subrange(out.len() as int, (out + held).len() as int));
}

/// The same for the mirrored queue, where pushes go to the front and pops
/// take from the back: the pops return the elements in the order in which
/// they were pushed.
pub proof fn lemma_fifo_mirrored<T>(start: Seq<T>, ops: Seq<Op<T>>)
    ensures
        mirrored_popped(start, ops) + mirrored_after(start, ops).reverse() == start.reverse()
            + pushed(ops),
    decreases ops.len(),
{
    if ops.len() == 0 {
        assert(Seq::<T>::empty() + start.reverse() =~= start.reverse() + Seq::<T>::empty());
    } else {
        let before = ops.drop_last();
        lemma_fifo_mirrored(start, before);
        let held = mirrored_after(start, before);
        let out = mirrored_popped(start, before);
        match ops.last() {
            Op::Push(x) => {
                assert((seq![x] + held).reverse() =~= held.reverse().push(x));
                assert(out + held.reverse().push(x) =~= (out + held.reverse()).push(x));
                assert(start.reverse() + pushed(before).push(x) =~= (start.reverse() + pushed(
                    before,
                )).push(x));
            },
            Op::Pop => {
                if held.len() > 0 {
                    assert(held.reverse() =~= seq![held.last()] + held.drop_last().reverse());
                    assert(out.push(held.last()) + held.drop_last().reverse() =~= out
                        + held.reverse());
                }
            },
        }
    }
}

/// Pushing the elements of `xs` one after the other puts them behind what
/// was there, in order, and returns nothing.
pub proof fn lemma_pushes<T>(start: Seq<T>, xs: Seq<T>)
    ensures
        queue_after(start, pushes(xs)) == start + xs,
        stack_after(start, pushes(xs)) == start + xs,
        queue_popped(start, pushes(xs)) == Seq::<T>::empty(),
        stack_popped(start, pushes(xs)) == Seq::<T>::empty(),
        pushed(pushes(xs)) == xs,
    decreases xs.len(),
{
    if xs.len() == 0 {
        assert(pushes(xs) =~= Seq::<Op<T>>::empty());
        assert(start + xs =~= start);
        assert(pushed(pushes(xs)) =~= xs);
    } else {
        lemma_pushes(start, xs.drop_last());
        assert(pushes(xs).drop_last() =~= pushes(xs.drop_last()));
        assert(pushes(xs).last() == Op::Push(xs.last()));
        assert((start + xs.drop_last()).push(xs.last()) =~= start + xs);
        assert(xs.drop_last().push(xs.last()) =~= xs);
    }
}

/// Last in, first out. After the elements of `xs` have been pushed on a
/// stack, `m` pops, if `xs` has as many elements, return the last `m`
/// elements of `xs`, the last one first, and leave on the stack what was
/// there before and the other elements of `xs`.
pub proof fn lemma_lifo<T>(start: Seq<T>, xs: Seq<T>, m: nat)
    requires
        m <= xs.len(),
    ensures
        stack_popped(start, pushes(xs) + pops(m)) == xs.reverse().subrange(0, m as int),
        stack_after(start, pushes(xs) + pops(m)) == start + xs.subrange(0, xs.len() - m),
        stack_after(start, pushes(xs) + pops(m)).len() == start.len() + xs.len() - m,
    decreases m,
{
    let ops = pushes(xs) + pops::<T>(m);
    if m == 0 {
        lemma_pushes(start, xs);
        assert(ops =~= pushes(xs));
        assert(xs.subrange(0, xs.len() as int) =~= xs);
        assert(xs.reverse().subrange(0, 0) =~= Seq::<T>::empty());
    } else {
        let before = pushes(xs) + pops::<T>((m - 1) as nat);
        lemma_lifo(start, xs, (m - 1) as nat);
        assert(ops.drop_last() =~= before);
        assert(ops.last() == Op::<T>::Pop);
        let held = start + xs.subrange(0, xs.len() - m + 1);
        assert(held.last() == xs[xs.len() - m]);
        assert(held.drop_last() =~= start + xs.subrange(0, xs.len() - m));
        assert(xs.reverse().subrange(0, m - 1).push(xs[xs.len() - m]) =~= xs.reverse().subrange(
            0,
            m as int,
        ));
    }
}

/// What lies under the top of a stack stays as it is. If a run of pushes and
/// pops never takes the stack below the height it started with, then what
/// the stack held at the start is still there, in place, at the end: an
/// element leaves only after everything pushed on top of it has left.
pub proof fn lemma_lifo_nested<T>(start: Seq<T>, ops: Seq<Op<T>>)
    requires
        forall|k: int|
            0 <= k <= ops.len() ==> start.len() <= (#[trigger] stack_after(
                start,
                ops.subrange(0, k),
            )).len(),
    ensures
        stack_after(start, ops).subrange(0, start.len() as int) == start,
    decreases ops.len(),
{
    if ops.len() == 0 {
        assert(start.subrange(0, start.len() as int) =~= start);
    } else {
        let before = ops.drop_last();
        assert forall|k: int| 0 <= k <= before.len() implies start.len() <= (#[trigger] stack_after(
            start,
            before.subrange(0, k),
        )).len() by {
            assert(before.subrange(0, k) =~= ops.subrange(0, k));
        }
        lemma_lifo_nested(start, before);
        assert(ops.subrange(0, ops.len() as int) =~= ops);
        assert(before.subrange(0, before.len() as int) =~= before);
        let held = stack_after(start, before);
        assert(start.len() <= held.len());
        assert(start.len() <= stack_after(start, ops).len());
        assert(stack_after(start, ops).subrange(0, start.len() as int) =~= held.subrange(
            0,
            start.len() as int,
        ));
    }
}

/// A push and then a pop, again and again: from a queue that held `start`,
/// as many rounds as `xs` has elements return the first that many elements
/// of `start` followed by `xs`, in order, and leave the rest in the queue,
/// which is as long as it was.
pub proof fn lemma_rounds<T>(start: Seq<T>, xs: Seq<T>)
    ensures
        queue_popped(start, rounds(xs)) == (start + xs).subrange(0, xs.len() as int),
        queue_after(start, rounds(xs)) == (start + xs).subrange(
            xs.len() as int,
            (start + xs).len() as int,
        ),
        queue_after(start, rounds(xs)).len() == start.len(),
    decreases xs.len(),
{
    if xs.len() == 0 {
        assert((start + xs).subrange(0, 0) =~= Seq::<T>::empty());
        assert((start + xs).subrange(0, start.len() as int) =~= start);
    } else {
        let head = xs.drop_last();
        let x = xs.last();
        lemma_rounds(start, head);
        let ops = rounds(xs);
        let half = rounds(head).push(Op::Push(x));
        assert(ops.drop_last() =~= half);
        assert(half.drop_last() =~= rounds(head));
        let held = queue_after(start, rounds(head));
        let out = queue_popped(start, rounds(head));
        assert(queue_after(start, half) == held.push(x));
        assert(queue_popped(start, half) == out);
        let all = start + xs;
        assert(held.push(x) =~= all.subrange(head.len() as int, all.len() as int)) by {
            assert forall|i: int| 0 <= i < held.len() implies held[i] == all[head.len() + i] by {
                assert(held[i] == (start + head)[head.len() + i]);
            }
        }
        assert(out =~= all.subrange(0, head.len() as int)) by {
            assert forall|i: int| 0 <= i < out.len() implies out[i] == all[i] by {
                assert(out[i] == (start + head)[i]);
            }
        }
        assert(held.push(x).drop_first() =~= all.subrange(xs.len() as int, all.len() as int));
        assert(out.push(held.push(x).first()) =~= all.subrange(0, xs.len() as int));
    }
}

/// A bounded queue fills up at its capacity and no sooner. From empty, each
/// of as many pushes as the capacity finds room, and after them the queue is
/// full. If the capacity is not zero, one pop then makes room for one push,
/// which fills the queue again.
pub proof fn lemma_full_at_capacity<T>(cap: nat, xs: Seq<T>, x: T)
    requires
        xs.len() == cap,
    ensures
        forall|k: int|
            0 <= k < cap ==> !full(
                queue_after(Seq::empty(), #[trigger] pushes(xs.subrange(0, k))),
                cap,
            ),
        full(queue_after(Seq::empty(), pushes(xs)), cap),
        cap > 0 ==> !full(queue_step(queue_after(Seq::empty(), pushes(xs)), Op::Pop), cap),
        cap > 0 ==> full(
            queue_step(queue_step(queue_after(Seq::empty(), pushes(xs)), Op::Pop), Op::Push(x)),
            cap,
        ),
{
    assert forall|k: int| 0 <= k < cap implies !full(
        queue_after(Seq::empty(), #[trigger] pushes(xs.subrange(0, k))),
        cap,
    ) by {
        lemma_pushes(Seq::empty(), xs.subrange(0, k));
    }
    lemma_pushes(Seq::empty(), xs);
}

/// A bounded queue with room for one more never runs out of room over
/// rounds of a push and a pop, however many, and returns what it held and
/// what is pushed in order: the place of an element in the buffer does not
/// show.
pub proof fn lemma_rounds_keep_room<T>(cap: nat, start: Seq<T>, xs: Seq<T>)
    requires
        start.len() < cap,
    ensures
        forall|k: int|
            0 <= k <= xs.len() ==> !full(
                queue_after(start, #[trigger] rounds(xs.subrange(0, k))),
                cap,
            ),
        queue_popped(start, rounds(xs)) == (start + xs).subrange(0, xs.len() as int),
        queue_after(start, rounds(xs)) == (start + xs).subrange(
            xs.len() as int,
            (start + xs).len() as int,
        ),
{
    assert forall|k: int| 0 <= k <= xs.len() implies !full(
        queue_after(start, #[trigger] rounds(xs.subrange(0, k))),
        cap,
    ) by {
        lemma_rounds(start, xs.subrange(0, k));
    }
    lemma_rounds(start, xs);
}

} // verus!
