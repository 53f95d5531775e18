//! Order: what it means for a sequence to be sorted, where an element goes
//! in a sorted sequence, and that putting it there keeps the sequence sorted.

use vstd::laws_cmp::{
    obeys_cmp, obeys_cmp_ord, obeys_cmp_partial_ord, obeys_partial_cmp_spec_properties,
};
use vstd::laws_eq::obeys_eq_spec_properties;
use vstd::prelude::*;
use vstd::std_specs::cmp::{OrdSpec, PartialEqSpec, PartialOrdIs, PartialOrdSpec};

verus! {

/// The comparison operators of `T` agree with one total order.
pub open spec fn total_order<T: Ord>() -> bool {
    obeys_cmp::<T>()
}

/// `a` comes strictly after `b`.
pub open spec fn gt<T: Ord>(a: T, b: T) -> bool {
    a.is_gt(&b)
}

/// `a` does not come after `b`.
pub open spec fn le<T: Ord>(a: T, b: T) -> bool {
    a.is_le(&b)
}

/// No element comes after a later one.
pub open spec fn sorted<T: Ord>(s: Seq<T>) -> bool {
    forall|i: int, j: int| 0 <= i < j < s.len() ==> le(#[trigger] s[i], #[trigger] s[j])
}

/// The position of the first element of `s` that comes strictly after `x`,
/// or the length of `s` if there is none.
pub open spec fn insert_position<T: Ord>(s: Seq<T>, x: T) -> int
    decreases s.len(),
{
    if s.len() == 0 {
        0
    } else if gt(s[0], x) {
        0
    } else {
        1 + insert_position(s.drop_first(), x)
    }
}

/// `s` with `x` put in front of the first element that comes strictly after
/// it, and behind the last element if there is none.
pub open spec fn inserted_in_order<T: Ord>(s: Seq<T>, x: T) -> Seq<T> {
    s.insert(insert_position(s, x), x)
}

/// The result of inserting the elements of `xs` in order, one after the
/// other, starting from nothing.
pub open spec fn inserted_all<T: Ord>(xs: Seq<T>) -> Seq<T>
    decreases xs.len(),
{
    if xs.len() == 0 {
        Seq::empty()
    } else {
        inserted_in_order(inserted_all(xs.drop_last()), xs.last())
    }
}

/// Whether `a` comes strictly after `b`.
pub fn greater<T: Ord>(a: &T, b: &T) -> (after: bool)
    requires
        total_order::<T>(),
    ensures
        after == gt(*a, *b),
{
    proof {
        reveal(obeys_cmp_partial_ord);
    }
    *a > *b
}

/// Of two elements, one comes strictly after the other or does not.
/// In a total order the second case means that it comes before or is equal.
pub proof fn lemma_not_gt_is_le<T: Ord>(a: T, b: T)
    requires
        total_order::<T>(),
    ensures
        !gt(a, b) <==> le(a, b),
{
    reveal(obeys_cmp_ord);
    assert(a.partial_cmp_spec(&b) == Some(a.cmp_spec(&b)));
}

/// What comes strictly after `b` has `b` before it.
pub proof fn lemma_gt_flips<T: Ord>(a: T, b: T)
    requires
        total_order::<T>(),
        gt(a, b),
    ensures
        le(b, a),
        !gt(b, a),
{
    reveal(obeys_partial_cmp_spec_properties);
    assert(b.partial_cmp_spec(&a) == Some(core::cmp::Ordering::Less));
}

/// "Does not come after" is transitive.
pub proof fn lemma_le_transitive<T: Ord>(a: T, b: T, c: T)
    requires
        total_order::<T>(),
        le(a, b),
        le(b, c),
    ensures
        le(a, c),
{
    reveal(obeys_cmp_ord);
    reveal(obeys_partial_cmp_spec_properties);
    reveal(obeys_eq_spec_properties);
    let less = Some(core::cmp::Ordering::Less);
    let equal = Some(core::cmp::Ordering::Equal);
    let greater = Some(core::cmp::Ordering::Greater);
    assert(a.partial_cmp_spec(&c) == Some(a.cmp_spec(&c)));
    assert(c.partial_cmp_spec(&a) == Some(c.cmp_spec(&a)));
    assert(c.partial_cmp_spec(&b) == Some(c.cmp_spec(&b)));
    assert(b.partial_cmp_spec(&a) == Some(b.cmp_spec(&a)));
    if a.partial_cmp_spec(&c) == greater {
        assert(c.partial_cmp_spec(&a) == less);
        if a.partial_cmp_spec(&b) == less {
            // c < a < b, so c < b: but b <= c.
            assert(c.partial_cmp_spec(&b) == less);
            assert(b.partial_cmp_spec(&c) == greater);
        } else {
            // a == b, so c < b by c < a: but b <= c.
            assert(a.eq_spec(&b));
            if b.partial_cmp_spec(&c) == less {
                // b < c < a, so b < a: but a == b.
                assert(b.partial_cmp_spec(&a) == less);
                assert(b.eq_spec(&a));
            } else {
                assert(b.eq_spec(&c));
                assert(a.eq_spec(&c));
            }
        }
    }
}

/// The insert position is a position of `s` or its length; no element
/// before it comes strictly after `x`, and the element at it, if there is
/// one, does.
pub proof fn lemma_insert_position<T: Ord>(s: Seq<T>, x: T)
    ensures
        0 <= insert_position(s, x) <= s.len(),
        forall|i: int| 0 <= i < insert_position(s, x) ==> !gt(#[trigger] s[i], x),
        insert_position(s, x) < s.len() ==> gt(s[insert_position(s, x)], x),
    decreases s.len(),
{
    if s.len() > 0 && !gt(s[0], x) {
        let rest = s.drop_first();
        lemma_insert_position(rest, x);
        assert forall|i: int| 0 <= i < insert_position(s, x) implies !gt(#[trigger] s[i], x) by {
            if i > 0 {
                assert(s[i] == rest[i - 1]);
            }
        }
        if insert_position(s, x) < s.len() {
            assert(s[insert_position(s, x)] == rest[insert_position(rest, x)]);
        }
    }
}

/// A position with no element before it that comes strictly after `x`, and
/// with such an element at it unless it is the length of `s`, is the insert
/// position.
pub proof fn lemma_insert_position_unique<T: Ord>(s: Seq<T>, x: T, k: int)
    requires
        0 <= k <= s.len(),
        forall|i: int| 0 <= i < k ==> !gt(#[trigger] s[i], x),
        k < s.len() ==> gt(s[k], x),
    ensures
        insert_position(s, x) == k,
    decreases s.len(),
{
    if s.len() > 0 {
        if k == 0 {
        } else {
            assert(!gt(s[0], x));
            let rest = s.drop_first();
            assert forall|i: int| 0 <= i < k - 1 implies !gt(#[trigger] rest[i], x) by {
                assert(rest[i] == s[i + 1]);
            }
            if k - 1 < rest.len() {
                assert(rest[k - 1] == s[k]);
            }
            lemma_insert_position_unique(rest, x, k - 1);
        }
    }
}

/// Inserting in order into a sorted sequence leaves it sorted.
pub proof fn lemma_inserted_in_order_sorted<T: Ord>(s: Seq<T>, x: T)
    requires
        total_order::<T>(),
        sorted(s),
    ensures
        sorted(inserted_in_order(s, x)),
{
    let k = insert_position(s, x);
    let t = inserted_in_order(s, x);
    lemma_insert_position(s, x);
    assert forall|i: int, j: int| 0 <= i < j < t.len() implies le(#[trigger] t[i], #[trigger] t[j]) by {
        if j < k {
            assert(t[i] == s[i] && t[j] == s[j]);
        } else if j == k {
            assert(t[i] == s[i]);
            lemma_not_gt_is_le(s[i], x);
        } else if i < k {
            assert(t[i] == s[i] && t[j] == s[j - 1]);
        } else if i == k {
            assert(t[j] == s[j - 1]);
            lemma_gt_flips(s[k], x);
            if j - 1 > k {
                assert(le(s[k], s[j - 1]));
                lemma_le_transitive(x, s[k], s[j - 1]);
            }
        } else {
            assert(t[i] == s[i - 1] && t[j] == s[j - 1]);
        }
    }
}

/// Whatever the order in which elements arrive, inserting them in order one
/// after the other gives a sorted sequence of as many elements.
pub proof fn lemma_inserted_all_sorted<T: Ord>(xs: Seq<T>)
    requires
        total_order::<T>(),
    ensures
        sorted(inserted_all(xs)),
        inserted_all(xs).len() == xs.len(),
    decreases xs.len(),
{
    if xs.len() > 0 {
        lemma_inserted_all_sorted(xs.drop_last());
        lemma_insert_position(inserted_all(xs.drop_last()), xs.last());
        lemma_inserted_in_order_sorted(inserted_all(xs.drop_last()), xs.last());
    }
}

} // verus!
