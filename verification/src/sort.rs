//! A stable sort, with the order it produces as a function of its input.

use vstd::prelude::*;

verus! {

/// `s` with `x` put in behind the last element that is not above it: `x`
/// moves from the end to the front past every element that `le` does not
/// put before it.
pub open spec fn insert_sorted<T>(s: Seq<T>, x: T, le: spec_fn(T, T) -> bool) -> Seq<T>
    decreases s.len(),
{
    if s.len() == 0 || le(s.last(), x) {
        s.push(x)
    } else {
        insert_sorted(s.drop_last(), x, le).push(s.last())
    }
}

/// `s` in the order of `le`; elements that `le` does not tell apart keep
/// the order they came in.
pub open spec fn sorted_by<T>(s: Seq<T>, le: spec_fn(T, T) -> bool) -> Seq<T>
    decreases s.len(),
{
    if s.len() == 0 {
        s
    } else {
        insert_sorted(sorted_by(s.drop_last(), le), s.last(), le)
    }
}

/// Putting one element in adds one element, and what holds of the element
/// and of all that were there holds of all that are there.
pub proof fn lemma_insert_sorted_all<T>(
    s: Seq<T>,
    x: T,
    le: spec_fn(T, T) -> bool,
    holds: spec_fn(T) -> bool,
)
    requires
        holds(x),
        forall|i: int| 0 <= i < s.len() ==> holds(#[trigger] s[i]),
    ensures
        insert_sorted(s, x, le).len() == s.len() + 1,
        forall|i: int|
            0 <= i < s.len() + 1 ==> holds(#[trigger] insert_sorted(s, x, le)[i]),
    decreases s.len(),
{
    if s.len() == 0 || le(s.last(), x) {
    } else {
        lemma_insert_sorted_all(s.drop_last(), x, le, holds);
    }
}

/// Sorting keeps the number of elements, and what holds of every element
/// before holds of every element after.
pub proof fn lemma_sorted_by_all<T>(s: Seq<T>, le: spec_fn(T, T) -> bool, holds: spec_fn(T) -> bool)
    requires
        forall|i: int| 0 <= i < s.len() ==> holds(#[trigger] s[i]),
    ensures
        sorted_by(s, le).len() == s.len(),
        forall|i: int| 0 <= i < s.len() ==> holds(#[trigger] sorted_by(s, le)[i]),
    decreases s.len(),
{
    if s.len() > 0 {
        lemma_sorted_by_all(s.drop_last(), le, holds);
        lemma_insert_sorted_all(sorted_by(s.drop_last(), le), s.last(), le, holds);
    }
}

/// `s` is in the order of `le`: no element stands before one that `le`
/// puts before it and not after it.
pub open spec fn is_sorted<T>(s: Seq<T>, le: spec_fn(T, T) -> bool) -> bool {
    forall|i: int, j: int| 0 <= i < j < s.len() ==> le(#[trigger] s[i], #[trigger] s[j])
}

/// `le` compares any two elements one way or the other, and what it puts
/// before something that it puts before a third, it puts before the third.
pub open spec fn is_total_preorder<T>(le: spec_fn(T, T) -> bool) -> bool {
    &&& forall|a: T, b: T| #[trigger] le(a, b) || le(b, a)
    &&& forall|a: T, b: T, c: T| #[trigger] le(a, b) && #[trigger] le(b, c) ==> le(a, c)
}

/// Putting an element into a sorted sequence leaves it sorted, with the
/// same elements and the new one.
pub proof fn lemma_insert_sorted<T>(s: Seq<T>, x: T, le: spec_fn(T, T) -> bool)
    requires
        is_total_preorder(le),
        is_sorted(s, le),
    ensures
        is_sorted(insert_sorted(s, x, le), le),
        insert_sorted(s, x, le).to_multiset() == s.to_multiset().insert(x),
    decreases s.len(),
{
    broadcast use vstd::seq_lib::group_to_multiset_ensures;

    let out = insert_sorted(s, x, le);
    if s.len() == 0 || le(s.last(), x) {
        assert forall|i: int, j: int| 0 <= i < j < out.len() implies le(
            #[trigger] out[i],
            #[trigger] out[j],
        ) by {
            if j == s.len() {
                if i < s.len() - 1 {
                    assert(le(s[i], s[s.len() - 1]));
                }
            }
        }
    } else {
        let front = s.drop_last();
        assert forall|i: int, j: int| 0 <= i < j < front.len() implies le(
            #[trigger] front[i],
            #[trigger] front[j],
        ) by {
            assert(le(s[i], s[j]));
        }
        lemma_insert_sorted(front, x, le);
        let inner = insert_sorted(front, x, le);
        lemma_insert_sorted_all(front, x, le, |y: T| le(y, s.last()));
        assert(le(x, s.last()));
        assert forall|i: int| 0 <= i < front.len() implies le(#[trigger] front[i], s.last()) by {
            assert(le(s[i], s[s.len() - 1]));
        }
        assert forall|i: int, j: int| 0 <= i < j < out.len() implies le(
            #[trigger] out[i],
            #[trigger] out[j],
        ) by {
            if j < inner.len() {
                assert(le(inner[i], inner[j]));
            }
        }
        assert(s == front.push(s.last()));
        assert(s.to_multiset() == front.to_multiset().insert(s.last()));
        assert(out.to_multiset() =~= s.to_multiset().insert(x));
    }
}

/// Sorting by a total preorder gives a sorted sequence of the same elements.
pub proof fn lemma_sorted_by<T>(s: Seq<T>, le: spec_fn(T, T) -> bool)
    requires
        is_total_preorder(le),
    ensures
        is_sorted(sorted_by(s, le), le),
        sorted_by(s, le).to_multiset() == s.to_multiset(),
    decreases s.len(),
{
    broadcast use vstd::seq_lib::group_to_multiset_ensures;

    if s.len() > 0 {
        lemma_sorted_by(s.drop_last(), le);
        lemma_insert_sorted(sorted_by(s.drop_last(), le), s.last(), le);
        assert(s == s.drop_last().push(s.last()));
    }
}

/// Where `x` goes: the bounds of the part that it moves past.
proof fn lemma_insert_sorted_at<T>(s: Seq<T>, x: T, le: spec_fn(T, T) -> bool, p: int)
    requires
        0 <= p <= s.len(),
        p == 0 || le(s[p - 1], x),
        forall|i: int| p <= i < s.len() ==> !le(#[trigger] s[i], x),
    ensures
        insert_sorted(s, x, le) == s.insert(p, x),
    decreases s.len(),
{
    if p == s.len() {
        assert(s.insert(p, x) =~= s.push(x));
    } else {
        assert(!le(s[s.len() - 1], x));
        let front = s.drop_last();
        lemma_insert_sorted_at(front, x, le, p);
        assert(front.insert(p, x).push(s.last()) =~= s.insert(p, x));
    }
}

/// Sorts `items` by `le`, keeping the order of elements that `le` does not
/// tell apart.
pub(crate) fn sort_by<T: Copy, F: Fn(&T, &T) -> bool>(
    items: &[T],
    le: F,
    Ghost(order): Ghost<spec_fn(T, T) -> bool>,
) -> (out: Vec<T>)
    requires
        forall|a: &T, b: &T| #[trigger] call_requires(le, (a, b)),
        forall|a: &T, b: &T, r: bool| #[trigger] call_ensures(le, (a, b), r) ==> r == order(*a, *b),
    ensures
        out@ == sorted_by(items@, order),
{
    let mut out: Vec<T> = Vec::new();
    let mut i: usize = 0;
    assert(items@.take(0) == Seq::<T>::empty());
    while i < items.len()
        invariant
            i <= items.len(),
            forall|a: &T, b: &T| #[trigger] call_requires(le, (a, b)),
            forall|a: &T, b: &T, r: bool| #[trigger]
                call_ensures(le, (a, b), r) ==> r == order(*a, *b),
            out@ == sorted_by(items@.take(i as int), order),
        decreases items.len() - i,
    {
        let x = items[i];
        let mut p: usize = out.len();
        loop
            invariant
                p <= out.len(),
                forall|a: &T, b: &T| #[trigger] call_requires(le, (a, b)),
                forall|a: &T, b: &T, r: bool| #[trigger]
                    call_ensures(le, (a, b), r) ==> r == order(*a, *b),
                forall|j: int| p <= j < out@.len() ==> !order(#[trigger] out@[j], x),
            ensures
                p <= out.len(),
                p == 0 || order(out@[p - 1], x),
                forall|j: int| p <= j < out@.len() ==> !order(#[trigger] out@[j], x),
            decreases p,
        {
            if p == 0 {
                break ;
            }
            if le(&out[p - 1], &x) {
                break ;
            }
            p = p - 1;
        }
        proof {
            lemma_insert_sorted_at(out@, x, order, p as int);
            let next = items@.take(i + 1);
            assert(next.drop_last() == items@.take(i as int));
            assert(next.last() == x);
        }
        out.insert(p, x);
        i = i + 1;
    }
    assert(items@.take(i as int) == items@);
    out
}

} // verus!
