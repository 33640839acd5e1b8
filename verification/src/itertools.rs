//! Splitting a slice into runs between the places where a predicate on
//! neighbouring elements holds.

use vstd::prelude::*;
use vstd::slice::slice_subrange;

verus! {

/// The state of a split in progress: the part of the slice not handed out yet,
/// and the predicate that decides where a run ends.
pub struct SplitWhen<'a, T, F> {
    slice: &'a [T],
    f: F,
}

/// `f` may be asked about `s[i]` and its right neighbour.
pub open spec fn may_ask<T, F: Fn(&T, &T) -> bool>(f: F, s: Seq<T>, i: int) -> bool {
    call_requires(f, (&s[i], &s[i + 1]))
}

/// `answer` is what `f` may say about `s[i]` and its right neighbour.
pub open spec fn may_answer<T, F: Fn(&T, &T) -> bool>(
    f: F,
    s: Seq<T>,
    i: int,
    answer: bool,
) -> bool {
    call_ensures(f, (&s[i], &s[i + 1]), answer)
}

/// The length of the first run of `s`: the front part that ends at the first
/// pair of neighbours that `splits` holds of, or at the end of `s`.
pub open spec fn run_len<T>(s: Seq<T>, splits: spec_fn(T, T) -> bool) -> nat
    decreases s.len(),
{
    if s.len() == 0 {
        0
    } else if s.len() == 1 || splits(s[0], s[1]) {
        1
    } else {
        1 + run_len(s.skip(1), splits)
    }
}

/// The number of runs that `s` falls into.
pub open spec fn run_count<T>(s: Seq<T>, splits: spec_fn(T, T) -> bool) -> nat
    decreases s.len(),
{
    if s.len() == 0 {
        0
    } else if s.len() == 1 {
        1
    } else if splits(s[s.len() - 2], s[s.len() - 1]) {
        run_count(s.drop_last(), splits) + 1
    } else {
        run_count(s.drop_last(), splits)
    }
}

/// A front part of `s` inside which `splits` holds of no pair of neighbours,
/// and which ends where it holds or where `s` ends, is the first run.
pub proof fn lemma_run_len<T>(s: Seq<T>, splits: spec_fn(T, T) -> bool, n: nat)
    requires
        1 <= n <= s.len(),
        forall|j: int| 0 <= j < n - 1 ==> !splits(#[trigger] s[j], s[j + 1]),
        n < s.len() ==> splits(s[n - 1], s[n as int]),
    ensures
        run_len(s, splits) == n,
    decreases n,
{
    if n > 1 {
        let rest = s.skip(1);
        assert(!splits(s[0], s[1]));
        assert forall|j: int| 0 <= j < n - 2 implies !splits(#[trigger] rest[j], rest[j + 1]) by {
            assert(!splits(s[j + 1], s[j + 1 + 1]));
        }
        lemma_run_len(rest, splits, (n - 1) as nat);
    }
}

/// The first run is not empty, does not reach beyond `s`, holds no split
/// inside, and ends at a split or at the end of `s`.
pub proof fn lemma_run_len_is_run<T>(s: Seq<T>, splits: spec_fn(T, T) -> bool)
    requires
        s.len() > 0,
    ensures
        1 <= run_len(s, splits) <= s.len(),
        forall|j: int| 0 <= j < run_len(s, splits) - 1 ==> !splits(#[trigger] s[j], s[j + 1]),
        run_len(s, splits) < s.len() ==> splits(
            s[run_len(s, splits) - 1],
            s[run_len(s, splits) as int],
        ),
    decreases s.len(),
{
    if s.len() == 1 || splits(s[0], s[1]) {
    } else {
        let rest = s.skip(1);
        lemma_run_len_is_run(rest, splits);
        let n = run_len(s, splits);
        assert forall|j: int| 0 <= j < n - 1 implies !splits(#[trigger] s[j], s[j + 1]) by {
            if j > 0 {
                assert(!splits(rest[j - 1], rest[j - 1 + 1]));
            }
        }
        if n < s.len() {
            assert(splits(rest[n - 2], rest[n - 2 + 1]));
        }
    }
}

/// Taking the first run away takes one run away.
pub proof fn lemma_run_count_skip<T>(s: Seq<T>, splits: spec_fn(T, T) -> bool)
    requires
        s.len() > 0,
    ensures
        run_count(s, splits) == 1 + run_count(s.skip(run_len(s, splits) as int), splits),
    decreases s.len(),
{
    let n = run_len(s, splits);
    lemma_run_len_is_run(s, splits);
    if n == s.len() {
        lemma_run_count_one(s, splits);
        assert(s.skip(n as int).len() == 0);
    } else {
        let front = s.drop_last();
        assert(front.len() >= n);
        assert forall|j: int| 0 <= j < n - 1 implies !splits(#[trigger] front[j], front[j + 1]) by {
            assert(!splits(s[j], s[j + 1]));
        }
        if n < front.len() {
            assert(splits(front[n - 1], front[n as int]));
        }
        lemma_run_len(front, splits, n);
        let tail = s.skip(n as int);
        assert(tail.drop_last() == front.skip(n as int));
        if n == front.len() {
            lemma_run_count_one(front, splits);
            assert(tail.len() == 1);
            assert(splits(s[s.len() - 2], s[s.len() - 1]));
        } else {
            lemma_run_count_skip(front, splits);
            assert(tail[tail.len() - 2] == s[s.len() - 2]);
            assert(tail[tail.len() - 1] == s[s.len() - 1]);
        }
    }
}

/// A sequence without a split is one run.
pub proof fn lemma_run_count_one<T>(s: Seq<T>, splits: spec_fn(T, T) -> bool)
    requires
        s.len() > 0,
        forall|j: int| 0 <= j < s.len() - 1 ==> !splits(#[trigger] s[j], s[j + 1]),
    ensures
        run_count(s, splits) == 1,
    decreases s.len(),
{
    if s.len() > 1 {
        let front = s.drop_last();
        assert forall|j: int| 0 <= j < front.len() - 1 implies !splits(
            #[trigger] front[j],
            front[j + 1],
        ) by {
            assert(!splits(s[j], s[j + 1]));
        }
        lemma_run_count_one(front, splits);
        assert(!splits(s[s.len() - 2], s[s.len() - 2 + 1]));
    }
}

impl<'a, T, F: Fn(&T, &T) -> bool> SplitWhen<'a, T, F> {
    /// The elements not handed out yet.
    pub closed spec fn rest(&self) -> Seq<T> {
        self.slice@
    }

    /// The predicate on neighbours.
    pub closed spec fn pred(&self) -> F {
        self.f
    }

    /// Hands out the next run: the longest front part of the rest inside which
    /// the predicate answered `false` for every pair of neighbours. The run
    /// ends where the predicate answered `true`, or at the end of the slice.
    /// Gives `None` once nothing is left.
    pub fn next(&mut self) -> (r: Option<&'a [T]>)
        requires
            forall|i: int|
                0 <= i < old(self).rest().len() - 1 ==> #[trigger] may_ask(
                    old(self).pred(),
                    old(self).rest(),
                    i,
                ),
        ensures
            final(self).pred() == old(self).pred(),
            old(self).rest().len() == 0 ==> r is None && final(self).rest() == old(self).rest(),
            old(self).rest().len() > 0 ==> r is Some && ({
                let run = r->0@;
                let rest = old(self).rest();
                &&& run.len() >= 1
                &&& run + final(self).rest() == rest
                &&& forall|j: int|
                    0 <= j < run.len() - 1 ==> #[trigger] may_answer(
                        old(self).pred(),
                        rest,
                        j,
                        false,
                    )
                &&& final(self).rest().len() > 0 ==> may_answer(
                    old(self).pred(),
                    rest,
                    run.len() - 1,
                    true,
                )
            }),
    {
        let slice = self.slice;
        let len = slice.len();
        if len == 0 {
            return None;
        }
        let mut idx: usize = 0;
        assert forall|i: int| 0 <= i < len - 1 implies #[trigger] may_ask(self.f, slice@, i) by {
            assert(may_ask(old(self).pred(), old(self).rest(), i));
        }
        while idx + 1 < len
            invariant
                len == slice@.len(),
                slice@ == old(self).rest(),
                self.f == old(self).pred(),
                idx < len,
                forall|i: int| 0 <= i < len - 1 ==> #[trigger] may_ask(self.f, slice@, i),
                forall|j: int| 0 <= j < idx ==> #[trigger] may_answer(self.f, slice@, j, false),
            ensures
                idx < len,
                forall|j: int| 0 <= j < idx ==> #[trigger] may_answer(self.f, slice@, j, false),
                idx + 1 < len ==> may_answer(self.f, slice@, idx as int, true),
            decreases len - idx,
        {
            assert(may_ask(self.f, slice@, idx as int));
            if (self.f)(&slice[idx], &slice[idx + 1]) {
                assert(may_answer(self.f, slice@, idx as int, true));
                break ;
            }
            assert(may_answer(self.f, slice@, idx as int, false));
            idx = idx + 1;
        }
        let start = slice_subrange(slice, 0, idx + 1);
        let end = slice_subrange(slice, idx + 1, len);
        self.slice = end;
        assert(start@ + end@ == slice@);
        Some(start)
    }
}

/// Where `f` computes `splits`, what `next` hands out is the first run of
/// what was left.
pub proof fn lemma_next_is_first_run<T, F: Fn(&T, &T) -> bool>(
    f: F,
    splits: spec_fn(T, T) -> bool,
    rest: Seq<T>,
    run: Seq<T>,
    left: Seq<T>,
)
    requires
        forall|a: &T, b: &T, r: bool| #[trigger] call_ensures(f, (a, b), r) ==> r == splits(*a, *b),
        run.len() >= 1,
        run + left == rest,
        forall|j: int| 0 <= j < run.len() - 1 ==> #[trigger] may_answer(f, rest, j, false),
        left.len() > 0 ==> may_answer(f, rest, run.len() - 1, true),
    ensures
        run_len(rest, splits) == run.len(),
        rest.skip(run.len() as int) == left,
        rest.take(run.len() as int) == run,
{
    assert(rest.len() == run.len() + left.len());
    assert forall|j: int| 0 <= j < run.len() - 1 implies !splits(#[trigger] rest[j], rest[j + 1]) by {
        assert(may_answer(f, rest, j, false));
    }
    lemma_run_len(rest, splits, run.len());
    assert(rest.skip(run.len() as int) =~= left);
    assert(rest.take(run.len() as int) =~= run);
}

/// Returns a splitter over subslices of `slice`, split wherever two
/// consecutive elements `a` and `b` match `f(&a, &b)`.
pub fn split_when<T, F: Fn(&T, &T) -> bool>(slice: &[T], f: F) -> (r: SplitWhen<'_, T, F>)
    ensures
        r.rest() == slice@,
        r.pred() == f,
{
    SplitWhen { slice, f }
}

} // verus!
