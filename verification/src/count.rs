use vstd::prelude::*;
use crate::datum::{Datum, Delta};

verus! {

/// The net number of copies of `d` that a sequence of changes adds.
pub open spec fn count_in(s: Seq<Delta>, d: Datum) -> int
    decreases s.len(),
{
    if s.len() == 0 {
        0
    } else {
        count_in(s.drop_last(), d) + (if s.last().0 == d {
            s.last().1 as int
        } else {
            0
        })
    }
}

/// No two changes of the sequence are about the same element.
pub open spec fn keys_distinct(s: Seq<Delta>) -> bool {
    forall|i: int, j: int| 0 <= i < j < s.len() ==> #[trigger] s[i].0 != #[trigger] s[j].0
}

/// Every change of the sequence has a nonzero count.
pub open spec fn counts_nonzero(s: Seq<Delta>) -> bool {
    forall|i: int| 0 <= i < s.len() ==> #[trigger] s[i].1 != 0
}

/// A sequence of changes in which every element occurs once, with a nonzero count.
pub open spec fn consolidated(s: Seq<Delta>) -> bool {
    keys_distinct(s) && counts_nonzero(s)
}

pub open spec fn is_isize(x: int) -> bool {
    isize::MIN <= x <= isize::MAX
}

/// After the first `i + 1` changes of `s` are added, in order, to counts
/// `base`, the count of the element of change `i` is in the range of `isize`.
pub open spec fn fits_at(base: spec_fn(Datum) -> int, s: Seq<Delta>, i: int) -> bool {
    is_isize(base(s[i].0) + count_in(s.take(i + 1), s[i].0))
}

/// Adding the changes of `s`, in order, to counts `base` keeps every running
/// count in the range of `isize`.
pub open spec fn adds_fit(base: spec_fn(Datum) -> int, s: Seq<Delta>) -> bool {
    forall|i: int| 0 <= i < s.len() ==> #[trigger] fits_at(base, s, i)
}

pub proof fn lemma_count_empty(d: Datum)
    ensures
        count_in(Seq::<Delta>::empty(), d) == 0,
{
}

pub proof fn lemma_count_push(s: Seq<Delta>, x: Delta, d: Datum)
    ensures
        count_in(s.push(x), d) == count_in(s, d) + (if x.0 == d {
            x.1 as int
        } else {
            0
        }),
{
    assert(s.push(x).drop_last() =~= s);
}

/// Counting distributes over concatenation.
pub proof fn lemma_count_concat(s: Seq<Delta>, t: Seq<Delta>, d: Datum)
    ensures
        count_in(s + t, d) == count_in(s, d) + count_in(t, d),
    decreases t.len(),
{
    if t.len() == 0 {
        assert(s + t =~= s);
    } else {
        assert((s + t).drop_last() =~= s + t.drop_last());
        lemma_count_concat(s, t.drop_last(), d);
    }
}

pub proof fn lemma_count_single(x: Delta, d: Datum)
    ensures
        count_in(seq![x], d) == (if x.0 == d {
            x.1 as int
        } else {
            0
        }),
{
    lemma_count_push(Seq::<Delta>::empty(), x, d);
    assert(Seq::<Delta>::empty().push(x) =~= seq![x]);
}

/// An element that no change mentions has count zero.
pub proof fn lemma_count_absent(s: Seq<Delta>, d: Datum)
    requires
        forall|i: int| 0 <= i < s.len() ==> #[trigger] s[i].0 != d,
    ensures
        count_in(s, d) == 0,
    decreases s.len(),
{
    if s.len() > 0 {
        assert forall|i: int| 0 <= i < s.drop_last().len() implies #[trigger] s.drop_last()[i].0
            != d by {
            assert(s.drop_last()[i] == s[i]);
        }
        lemma_count_absent(s.drop_last(), d);
        assert(s.last() == s[s.len() - 1]);
    }
}

/// In a sequence with distinct elements, the count of an element is the count
/// of its single change.
pub proof fn lemma_count_unique(s: Seq<Delta>, i: int)
    requires
        keys_distinct(s),
        0 <= i < s.len(),
    ensures
        count_in(s, s[i].0) == s[i].1,
    decreases s.len(),
{
    let d = s[i].0;
    if i == s.len() - 1 {
        assert forall|j: int| 0 <= j < s.drop_last().len() implies #[trigger] s.drop_last()[j].0
            != d by {
            assert(s.drop_last()[j] == s[j]);
        }
        lemma_count_absent(s.drop_last(), d);
    } else {
        let t = s.drop_last();
        assert forall|a: int, b: int| 0 <= a < b < t.len() implies #[trigger] t[a].0
            != #[trigger] t[b].0 by {
            assert(t[a] == s[a] && t[b] == s[b]);
        }
        assert(t[i] == s[i]);
        lemma_count_unique(t, i);
        assert(s.last() == s[s.len() - 1]);
    }
}

/// Removing the change at `i` removes its contribution.
pub proof fn lemma_count_remove(s: Seq<Delta>, i: int, d: Datum)
    requires
        0 <= i < s.len(),
    ensures
        count_in(s.remove(i), d) == count_in(s, d) - (if s[i].0 == d {
            s[i].1 as int
        } else {
            0
        }),
{
    let a = s.subrange(0, i);
    let b = s.subrange(i + 1, s.len() as int);
    assert(s =~= a + seq![s[i]] + b);
    assert(s.remove(i) =~= a + b);
    lemma_count_concat(a + seq![s[i]], b, d);
    lemma_count_concat(a, seq![s[i]], d);
    lemma_count_concat(a, b, d);
    lemma_count_single(s[i], d);
}

/// Replacing the change at `i` by `x`.
pub proof fn lemma_count_update(s: Seq<Delta>, i: int, x: Delta, d: Datum)
    requires
        0 <= i < s.len(),
    ensures
        count_in(s.update(i, x), d) == count_in(s, d) - (if s[i].0 == d {
            s[i].1 as int
        } else {
            0
        }) + (if x.0 == d {
            x.1 as int
        } else {
            0
        }),
{
    let a = s.subrange(0, i);
    let b = s.subrange(i + 1, s.len() as int);
    assert(s =~= a + seq![s[i]] + b);
    assert(s.update(i, x) =~= a + seq![x] + b);
    lemma_count_concat(a + seq![s[i]], b, d);
    lemma_count_concat(a, seq![s[i]], d);
    lemma_count_concat(a + seq![x], b, d);
    lemma_count_concat(a, seq![x], d);
    lemma_count_single(s[i], d);
    lemma_count_single(x, d);
}

} // verus!
