use vstd::prelude::*;
use crate::datum::{Datum, Delta, mk_pair, mk_triple};
use crate::count::{count_in, lemma_count_concat, lemma_count_single, lemma_count_push};
use crate::fns::{MapFn, DeltaOp, CountOp, expand_all};
use crate::graph::split_side;
use crate::feedback::with_id;

verus! {

/// The net count of the changes of `s` whose element satisfies `p`.
pub open spec fn count_where(s: Seq<Delta>, p: spec_fn(Datum) -> bool) -> int
    decreases s.len(),
{
    if s.len() == 0 {
        0
    } else {
        count_where(s.drop_last(), p) + (if p(s.last().0) {
            s.last().1 as int
        } else {
            0
        })
    }
}

/// Counting the changes equal to one element is counting that element.
pub proof fn lemma_count_where_eq(s: Seq<Delta>, x: Datum)
    ensures
        count_where(s, |d: Datum| d == x) == count_in(s, x),
    decreases s.len(),
{
    if s.len() > 0 {
        lemma_count_where_eq(s.drop_last(), x);
    }
}

/// Mapping every change through `f` gives `y` the counts of exactly the
/// elements that `f` sends to `y`.
pub proof fn lemma_apply_counts(f: MapFn, s: Seq<Delta>, y: Datum, p: spec_fn(Datum) -> bool)
    requires
        forall|x: Datum| #[trigger] p(x) == (f.spec_apply(x) == y),
    ensures
        count_in(expand_all(DeltaOp::Apply(f), s), y) == count_where(s, p),
    decreases s.len(),
{
    if s.len() > 0 {
        let op = DeltaOp::Apply(f);
        lemma_apply_counts(f, s.drop_last(), y, p);
        let e = op.spec_expand_delta(s.last());
        assert(e == seq![(f.spec_apply(s.last().0), s.last().1)]);
        lemma_count_concat(expand_all(op, s.drop_last()), e, y);
        lemma_count_single((f.spec_apply(s.last().0), s.last().1), y);
        assert(p(s.last().0) == (f.spec_apply(s.last().0) == y));
    }
}

/// `swaps` turns the pair `(a, b)` into `(b, a)`, and swapping twice gives
/// back every value.
pub proof fn law_swap(a: Datum, b: Datum, x: Datum)
    ensures
        MapFn::Swap.spec_apply(mk_pair(a, b)) == mk_pair(b, a),
        MapFn::Swap.spec_apply(MapFn::Swap.spec_apply(x)) == x,
{
}

/// The relation of swapped pairs counts `(b, a)` as often as the original
/// counts `(a, b)`, whatever else it holds.
pub proof fn law_swaps_count(s: Seq<Delta>, a: Datum, b: Datum)
    ensures
        count_in(expand_all(DeltaOp::Apply(MapFn::Swap), s), mk_pair(b, a)) == count_in(s, mk_pair(a, b)),
{
    let p = |d: Datum| d == mk_pair(a, b);
    assert forall|x: Datum| #[trigger] p(x) == (MapFn::Swap.spec_apply(x) == mk_pair(b, a)) by {
        match x {
            Datum::Pair(u, v) => {
                if MapFn::Swap.spec_apply(x) == mk_pair(b, a) {
                    assert(*v == b && *u == a);
                }
            },
            _ => {},
        }
    }
    lemma_apply_counts(MapFn::Swap, s, mk_pair(b, a), p);
    lemma_count_where_eq(s, mk_pair(a, b));
}

/// `join_values` keeps the values of a join result: the triple
/// `(k, v, w)` becomes the pair `(v, w)`.
pub proof fn law_drop_first(k: Datum, v: Datum, w: Datum)
    ensures
        MapFn::DropFirst.spec_apply(mk_triple(k, v, w)) == mk_pair(v, w),
{
}

/// What the maps that relations use themselves do to pairs and triples:
/// `fsts` and `snds` take a component, `with_unit` pairs with `()`, the
/// projections of triples drop a component, the left join's maps add
/// `Some(r)` or `None`, and negation flips the sign of a count.
pub proof fn law_map_fns(a: Datum, b: Datum, c: Datum, n: isize)
    ensures
        MapFn::Id.spec_apply(a) == a,
        MapFn::Fst.spec_apply(mk_pair(a, b)) == a,
        MapFn::Snd.spec_apply(mk_pair(a, b)) == b,
        MapFn::WithUnit.spec_apply(a) == mk_pair(a, Datum::Unit),
        MapFn::DropSecond.spec_apply(mk_pair(a, b)) == a,
        MapFn::DropThird.spec_apply(mk_triple(a, b, c)) == mk_pair(a, b),
        MapFn::SomeThird.spec_apply(mk_triple(a, b, c)) == mk_triple(a, b, Datum::Just(Box::new(c))),
        MapFn::NoneThird.spec_apply(mk_pair(a, b)) == mk_triple(a, b, Datum::Nothing),
        n != isize::MIN ==> CountOp::Negate.spec_map(n) == Some((-n) as isize),
        n == isize::MIN ==> CountOp::Negate.spec_map(n) is None,
{
}

/// A triple `(k, v, w)` or a pair `(v, w)`.
pub open spec fn ends_in(d: Datum, v: Datum, w: Datum) -> bool {
    match d {
        Datum::Triple(_, b, c) => *b == v && *c == w,
        _ => d == mk_pair(v, w),
    }
}

/// After `join_values`, the pair `(v, w)` has the summed counts of every
/// triple `(k, v, w)`, over all keys `k` (with any pair `(v, w)` that was
/// there already).
pub proof fn law_join_values_count(s: Seq<Delta>, v: Datum, w: Datum)
    ensures
        count_in(expand_all(DeltaOp::Apply(MapFn::DropFirst), s), mk_pair(v, w)) == count_where(
            s,
            |d: Datum| ends_in(d, v, w),
        ),
{
    let p = |d: Datum| ends_in(d, v, w);
    assert forall|x: Datum| #[trigger] p(x) == (MapFn::DropFirst.spec_apply(x) == mk_pair(v, w)) by {
        match x {
            Datum::Triple(a, b, c) => {
                if MapFn::DropFirst.spec_apply(x) == mk_pair(v, w) {
                    assert(*b == v && *c == w);
                }
            },
            _ => {},
        }
    }
    lemma_apply_counts(MapFn::DropFirst, s, mk_pair(v, w), p);
}

/// The first component of a pair is `x`.
pub open spec fn first_is(d: Datum, x: Datum) -> bool {
    match d {
        Datum::Pair(a, _) => *a == x,
        _ => false,
    }
}

/// The second component of a pair is `y`.
pub open spec fn second_is(d: Datum, y: Datum) -> bool {
    match d {
        Datum::Pair(_, b) => *b == y,
        _ => false,
    }
}

/// Each side of a split counts a value as often as the source counts the
/// pairs with that value on that side, additions and removals alike.
pub proof fn law_split_counts(s: Seq<Delta>, x: Datum)
    ensures
        count_in(split_side(s, true), x) == count_where(s, |d: Datum| first_is(d, x)),
        count_in(split_side(s, false), x) == count_where(s, |d: Datum| second_is(d, x)),
        split_side(s, true).len() == split_side(s, false).len(),
    decreases s.len(),
{
    if s.len() > 0 {
        law_split_counts(s.drop_last(), x);
        let l0 = split_side(s.drop_last(), true);
        let r0 = split_side(s.drop_last(), false);
        match s.last().0 {
            Datum::Pair(a, b) => {
                lemma_count_push(l0, (*a, s.last().1), x);
                lemma_count_push(r0, (*b, s.last().1), x);
            },
            _ => {},
        }
    }
}

/// A split sends the `i`-th pair of what its source emitted, with its
/// count, as the `i`-th change of each side, when the source emitted only
/// pairs.
pub proof fn law_split_in_order(s: Seq<Delta>, i: int)
    requires
        forall|j: int| 0 <= j < s.len() ==> #[trigger] s[j].0 is Pair,
        0 <= i < s.len(),
    ensures
        split_side(s, true).len() == s.len(),
        split_side(s, false).len() == s.len(),
        mk_pair(split_side(s, true)[i].0, split_side(s, false)[i].0) == s[i].0,
        split_side(s, true)[i].1 == s[i].1,
        split_side(s, false)[i].1 == s[i].1,
    decreases s.len(),
{
    let t = s.drop_last();
    assert forall|j: int| 0 <= j < t.len() implies #[trigger] t[j].0 is Pair by {
        assert(t[j] == s[j]);
    }
    assert(s.last() == s[s.len() - 1]);
    match s.last().0 {
        Datum::Pair(a, b) => {
            assert(split_side(s, true) == split_side(t, true).push((*a, s.last().1)));
            assert(split_side(s, false) == split_side(t, false).push((*b, s.last().1)));
        },
        _ => {},
    }
    if t.len() == 0 {
        assert(split_side(t, true).len() == 0 && split_side(t, false).len() == 0);
    }
    if i < s.len() - 1 {
        law_split_in_order(t, i);
        assert(t[i] == s[i]);
    } else if t.len() > 0 {
        law_split_in_order(t, 0);
    }
}

/// A feeder with the commit number sends, for each element `x` of its
/// output, the pair `(x, id)` with the count of `x`, and nothing else.
pub proof fn law_with_id_counts(s: Seq<Delta>, id: i64, y: Datum)
    ensures
        with_id(s, id).len() == s.len(),
        forall|i: int| 0 <= i < s.len() ==> #[trigger] with_id(s, id)[i] == (mk_pair(s[i].0, Datum::Int(id)), s[i].1),
        count_in(with_id(s, id), y) == (match y {
            Datum::Pair(x, t) => if *t == Datum::Int(id) {
                count_in(s, *x)
            } else {
                0
            },
            _ => 0,
        }),
    decreases s.len(),
{
    if s.len() > 0 {
        law_with_id_counts(s.drop_last(), id, y);
        assert(with_id(s, id).drop_last() =~= with_id(s.drop_last(), id));
        assert(with_id(s, id).last() == (mk_pair(s.last().0, Datum::Int(id)), s.last().1));
    } else {
        assert(with_id(s, id) =~= Seq::<Delta>::empty());
    }
}

} // verus!
