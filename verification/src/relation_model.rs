use vstd::prelude::*;
use crate::datum::{Datum, Delta, mk_pair, mk_triple};
use crate::count::count_in;
use crate::fns::{MapFn, DeltaOp, CountOp};
use crate::relation::{Relation, RelOp};
use crate::combinator_laws::{count_where, first_is};

verus! {

/// The net count of `d` among changes whose counts are integers.
pub open spec fn icount(s: Seq<(Datum, int)>, d: Datum) -> int
    decreases s.len(),
{
    if s.len() == 0 {
        0
    } else {
        icount(s.drop_last(), d) + (if s.last().0 == d {
            s.last().1
        } else {
            0
        })
    }
}

/// The net count of the changes of `s` whose element satisfies `p`.
pub open spec fn icount_where(s: Seq<(Datum, int)>, p: spec_fn(Datum) -> bool) -> int
    decreases s.len(),
{
    if s.len() == 0 {
        0
    } else {
        icount_where(s.drop_last(), p) + (if p(s.last().0) {
            s.last().1
        } else {
            0
        })
    }
}

/// Changes with their counts taken as integers.
pub open spec fn widen(s: Seq<Delta>) -> Seq<(Datum, int)> {
    s.map_values(|e: Delta| (e.0, e.1 as int))
}

/// Every element passed through `f`, with its count.
pub open spec fn mapped(f: MapFn, s: Seq<(Datum, int)>) -> Seq<(Datum, int)> {
    s.map_values(|e: (Datum, int)| (f.spec_apply(e.0), e.1))
}

/// The change `x`, a pair `(k, v)`, joined with each pair `(k, w)` of `b`:
/// the triple `(k, v, w)` with the product of the counts.
pub open spec fn join_one(x: (Datum, int), b: Seq<(Datum, int)>) -> Seq<(Datum, int)>
    decreases b.len(),
{
    if b.len() == 0 {
        Seq::empty()
    } else {
        join_one(x, b.drop_last()) + match (x.0, b.last().0) {
            (Datum::Pair(k, v), Datum::Pair(k2, w)) => if *k == *k2 {
                seq![(mk_triple(*k, *v, *w), x.1 * b.last().1)]
            } else {
                Seq::empty()
            },
            _ => Seq::empty(),
        }
    }
}

/// Every change of `a` joined with `b`.
pub open spec fn join_changes(a: Seq<(Datum, int)>, b: Seq<(Datum, int)>) -> Seq<(Datum, int)>
    decreases a.len(),
{
    if a.len() == 0 {
        Seq::empty()
    } else {
        join_changes(a.drop_last(), b) + join_one(a.last(), b)
    }
}

/// The changes of `a` on pairs whose key has net count zero in `b`.
pub open spec fn antijoin_changes(a: Seq<(Datum, int)>, b: Seq<(Datum, int)>) -> Seq<(Datum, int)>
    decreases a.len(),
{
    if a.len() == 0 {
        Seq::empty()
    } else {
        antijoin_changes(a.drop_last(), b) + match a.last().0 {
            Datum::Pair(k, _) => if icount(b, *k) == 0 {
                seq![a.last()]
            } else {
                Seq::empty()
            },
            _ => Seq::empty(),
        }
    }
}

/// What a relation description computes from what its leaves emitted,
/// `env` giving the changes of each node it reads (for a read of a saved
/// relation, the changes of the save). Defined for leaves, `apply`,
/// `filter`, negation, concatenation, consolidation, dynamic nodes, join
/// and antijoin; other operators are not described here (they give no
/// changes), and nothing is claimed of relations that use them.
pub open spec fn changes_of(rel: Relation, env: spec_fn(usize) -> Seq<Delta>) -> Seq<(Datum, int)>
    decreases rel,
{
    match rel.op {
        RelOp::Existing { node, .. } => widen(env(node)),
        RelOp::SavedRead { node, .. } => widen(env(node)),
        RelOp::FlatMap(s, op) => match op {
            DeltaOp::Apply(f) => mapped(f, changes_of(*s, env)),
            DeltaOp::Filter(p) => changes_of(*s, env).filter(|e: (Datum, int)| p.spec_test(e.0)),
            DeltaOp::MapCounts(CountOp::Negate) => changes_of(*s, env).map_values(|e: (Datum, int)| (e.0, -e.1)),
            _ => Seq::empty(),
        },
        RelOp::Concat(l, r) => changes_of(*l, env) + changes_of(*r, env),
        RelOp::Consolidate(s) => changes_of(*s, env),
        RelOp::Dynamic(s) => changes_of(*s, env),
        RelOp::Join(l, r) => join_changes(changes_of(*l, env), changes_of(*r, env)),
        RelOp::AntiJoin(l, r) => antijoin_changes(changes_of(*l, env), changes_of(*r, env)),
        _ => Seq::empty(),
    }
}

/// `rel` reads the save node `n`.
pub open spec fn reads_save(rel: Relation, n: usize) -> bool {
    rel.op matches RelOp::SavedRead { node, .. } && node == n
}

/// The description a left join builds from the saves `na` (of the left
/// relation) and `nb` (of the right one): the join of the two, each triple
/// `(k, l, r)` made `(k, l, Some(r))`, followed by the antijoin of the left
/// with the keys of the right, each pair `(k, l)` made `(k, l, None)`.
pub open spec fn left_join_shape(j: Relation, na: usize, nb: usize) -> bool {
    &&& j.op matches RelOp::Concat(m, u)
    &&& m.op matches RelOp::FlatMap(jj, DeltaOp::Apply(MapFn::SomeThird))
    &&& jj.op matches RelOp::Join(x, y)
    &&& reads_save(*x, na)
    &&& reads_save(*y, nb)
    &&& u.op matches RelOp::FlatMap(aj, DeltaOp::Apply(MapFn::NoneThird))
    &&& aj.op matches RelOp::AntiJoin(x2, keys)
    &&& reads_save(*x2, na)
    &&& keys.op matches RelOp::FlatMap(y2, DeltaOp::Apply(MapFn::Fst))
    &&& reads_save(*y2, nb)
}

/// Every change of `s` is on a pair.
pub open spec fn pairs_only(s: Seq<Delta>) -> bool {
    forall|i: int| 0 <= i < s.len() ==> (#[trigger] s[i]).0 is Pair
}

proof fn lemma_icount_concat(s: Seq<(Datum, int)>, t: Seq<(Datum, int)>, d: Datum)
    ensures
        icount(s + t, d) == icount(s, d) + icount(t, d),
    decreases t.len(),
{
    if t.len() == 0 {
        assert(s + t =~= s);
    } else {
        assert((s + t).drop_last() =~= s + t.drop_last());
        lemma_icount_concat(s, t.drop_last(), d);
    }
}

proof fn lemma_icount_single(x: (Datum, int), d: Datum)
    ensures
        icount(seq![x], d) == (if x.0 == d {
            x.1
        } else {
            0
        }),
{
    let s = seq![x];
    assert(s.drop_last() =~= Seq::<(Datum, int)>::empty());
    assert(s.last() == x);
    assert(icount(s.drop_last(), d) == 0);
}

proof fn lemma_widen(s: Seq<Delta>, d: Datum)
    ensures
        icount(widen(s), d) == count_in(s, d),
    decreases s.len(),
{
    if s.len() > 0 {
        assert(widen(s).drop_last() =~= widen(s.drop_last()));
        lemma_widen(s.drop_last(), d);
    }
}

proof fn lemma_widen_where(s: Seq<Delta>, p: spec_fn(Datum) -> bool)
    ensures
        icount_where(widen(s), p) == count_where(s, p),
    decreases s.len(),
{
    if s.len() > 0 {
        assert(widen(s).drop_last() =~= widen(s.drop_last()));
        lemma_widen_where(s.drop_last(), p);
    }
}

/// Counting under `f` the changes that `f` sends to `y`.
proof fn lemma_mapped(f: MapFn, s: Seq<(Datum, int)>, y: Datum, p: spec_fn(Datum) -> bool)
    requires
        forall|x: Datum| #[trigger] p(x) == (f.spec_apply(x) == y),
    ensures
        icount(mapped(f, s), y) == icount_where(s, p),
    decreases s.len(),
{
    if s.len() > 0 {
        assert(mapped(f, s).drop_last() =~= mapped(f, s.drop_last()));
        lemma_mapped(f, s.drop_last(), y, p);
        assert(p(s.last().0) == (f.spec_apply(s.last().0) == y));
    }
}

proof fn lemma_where_eq(s: Seq<(Datum, int)>, a: Datum)
    ensures
        icount_where(s, |x: Datum| x == a) == icount(s, a),
    decreases s.len(),
{
    if s.len() > 0 {
        lemma_where_eq(s.drop_last(), a);
    }
}

proof fn lemma_where_none(s: Seq<(Datum, int)>)
    ensures
        icount_where(s, |x: Datum| false) == 0,
    decreases s.len(),
{
    if s.len() > 0 {
        lemma_where_none(s.drop_last());
    }
}

proof fn lemma_where_two(s: Seq<(Datum, int)>, a: Datum, b: Datum)
    requires
        a != b,
    ensures
        icount_where(s, |x: Datum| x == a || x == b) == icount(s, a) + icount(s, b),
    decreases s.len(),
{
    if s.len() > 0 {
        lemma_where_two(s.drop_last(), a, b);
    }
}

proof fn lemma_where_agree(s: Seq<(Datum, int)>, p: spec_fn(Datum) -> bool, q: spec_fn(Datum) -> bool)
    requires
        forall|i: int| 0 <= i < s.len() ==> p((#[trigger] s[i]).0) == q(s[i].0),
    ensures
        icount_where(s, p) == icount_where(s, q),
    decreases s.len(),
{
    if s.len() > 0 {
        assert forall|i: int| 0 <= i < s.drop_last().len() implies p((#[trigger] s.drop_last()[i]).0) == q(
            s.drop_last()[i].0,
        ) by {
            assert(s.drop_last()[i] == s[i]);
        }
        lemma_where_agree(s.drop_last(), p, q);
        assert(s.last() == s[s.len() - 1]);
    }
}

proof fn lemma_join_one(x: (Datum, int), b: Seq<(Datum, int)>, k: Datum, v: Datum, w: Datum)
    ensures
        icount(join_one(x, b), mk_triple(k, v, w)) == (if x.0 == mk_pair(k, v) {
            x.1 * icount(b, mk_pair(k, w))
        } else {
            0
        }),
    decreases b.len(),
{
    if b.len() > 0 {
        let t = mk_triple(k, v, w);
        lemma_join_one(x, b.drop_last(), k, v, w);
        let e: Seq<(Datum, int)> = match (x.0, b.last().0) {
            (Datum::Pair(k1, v1), Datum::Pair(k2, w2)) => if *k1 == *k2 {
                seq![(mk_triple(*k1, *v1, *w2), x.1 * b.last().1)]
            } else {
                Seq::empty()
            },
            _ => Seq::empty(),
        };
        assert(join_one(x, b) == join_one(x, b.drop_last()) + e);
        lemma_icount_concat(join_one(x, b.drop_last()), e, t);
        let s0 = icount(b.drop_last(), mk_pair(k, w));
        let c = b.last().1;
        match (x.0, b.last().0) {
            (Datum::Pair(k1, v1), Datum::Pair(k2, w2)) => {
                if *k1 == *k2 {
                    lemma_icount_single((mk_triple(*k1, *v1, *w2), x.1 * c), t);
                } else {
                    assert(icount(e, t) == 0);
                }
            },
            _ => {
                assert(icount(e, t) == 0);
            },
        }
        if x.0 == mk_pair(k, v) {
            assert(x.1 * (s0 + (if b.last().0 == mk_pair(k, w) { c } else { 0 })) == x.1 * s0 + (if b.last().0
                == mk_pair(k, w) {
                x.1 * c
            } else {
                0
            })) by (nonlinear_arith);
        }
    }
}

proof fn lemma_join_changes(a: Seq<(Datum, int)>, b: Seq<(Datum, int)>, k: Datum, v: Datum, w: Datum)
    ensures
        icount(join_changes(a, b), mk_triple(k, v, w)) == icount(a, mk_pair(k, v)) * icount(b, mk_pair(k, w)),
    decreases a.len(),
{
    if a.len() > 0 {
        let t = mk_triple(k, v, w);
        lemma_join_changes(a.drop_last(), b, k, v, w);
        lemma_icount_concat(join_changes(a.drop_last(), b), join_one(a.last(), b), t);
        lemma_join_one(a.last(), b, k, v, w);
        let sa = icount(a.drop_last(), mk_pair(k, v));
        let sb = icount(b, mk_pair(k, w));
        let c = a.last().1;
        if a.last().0 == mk_pair(k, v) {
            assert((sa + c) * sb == sa * sb + c * sb) by (nonlinear_arith);
        }
    }
}

proof fn lemma_antijoin_changes(a: Seq<(Datum, int)>, b: Seq<(Datum, int)>, d: Datum)
    ensures
        icount(antijoin_changes(a, b), d) == (match d {
            Datum::Pair(k, _) => if icount(b, *k) == 0 {
                icount(a, d)
            } else {
                0
            },
            _ => 0,
        }),
    decreases a.len(),
{
    if a.len() > 0 {
        lemma_antijoin_changes(a.drop_last(), b, d);
        let e: Seq<(Datum, int)> = match a.last().0 {
            Datum::Pair(k, _) => if icount(b, *k) == 0 {
                seq![a.last()]
            } else {
                Seq::empty()
            },
            _ => Seq::empty(),
        };
        assert(antijoin_changes(a, b) == antijoin_changes(a.drop_last(), b) + e);
        lemma_icount_concat(antijoin_changes(a.drop_last(), b), e, d);
        match a.last().0 {
            Datum::Pair(k, _) => {
                if icount(b, *k) == 0 {
                    lemma_icount_single(a.last(), d);
                } else {
                    assert(icount(e, d) == 0);
                }
            },
            _ => {
                assert(icount(e, d) == 0);
            },
        }
    }
}

/// What a left join holds: a left pair `(k, l)` matched with a right pair
/// `(k, r)` gives `(k, l, Some(r))` with the product of their counts; a
/// left pair whose key has net count zero among the right relation's keys
/// gives `(k, l, None)` with its own count, and one whose key is there gives
/// none. `env` gives what the two saved relations emitted (pairs).
pub proof fn law_left_join(
    j: Relation,
    na: usize,
    nb: usize,
    env: spec_fn(usize) -> Seq<Delta>,
    k: Datum,
    l: Datum,
    r: Datum,
)
    requires
        left_join_shape(j, na, nb),
        pairs_only(env(na)),
        pairs_only(env(nb)),
    ensures
        icount(changes_of(j, env), mk_triple(k, l, Datum::Just(Box::new(r)))) == count_in(env(na), mk_pair(k, l))
            * count_in(env(nb), mk_pair(k, r)),
        icount(changes_of(j, env), mk_triple(k, l, Datum::Nothing)) == (if count_where(
            env(nb),
            |d: Datum| first_is(d, k),
        ) == 0 {
            count_in(env(na), mk_pair(k, l))
        } else {
            0
        }),
{
    let a = widen(env(na));
    let b = widen(env(nb));
    let m = *j.op->Concat_0;
    let u = *j.op->Concat_1;
    let jj = *m.op->FlatMap_0;
    let x = *jj.op->Join_0;
    let y = *jj.op->Join_1;
    let aj = *u.op->FlatMap_0;
    let x2 = *aj.op->AntiJoin_0;
    let keys = *aj.op->AntiJoin_1;
    let y2 = *keys.op->FlatMap_0;
    let jv = join_changes(a, b);
    let kv = mapped(MapFn::Fst, b);
    let av = antijoin_changes(a, kv);
    assert(changes_of(x, env) == a);
    assert(changes_of(y, env) == b);
    assert(changes_of(x2, env) == a);
    assert(changes_of(y2, env) == b);
    assert(changes_of(jj, env) == jv);
    assert(changes_of(m, env) == mapped(MapFn::SomeThird, jv));
    assert(changes_of(keys, env) == kv);
    assert(changes_of(aj, env) == av);
    assert(changes_of(u, env) == mapped(MapFn::NoneThird, av));
    assert(changes_of(j, env) == mapped(MapFn::SomeThird, jv) + mapped(MapFn::NoneThird, av));
    let y1 = mk_triple(k, l, Datum::Just(Box::new(r)));
    let y0 = mk_triple(k, l, Datum::Nothing);
    lemma_icount_concat(mapped(MapFn::SomeThird, jv), mapped(MapFn::NoneThird, av), y1);
    lemma_icount_concat(mapped(MapFn::SomeThird, jv), mapped(MapFn::NoneThird, av), y0);
    // The matched part.
    let p1 = |x: Datum| x == mk_triple(k, l, r);
    assert forall|x: Datum| #[trigger] p1(x) == (MapFn::SomeThird.spec_apply(x) == y1) by {
        match x {
            Datum::Triple(x1, x2, x3) => {
                if MapFn::SomeThird.spec_apply(x) == y1 {
                    assert(*x1 == k && *x2 == l && *x3 == r);
                }
            },
            _ => {},
        }
    }
    lemma_mapped(MapFn::SomeThird, jv, y1, p1);
    lemma_where_eq(jv, mk_triple(k, l, r));
    lemma_join_changes(a, b, k, l, r);
    lemma_widen(env(na), mk_pair(k, l));
    lemma_widen(env(nb), mk_pair(k, r));
    let q1 = |x: Datum| x == y1;
    assert forall|x: Datum| #[trigger] q1(x) == (MapFn::NoneThird.spec_apply(x) == y1) by {}
    lemma_mapped(MapFn::NoneThird, av, y1, q1);
    lemma_where_eq(av, y1);
    lemma_antijoin_changes(a, kv, y1);
    // The unmatched part.
    let p0 = |x: Datum| false;
    assert forall|x: Datum| #[trigger] p0(x) == (MapFn::SomeThird.spec_apply(x) == y0) by {}
    lemma_mapped(MapFn::SomeThird, jv, y0, p0);
    lemma_where_none(jv);
    let q0 = |x: Datum| x == mk_pair(k, l) || x == y0;
    assert forall|x: Datum| #[trigger] q0(x) == (MapFn::NoneThird.spec_apply(x) == y0) by {
        match x {
            Datum::Pair(x1, x2) => {
                if MapFn::NoneThird.spec_apply(x) == y0 {
                    assert(*x1 == k && *x2 == l);
                }
            },
            _ => {},
        }
    }
    lemma_mapped(MapFn::NoneThird, av, y0, q0);
    lemma_where_two(av, mk_pair(k, l), y0);
    lemma_antijoin_changes(a, kv, mk_pair(k, l));
    lemma_antijoin_changes(a, kv, y0);
    // The keys of the right relation.
    let pk = |x: Datum| MapFn::Fst.spec_apply(x) == k;
    assert forall|x: Datum| #[trigger] pk(x) == (MapFn::Fst.spec_apply(x) == k) by {}
    lemma_mapped(MapFn::Fst, b, k, pk);
    let fk = |d: Datum| first_is(d, k);
    assert forall|i: int| 0 <= i < b.len() implies pk((#[trigger] b[i]).0) == fk(b[i].0) by {
        assert(b[i].0 == env(nb)[i].0);
        assert(env(nb)[i].0 is Pair);
    }
    lemma_where_agree(b, pk, fk);
    lemma_widen_where(env(nb), fk);
}

} // verus!
