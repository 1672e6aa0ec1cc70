use vstd::prelude::*;
use crate::datum::{Datum, Delta, mk_pair, mk_triple};
use crate::count::is_isize;
use crate::counts::{Counts, CountOverflow};

verus! {

/// A function from values to values, as given to `map`: a function of its
/// argument alone, `spec_apply`.
pub trait DatumFn {
    spec fn spec_apply(&self, x: Datum) -> Datum;

    fn apply(&self, x: &Datum) -> (r: Datum)
        ensures
            r == self.spec_apply(*x),
    ;
}

/// A function from a value to any number of values, as given to
/// `flat_map`: a function of its argument alone, `spec_expand`.
pub trait DatumFlatFn {
    spec fn spec_expand(&self, x: Datum) -> Vec<Datum>;

    fn expand(&self, x: &Datum) -> (r: Vec<Datum>)
        ensures
            r@ == self.spec_expand(*x)@,
    ;
}

/// A predicate on values, as given to `filter`: a function of its argument
/// alone, `spec_test`.
pub trait DatumPred {
    spec fn spec_test(&self, x: Datum) -> bool;

    fn test(&self, x: &Datum) -> (r: bool)
        ensures
            r == self.spec_test(*x),
    ;
}

/// A function on counts, as given to `map_counts`: `None` when the result
/// does not fit in an `isize`; a function of its argument alone,
/// `spec_map_count`.
pub trait CountFn {
    spec fn spec_map_count(&self, c: isize) -> Option<isize>;

    fn map_count(&self, c: isize) -> (r: Option<isize>)
        ensures
            r == self.spec_map_count(c),
    ;
}

/// A function from one change to any number of changes; the general form of
/// `map_` and `flat_map_`. Fails when a count does not fit in an `isize`.
/// A function of its argument alone, `spec_expand_delta`.
pub trait DeltaFn {
    spec fn spec_expand_delta(&self, d: Delta) -> Result<Vec<Delta>, CountOverflow>;

    fn expand_delta(&self, d: &Delta) -> (r: Result<Vec<Delta>, CountOverflow>)
        ensures
            r is Ok <==> self.spec_expand_delta(*d) is Ok,
            r matches Ok(v) ==> (self.spec_expand_delta(*d) matches Ok(w) && v@ == w@),
    ;
}

/// A function from a key and the values grouped under it, as given to
/// `reduce`: a function of the key and the collection it is given alone,
/// `spec_reduce`. A reduce only gives it groups with some value.
pub trait ReduceFn {
    spec fn spec_reduce(&self, k: Datum, group: Counts) -> Datum;

    fn reduce(&self, k: &Datum, group: &Counts) -> (r: Datum)
        requires
            group.wf(),
            exists|v: Datum| group.count(v) != 0,
        ensures
            r == self.spec_reduce(*k, *group),
    ;
}

pub open spec fn spec_fst(x: Datum) -> Datum {
    match x {
        Datum::Pair(a, _) => *a,
        _ => x,
    }
}

pub open spec fn spec_snd(x: Datum) -> Datum {
    match x {
        Datum::Pair(_, b) => *b,
        _ => x,
    }
}

/// A function given to `map`: one of the functions the relations use
/// themselves, or one of the caller's.
pub enum MapFn {
    /// Every value unchanged.
    Id,
    /// The first component of a pair; any other value is passed on as it is.
    Fst,
    /// The second component of a pair; any other value is passed on as it is.
    Snd,
    /// A pair with its components swapped; any other value is passed on as it is.
    Swap,
    /// `x` to `(x, ())`.
    WithUnit,
    /// `(x, y)` to `x`; other values unchanged.
    DropSecond,
    /// `(k, v, w)` to `(k, v)`; other values unchanged.
    DropThird,
    /// `(k, v, w)` to `(v, w)`; other values unchanged.
    DropFirst,
    /// `(k, l, r)` to `(k, l, Some(r))`; other values unchanged.
    SomeThird,
    /// `(k, l)` to `(k, l, None)`; other values unchanged.
    NoneThird,
    Custom(Box<dyn DatumFn>),
}

impl MapFn {
    /// The result on `x`.
    pub open spec fn spec_apply(&self, x: Datum) -> Datum {
        match self {
            MapFn::Id => x,
            MapFn::Fst => spec_fst(x),
            MapFn::Snd => spec_snd(x),
            MapFn::Swap => match x {
                Datum::Pair(a, b) => mk_pair(*b, *a),
                _ => x,
            },
            MapFn::WithUnit => mk_pair(x, Datum::Unit),
            MapFn::DropSecond => spec_fst(x),
            MapFn::DropThird => match x {
                Datum::Triple(a, b, _) => mk_pair(*a, *b),
                _ => x,
            },
            MapFn::DropFirst => match x {
                Datum::Triple(_, b, c) => mk_pair(*b, *c),
                _ => x,
            },
            MapFn::SomeThird => match x {
                Datum::Triple(a, b, c) => mk_triple(*a, *b, Datum::Just(c)),
                _ => x,
            },
            MapFn::NoneThird => match x {
                Datum::Pair(a, b) => mk_triple(*a, *b, Datum::Nothing),
                _ => x,
            },
            MapFn::Custom(f) => f.spec_apply(x),
        }
    }

    pub fn apply(&self, x: &Datum) -> (r: Datum)
        ensures
            r == self.spec_apply(*x),
    {
        match self {
            MapFn::Id => x.duplicate(),
            MapFn::Fst | MapFn::DropSecond => match x {
                Datum::Pair(a, _) => a.duplicate(),
                _ => x.duplicate(),
            },
            MapFn::Snd => match x {
                Datum::Pair(_, b) => b.duplicate(),
                _ => x.duplicate(),
            },
            MapFn::Swap => match x {
                Datum::Pair(a, b) => Datum::pair(b.duplicate(), a.duplicate()),
                _ => x.duplicate(),
            },
            MapFn::WithUnit => Datum::pair(x.duplicate(), Datum::Unit),
            MapFn::DropThird => match x {
                Datum::Triple(a, b, _) => Datum::pair(a.duplicate(), b.duplicate()),
                _ => x.duplicate(),
            },
            MapFn::DropFirst => match x {
                Datum::Triple(_, b, c) => Datum::pair(b.duplicate(), c.duplicate()),
                _ => x.duplicate(),
            },
            MapFn::SomeThird => match x {
                Datum::Triple(a, b, c) => Datum::triple(
                    a.duplicate(),
                    b.duplicate(),
                    Datum::Just(Box::new(c.duplicate())),
                ),
                _ => x.duplicate(),
            },
            MapFn::NoneThird => match x {
                Datum::Pair(a, b) => Datum::triple(a.duplicate(), b.duplicate(), Datum::Nothing),
                _ => x.duplicate(),
            },
            MapFn::Custom(f) => f.apply(x),
        }
    }
}

/// A function on counts given to `map_counts`.
pub enum CountOp {
    /// Negation, as used by `negate`.
    Negate,
    Custom(Box<dyn CountFn>),
}

impl CountOp {
    /// The result on `c`: `None` when it does not fit in an `isize`.
    pub open spec fn spec_map(&self, c: isize) -> Option<isize> {
        match self {
            CountOp::Negate => if is_isize(-c) {
                Some((-c) as isize)
            } else {
                None
            },
            CountOp::Custom(f) => f.spec_map_count(c),
        }
    }

    pub fn map_count(&self, c: isize) -> (r: Option<isize>)
        ensures
            r == self.spec_map(c),
    {
        match self {
            CountOp::Negate => if c == isize::MIN {
                None
            } else {
                Some(-c)
            },
            CountOp::Custom(f) => f.map_count(c),
        }
    }
}

/// The changes `(y, count)` for each `y` of `ys`, in order.
pub open spec fn with_count(ys: Seq<Datum>, c: isize) -> Seq<Delta> {
    ys.map_values(|y: Datum| (y, c))
}

/// What a flat-map node does to each change.
pub enum DeltaOp {
    /// `(x, count)` to `(f(x), count)`.
    Apply(MapFn),
    /// `(x, count)` to `(y, count)` for each `y` of `f(x)`, in order.
    FlatMap(Box<dyn DatumFlatFn>),
    /// Keeps the changes whose element satisfies the predicate.
    Filter(Box<dyn DatumPred>),
    /// `(x, count)` to `(x, f(count))`.
    MapCounts(CountOp),
    Custom(Box<dyn DeltaFn>),
}

impl DeltaOp {
    /// The changes made of `d`, or `None` when a count does not fit in an
    /// `isize`.
    pub open spec fn spec_expand(&self, d: Delta) -> Option<Seq<Delta>> {
        match self {
            DeltaOp::Apply(f) => Some(seq![(f.spec_apply(d.0), d.1)]),
            DeltaOp::FlatMap(f) => Some(with_count(f.spec_expand(d.0)@, d.1)),
            DeltaOp::Filter(p) => Some(
                if p.spec_test(d.0) {
                    seq![d]
                } else {
                    Seq::empty()
                },
            ),
            DeltaOp::MapCounts(f) => match f.spec_map(d.1) {
                Some(c) => Some(seq![(d.0, c)]),
                None => None,
            },
            DeltaOp::Custom(f) => match f.spec_expand_delta(d) {
                Ok(v) => Some(v@),
                Err(_) => None,
            },
        }
    }

    /// The changes made of `d`, when it does not fail.
    pub open spec fn spec_expand_delta(&self, d: Delta) -> Seq<Delta> {
        match self.spec_expand(d) {
            Some(v) => v,
            None => Seq::empty(),
        }
    }

    /// `Ok` except when a count does not fit in an `isize`.
    pub fn expand_delta(&self, d: &Delta) -> (r: Result<Vec<Delta>, CountOverflow>)
        ensures
            r is Ok <==> self.spec_expand(*d) is Some,
            r matches Ok(v) ==> v@ == self.spec_expand_delta(*d),
    {
        match self {
            DeltaOp::Apply(f) => {
                let y = f.apply(&d.0);
                let mut v: Vec<Delta> = Vec::new();
                v.push((y, d.1));
                proof {
                    assert(v@ =~= seq![(f.spec_apply(d.0), d.1)]);
                }
                Ok(v)
            },
            DeltaOp::FlatMap(f) => {
                let ys = f.expand(&d.0);
                let mut v: Vec<Delta> = Vec::new();
                let mut i: usize = 0;
                while i < ys.len()
                    invariant
                        i <= ys@.len(),
                        v@ =~= with_count(ys@.take(i as int), d.1),
                    decreases ys@.len() - i,
                {
                    v.push((ys[i].duplicate(), d.1));
                    assert(ys@.take(i as int + 1) =~= ys@.take(i as int).push(ys@[i as int]));
                    i = i + 1;
                }
                assert(ys@.take(ys@.len() as int) =~= ys@);
                Ok(v)
            },
            DeltaOp::Filter(f) => {
                let mut v: Vec<Delta> = Vec::new();
                if f.test(&d.0) {
                    v.push((d.0.duplicate(), d.1));
                    proof {
                        assert(v@ =~= seq![*d]);
                    }
                } else {
                    proof {
                        assert(v@ =~= Seq::<Delta>::empty());
                    }
                }
                Ok(v)
            },
            DeltaOp::MapCounts(f) => match f.map_count(d.1) {
                None => Err(CountOverflow),
                Some(c) => {
                    let mut v: Vec<Delta> = Vec::new();
                    v.push((d.0.duplicate(), c));
                    proof {
                        assert(v@ =~= seq![(d.0, c)]);
                    }
                    Ok(v)
                },
            },
            DeltaOp::Custom(f) => {
                let r = f.expand_delta(d);
                r
            },
        }
    }
}

/// The changes that `f` makes of each change of `s`, in order.
pub open spec fn expand_all(f: DeltaOp, s: Seq<Delta>) -> Seq<Delta>
    decreases s.len(),
{
    if s.len() == 0 {
        Seq::empty()
    } else {
        expand_all(f, s.drop_last()) + f.spec_expand_delta(s.last())
    }
}

/// Expanding a concatenation expands each part.
pub proof fn lemma_expand_all_concat(f: DeltaOp, a: Seq<Delta>, b: Seq<Delta>)
    ensures
        expand_all(f, a + b) == expand_all(f, a) + expand_all(f, b),
    decreases b.len(),
{
    if b.len() == 0 {
        assert(a + b =~= a);
        assert(expand_all(f, a) + expand_all(f, b) =~= expand_all(f, a));
    } else {
        assert((a + b).drop_last() =~= a + b.drop_last());
        assert((a + b).last() == b.last());
        lemma_expand_all_concat(f, a, b.drop_last());
        assert(expand_all(f, a + b) =~= expand_all(f, a) + expand_all(f, b));
    }
}

impl DeltaOp {
    /// The node does not fail on `d`: every count it computes fits in an
    /// `isize`.
    pub open spec fn delta_fits(&self, d: Delta) -> bool {
        self.spec_expand(d) is Some
    }
}

/// Applies `f` to every change of `input`, in order.
///
/// Fails exactly when a count it computes does not fit in an `isize`.
pub fn expand_deltas(f: &DeltaOp, input: &Vec<Delta>) -> (r: Result<Vec<Delta>, CountOverflow>)
    ensures
        r matches Ok(out) ==> out@ == expand_all(*f, input@),
        r is Ok <==> forall|i: int| 0 <= i < input@.len() ==> #[trigger] f.delta_fits(input@[i]),
{
    let mut out: Vec<Delta> = Vec::new();
    let mut i: usize = 0;
    while i < input.len()
        invariant
            i <= input@.len(),
            out@ == expand_all(*f, input@.take(i as int)),
            forall|j: int| 0 <= j < i ==> #[trigger] f.delta_fits(input@[j]),
        decreases input@.len() - i,
    {
        let rv = f.expand_delta(&input[i]);
        let mut v = match rv {
            Ok(v) => v,
            Err(e) => {
                proof {
                    assert(!f.delta_fits(input@[i as int]));
                }
                return Err(e);
            },
        };
        proof {
            assert(input@.take(i as int + 1).drop_last() =~= input@.take(i as int));
            assert(input@.take(i as int + 1).last() == input@[i as int]);
        }
        out.append(&mut v);
        i = i + 1;
    }
    assert(input@.take(input@.len() as int) =~= input@);
    Ok(out)
}

/// A copy of a sequence of changes.
pub fn copy_deltas(v: &Vec<Delta>) -> (r: Vec<Delta>)
    ensures
        r@ == v@,
{
    let mut out: Vec<Delta> = Vec::new();
    let mut i: usize = 0;
    while i < v.len()
        invariant
            i <= v@.len(),
            out@ == v@.take(i as int),
        decreases v@.len() - i,
    {
        out.push((v[i].0.duplicate(), v[i].1));
        assert(v@.take(i as int + 1) =~= v@.take(i as int).push(v@[i as int]));
        i = i + 1;
    }
    assert(v@.take(v@.len() as int) =~= v@);
    out
}

} // verus!
