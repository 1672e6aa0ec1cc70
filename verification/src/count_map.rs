use vstd::prelude::*;
use crate::datum::{Datum, Delta, mk_pair};
use crate::count::{count_in, fits_at, adds_fit, lemma_count_single, lemma_count_concat};
use crate::counts::{Counts, CountOverflow};
use crate::fns::copy_deltas;

verus! {

/// What an output keeps of the changes of its relation.
pub trait CountMap: Sized {
    /// The map's own invariant.
    spec fn cm_wf(&self) -> bool;

    /// The map holds nothing.
    spec fn cm_empty(&self) -> bool;

    /// `after` is `before` with the changes `s` added, in order.
    spec fn spec_added_all(before: Self, s: Seq<Delta>, after: Self) -> bool;

    /// Adding the changes `s`, in order, keeps every count the map holds in
    /// the range of `isize`.
    spec fn spec_fits(&self, s: Seq<Delta>) -> bool;

    /// A map that holds nothing.
    fn empty() -> (r: Self)
        ensures
            r.cm_wf(),
            r.cm_empty(),
    ;

    /// Adds `count` copies of `k`.
    fn add(&mut self, k: Datum, count: isize) -> (r: Result<(), CountOverflow>)
        requires
            old(self).cm_wf(),
        ensures
            final(self).cm_wf(),
            r is Ok <==> old(self).spec_fits(seq![(k, count)]),
            r is Ok ==> Self::spec_added_all(*old(self), seq![(k, count)], *final(self)),
    ;

    /// Adds every change of `s`, in order.
    fn add_all(&mut self, s: &Vec<Delta>) -> (r: Result<(), CountOverflow>)
        requires
            old(self).cm_wf(),
        ensures
            final(self).cm_wf(),
            r is Ok <==> old(self).spec_fits(s@),
            r is Ok ==> Self::spec_added_all(*old(self), s@, *final(self)),
    ;
}

impl CountMap for Counts {
    open spec fn cm_wf(&self) -> bool {
        self.wf()
    }

    open spec fn cm_empty(&self) -> bool {
        forall|d: Datum| self.count(d) == 0
    }

    /// Each count grows by the net count of the changes.
    open spec fn spec_added_all(before: Counts, s: Seq<Delta>, after: Counts) -> bool {
        forall|d: Datum| #![trigger after.count(d)] after.count(d) == before.count(d) + count_in(s, d)
    }

    open spec fn spec_fits(&self, s: Seq<Delta>) -> bool {
        adds_fit(|d: Datum| self.count(d), s)
    }

    fn empty() -> (r: Counts) {
        Counts::new()
    }

    fn add(&mut self, k: Datum, count: isize) -> (r: Result<(), CountOverflow>) {
        let ghost k0 = k;
        let r = Counts::add(self, k, count);
        proof {
            assert forall|d: Datum| count_in(seq![(k0, count)], d) == (if d == k0 {
                count as int
            } else {
                0
            }) by {
                lemma_count_single((k0, count), d);
            }
            let t = seq![(k0, count)];
            assert(t.take(1) =~= t);
            assert(fits_at(|d: Datum| old(self).count(d), t, 0) <==> adds_fit(|d: Datum| old(self).count(d), t));
        }
        r
    }

    fn add_all(&mut self, s: &Vec<Delta>) -> (r: Result<(), CountOverflow>) {
        Counts::add_all(self, s)
    }
}

/// A map that keeps the changes themselves, in the order they came, until
/// they are received.
pub struct Pipe {
    pub items: Vec<Delta>,
}

impl CountMap for Pipe {
    open spec fn cm_wf(&self) -> bool {
        true
    }

    open spec fn cm_empty(&self) -> bool {
        self.items@.len() == 0
    }

    /// The changes are appended.
    open spec fn spec_added_all(before: Pipe, s: Seq<Delta>, after: Pipe) -> bool {
        after.items@ == before.items@ + s
    }

    /// Changes are kept, not counted: nothing can leave a range.
    open spec fn spec_fits(&self, s: Seq<Delta>) -> bool {
        true
    }

    fn empty() -> (r: Pipe) {
        Pipe { items: Vec::new() }
    }

    fn add(&mut self, k: Datum, count: isize) -> (r: Result<(), CountOverflow>) {
        self.items.push((k, count));
        assert(self.items@ =~= old(self).items@ + seq![(k, count)]);
        Ok(())
    }

    fn add_all(&mut self, s: &Vec<Delta>) -> (r: Result<(), CountOverflow>) {
        let mut c = copy_deltas(s);
        self.items.append(&mut c);
        Ok(())
    }
}

impl Pipe {
    /// Takes the changes kept so far, in the order they came.
    pub fn receive(&mut self) -> (r: Vec<Delta>)
        ensures
            r@ == old(self).items@,
            final(self).items@.len() == 0,
    {
        let mut r = Vec::new();
        std::mem::swap(&mut r, &mut self.items);
        r
    }

    /// The same as `receive`.
    pub fn take(&mut self) -> (r: Vec<Delta>)
        ensures
            r@ == old(self).items@,
            final(self).items@.len() == 0,
    {
        self.receive()
    }
}

/// A map of pairs `(k, v)` as, for each key `k`, the values `v` with their counts.
pub struct KvCounts {
    pub pairs: Counts,
}

impl CountMap for KvCounts {
    open spec fn cm_wf(&self) -> bool {
        self.pairs.wf()
    }

    open spec fn cm_empty(&self) -> bool {
        forall|d: Datum| self.pairs.count(d) == 0
    }

    open spec fn spec_added_all(before: KvCounts, s: Seq<Delta>, after: KvCounts) -> bool {
        forall|d: Datum| #![trigger after.pairs.count(d)] after.pairs.count(d) == before.pairs.count(d) + count_in(s, d)
    }

    open spec fn spec_fits(&self, s: Seq<Delta>) -> bool {
        adds_fit(|d: Datum| self.pairs.count(d), s)
    }

    fn empty() -> (r: KvCounts) {
        KvCounts { pairs: Counts::new() }
    }

    fn add(&mut self, k: Datum, count: isize) -> (r: Result<(), CountOverflow>) {
        CountMap::add(&mut self.pairs, k, count)
    }

    fn add_all(&mut self, s: &Vec<Delta>) -> (r: Result<(), CountOverflow>) {
        self.pairs.add_all(s)
    }
}

impl KvCounts {
    /// The values kept under `k`, with their counts.
    pub fn get(&self, k: &Datum) -> (r: Counts)
        requires
            self.pairs.wf(),
        ensures
            r.wf(),
            forall|v: Datum| #![trigger r.count(v)] r.count(v) == self.pairs.count(mk_pair(*k, v)),
    {
        self.pairs.group(k)
    }
}

} // verus!
