use vstd::prelude::*;
use crate::datum::{Datum, Delta, mk_pair};
use crate::count::{count_in, consolidated, is_isize, fits_at, adds_fit, lemma_count_absent, lemma_count_push, lemma_count_remove, lemma_count_unique, lemma_count_update};

verus! {

/// A count would leave the range of `isize`.
#[derive(Debug, Clone, Copy, PartialEq, Eq, Structural)]
pub struct CountOverflow;

/// A consolidated collection: each element with its nonzero count.
///
/// This is the collection that an `Output` holds by default.
pub struct Counts {
    pub entries: Vec<Delta>,
}

impl Counts {
    /// The entries are consolidated: distinct elements, nonzero counts.
    pub open spec fn wf(&self) -> bool {
        consolidated(self.entries@)
    }

    /// The count of `d` in the collection.
    pub open spec fn count(&self, d: Datum) -> int {
        count_in(self.entries@, d)
    }

    /// An empty collection.
    pub fn new() -> (r: Counts)
        ensures
            r.wf(),
            r.entries@.len() == 0,
            forall|d: Datum| r.count(d) == 0,
    {
        Counts { entries: Vec::new() }
    }

    /// The position of `k` among the entries, if it has one.
    pub fn find(&self, k: &Datum) -> (r: Option<usize>)
        ensures
            match r {
                Some(i) => i < self.entries@.len() && self.entries@[i as int].0 == *k,
                None => forall|i: int|
                    0 <= i < self.entries@.len() ==> #[trigger] self.entries@[i].0 != *k,
            },
    {
        let mut i: usize = 0;
        while i < self.entries.len()
            invariant
                i <= self.entries@.len(),
                forall|j: int| 0 <= j < i ==> #[trigger] self.entries@[j].0 != *k,
            decreases self.entries@.len() - i,
        {
            if self.entries[i].0.equals(k) {
                return Some(i);
            }
            i = i + 1;
        }
        None
    }

    /// The count of `k`.
    pub fn get(&self, k: &Datum) -> (r: isize)
        requires
            self.wf(),
        ensures
            r == self.count(*k),
    {
        match self.find(k) {
            Some(i) => {
                proof {
                    lemma_count_unique(self.entries@, i as int);
                }
                self.entries[i].1
            },
            None => {
                proof {
                    lemma_count_absent(self.entries@, *k);
                }
                0
            },
        }
    }

    /// Whether some element has a nonzero count.
    pub fn contains_key(&self, k: &Datum) -> (r: bool)
        requires
            self.wf(),
        ensures
            r == (self.count(*k) != 0),
    {
        let c = self.get(k);
        c != 0
    }

    /// Adds `count` copies of `k`; entries whose count reaches zero are dropped.
    ///
    /// Fails, leaving the collection as it was, exactly when the new count of
    /// `k` would not fit in an `isize`.
    pub fn add(&mut self, k: Datum, count: isize) -> (r: Result<(), CountOverflow>)
        requires
            old(self).wf(),
        ensures
            final(self).wf(),
            r is Ok <==> is_isize(old(self).count(k) + count),
            r is Ok ==> forall|d: Datum|
                #![trigger final(self).count(d)]
                final(self).count(d) == old(self).count(d) + (if d == k {
                    count as int
                } else {
                    0
                }),
            r is Err ==> *final(self) == *old(self),
    {
        if count == 0 {
            proof {
                assert forall|d: Datum| #![trigger self.count(d)] self.count(d) == old(self).count(d) by {}
                if self.find_spec_has(k) {
                    let i = choose|i: int| 0 <= i < self.entries@.len() && self.entries@[i].0 == k;
                    lemma_count_unique(self.entries@, i);
                } else {
                    lemma_count_absent(self.entries@, k);
                }
            }
            return Ok(());
        }
        match self.find(&k) {
            Some(i) => {
                let old_count = self.entries[i].1;
                proof {
                    lemma_count_unique(self.entries@, i as int);
                }
                match old_count.checked_add(count) {
                    None => Err(CountOverflow),
                    Some(new_count) => {
                        let ghost s = self.entries@;
                        if new_count == 0 {
                            self.entries.remove(i);
                            proof {
                                assert forall|d: Datum| #![trigger self.count(d)] self.count(d)
                                    == old(self).count(d) + (if d == k {
                                    count as int
                                } else {
                                    0
                                }) by {
                                    lemma_count_remove(s, i as int, d);
                                }
                                assert forall|a: int, b: int|
                                    0 <= a < b < self.entries@.len() implies #[trigger] self.entries@[a].0
                                    != #[trigger] self.entries@[b].0 by {
                                    let a0 = if a < i { a } else { a + 1 };
                                    let b0 = if b < i { b } else { b + 1 };
                                    assert(self.entries@[a] == s[a0]);
                                    assert(self.entries@[b] == s[b0]);
                                }
                                assert forall|a: int| 0 <= a < self.entries@.len() implies #[trigger] self.entries@[a].1
                                    != 0 by {
                                    let a0 = if a < i { a } else { a + 1 };
                                    assert(self.entries@[a] == s[a0]);
                                }
                            }
                        } else {
                            let kk = self.entries[i].0.duplicate();
                            self.entries.set(i, (kk, new_count));
                            proof {
                                assert forall|d: Datum| #![trigger self.count(d)] self.count(d)
                                    == old(self).count(d) + (if d == k {
                                    count as int
                                } else {
                                    0
                                }) by {
                                    lemma_count_update(s, i as int, (kk, new_count), d);
                                }
                                assert forall|a: int, b: int|
                                    0 <= a < b < self.entries@.len() implies #[trigger] self.entries@[a].0
                                    != #[trigger] self.entries@[b].0 by {
                                    assert(self.entries@[a].0 == s[a].0);
                                    assert(self.entries@[b].0 == s[b].0);
                                }
                            }
                        }
                        Ok(())
                    },
                }
            },
            None => {
                let ghost s = self.entries@;
                proof {
                    lemma_count_absent(s, k);
                }
                let ghost kk = k;
                self.entries.push((k, count));
                proof {
                    assert forall|d: Datum| #![trigger self.count(d)] self.count(d) == old(self).count(d) + (
                    if d == kk {
                        count as int
                    } else {
                        0
                    }) by {
                        lemma_count_push(s, (kk, count), d);
                    }
                    assert forall|a: int, b: int|
                        0 <= a < b < self.entries@.len() implies #[trigger] self.entries@[a].0
                        != #[trigger] self.entries@[b].0 by {
                        if b == s.len() {
                            assert(self.entries@[a] == s[a]);
                        } else {
                            assert(self.entries@[a] == s[a] && self.entries@[b] == s[b]);
                        }
                    }
                }
                Ok(())
            },
        }
    }

    spec fn find_spec_has(&self, k: Datum) -> bool {
        exists|i: int| 0 <= i < self.entries@.len() && self.entries@[i].0 == k
    }

    /// Whether every count is zero.
    pub fn is_empty(&self) -> (r: bool)
        requires
            self.wf(),
        ensures
            r == (forall|d: Datum| self.count(d) == 0),
            r == (self.entries@.len() == 0),
    {
        if self.entries.len() == 0 {
            proof {
                assert forall|d: Datum| self.count(d) == 0 by {
                    lemma_count_absent(self.entries@, d);
                }
            }
            true
        } else {
            proof {
                lemma_count_unique(self.entries@, 0);
                assert(self.count(self.entries@[0].0) != 0);
            }
            false
        }
    }

    /// Number of elements with a nonzero count.
    pub fn len(&self) -> (r: usize)
        ensures
            r == self.entries@.len(),
    {
        self.entries.len()
    }
}

impl Counts {
    /// The collection as a map from elements to their nonzero counts.
    pub open spec fn as_map(&self) -> Map<Datum, int> {
        Map::new(|d: Datum| self.count(d) != 0, |d: Datum| self.count(d))
    }

    /// Adds every change of `deltas`, in order.
    ///
    /// Fails exactly when a running count leaves the range of `isize`.
    pub fn add_all(&mut self, deltas: &Vec<Delta>) -> (r: Result<(), CountOverflow>)
        requires
            old(self).wf(),
        ensures
            final(self).wf(),
            r is Ok <==> adds_fit(|d: Datum| old(self).count(d), deltas@),
            r is Ok ==> forall|d: Datum| #![trigger final(self).count(d)]
                final(self).count(d) == old(self).count(d) + count_in(deltas@, d),
    {
        let ghost m0 = *self;
        let ghost base = |d: Datum| m0.count(d);
        let ghost s = deltas@;
        let mut i: usize = 0;
        while i < deltas.len()
            invariant
                i <= s.len(),
                s == deltas@,
                self.wf(),
                base == (|d: Datum| m0.count(d)),
                m0 == *old(self),
                forall|d: Datum| #![trigger self.count(d)]
                    self.count(d) == m0.count(d) + count_in(s.take(i as int), d),
                forall|j: int| 0 <= j < i ==> #[trigger] fits_at(base, s, j),
            decreases s.len() - i,
        {
            assert(s.take(i as int + 1) =~= s.take(i as int).push(s[i as int]));
            let ghost mid = *self;
            let e = &deltas[i];
            let ra = self.add(e.0.duplicate(), e.1);
            proof {
                lemma_count_push(s.take(i as int), s[i as int], s[i as int].0);
                assert(mid.count(s[i as int].0) == m0.count(s[i as int].0) + count_in(s.take(i as int), s[i as int].0));
                assert(ra is Ok <==> fits_at(base, s, i as int));
            }
            if ra.is_err() {
                proof {
                    assert(m0 == *old(self));
                    assert forall|d: Datum| #[trigger] base(d) == old(self).count(d) by {}
                    assert((|d: Datum| old(self).count(d)) =~= base);
                    assert(!fits_at(base, s, i as int));
                }
                return Err(CountOverflow);
            }
            proof {
                assert forall|d: Datum| #![trigger self.count(d)]
                    self.count(d) == m0.count(d) + count_in(s.take(i as int + 1), d) by {
                    lemma_count_push(s.take(i as int), s[i as int], d);
                    assert(mid.count(d) == m0.count(d) + count_in(s.take(i as int), d));
                }
            }
            i = i + 1;
        }
        assert(s.take(s.len() as int) =~= s);
        assert(adds_fit(base, s));
        assert(m0 == *old(self));
        assert forall|d: Datum| #[trigger] base(d) == old(self).count(d) by {}
        assert((|d: Datum| old(self).count(d)) =~= base);
        Ok(())
    }

    /// The elements `v` of the pairs `(k, v)` of the collection, each with the
    /// count of its pair.
    pub fn group(&self, k: &Datum) -> (r: Counts)
        requires
            self.wf(),
        ensures
            r.wf(),
            forall|v: Datum| #![trigger r.count(v)] r.count(v) == self.count(mk_pair(*k, v)),
    {
        let ghost s = self.entries@;
        let mut res: Vec<Delta> = Vec::new();
        let mut j: usize = 0;
        while j < self.entries.len()
            invariant
                j <= s.len(),
                s == self.entries@,
                consolidated(s),
                consolidated(res@),
                forall|v: Datum| #![trigger count_in(res@, v)]
                    count_in(res@, v) == count_in(s.take(j as int), mk_pair(*k, v)),
                forall|a: int| #![trigger res@[a]] 0 <= a < res@.len() ==> exists|b: int|
                    0 <= b < j && #[trigger] s[b].0 == mk_pair(*k, res@[a].0),
            decreases s.len() - j,
        {
            assert(s.take(j as int + 1) =~= s.take(j as int).push(s[j as int]));
            let e = &self.entries[j];
            let ghost before = res@;
            let mut pushed = false;
            match &e.0 {
                Datum::Pair(k2, v) => {
                    if k2.equals(k) {
                        let vv = v.duplicate();
                        proof {
                            assert forall|a: int| 0 <= a < before.len() implies before[a].0 != vv by {
                                let b = choose|b: int| 0 <= b < j && #[trigger] s[b].0 == mk_pair(*k, before[a].0);
                                if before[a].0 == vv {
                                    assert(s[b].0 == s[j as int].0);
                                }
                            }
                        }
                        res.push((vv, e.1));
                        pushed = true;
                        proof {
                            assert forall|a: int, b: int| 0 <= a < b < res@.len() implies #[trigger] res@[a].0
                                != #[trigger] res@[b].0 by {
                                if b < before.len() {
                                    assert(res@[a] == before[a] && res@[b] == before[b]);
                                } else {
                                    assert(res@[a] == before[a]);
                                }
                            }
                            assert forall|a: int| #![trigger res@[a]] 0 <= a < res@.len() implies exists|b: int|
                                0 <= b < j + 1 && #[trigger] s[b].0 == mk_pair(*k, res@[a].0) by {
                                if a < before.len() {
                                    assert(res@[a] == before[a]);
                                    let b = choose|b: int| 0 <= b < j && #[trigger] s[b].0 == mk_pair(*k, before[a].0);
                                    assert(s[b].0 == mk_pair(*k, res@[a].0));
                                } else {
                                    assert(s[j as int].0 == mk_pair(*k, res@[a].0));
                                }
                            }
                            assert forall|v: Datum| #![trigger count_in(res@, v)]
                                count_in(res@, v) == count_in(s.take(j as int + 1), mk_pair(*k, v)) by {
                                lemma_count_push(before, (vv, e.1), v);
                                lemma_count_push(s.take(j as int), s[j as int], mk_pair(*k, v));
                            }
                        }
                    }
                },
                _ => {},
            }
            if !pushed {
                proof {
                    assert forall|v: Datum| #![trigger count_in(res@, v)]
                        count_in(res@, v) == count_in(s.take(j as int + 1), mk_pair(*k, v)) by {
                        lemma_count_push(s.take(j as int), s[j as int], mk_pair(*k, v));
                    }
                    assert forall|a: int| #![trigger res@[a]] 0 <= a < res@.len() implies exists|b: int|
                        0 <= b < j + 1 && #[trigger] s[b].0 == mk_pair(*k, res@[a].0) by {
                        let b = choose|b: int| 0 <= b < j && #[trigger] s[b].0 == mk_pair(*k, res@[a].0);
                    }
                }
            }
            j = j + 1;
        }
        assert(s.take(s.len() as int) =~= s);
        Counts { entries: res }
    }
}

/// After the first `i + 1` changes of `s` are added to `c`, the count of
/// the element of change `i` is in the range of `isize`.
pub open spec fn counts_fit_at(c: Counts, s: Seq<Delta>, i: int) -> bool {
    fits_at(|p: Datum| c.count(p), s, i)
}

/// An element with a nonzero count has an entry that holds its count.
pub proof fn lemma_count_entry(c: Counts, d: Datum)
    requires
        c.wf(),
    ensures
        c.count(d) == 0 || exists|j: int| 0 <= j < c.entries@.len() && #[trigger] c.entries@[j].0 == d && c.entries@[j].1
            == c.count(d),
{
    if exists|j: int| 0 <= j < c.entries@.len() && #[trigger] c.entries@[j].0 == d {
        let j = choose|j: int| 0 <= j < c.entries@.len() && #[trigger] c.entries@[j].0 == d;
        lemma_count_unique(c.entries@, j);
    } else {
        lemma_count_absent(c.entries@, d);
    }
}

/// Consolidates a batch of changes: each element once, with its net nonzero count.
///
/// Fails exactly when a running count leaves the range of `isize`.
pub fn consolidate_deltas(batch: &Vec<Delta>) -> (r: Result<Counts, CountOverflow>)
    ensures
        r is Ok <==> adds_fit(|d: Datum| 0int, batch@),
        r matches Ok(m) ==> m.wf() && forall|d: Datum| #![trigger m.count(d)] m.count(d) == count_in(batch@, d),
{
    let mut m = Counts::new();
    let ghost m0 = m;
    proof {
        assert((|d: Datum| m0.count(d)) =~= (|d: Datum| 0int));
    }
    m.add_all(batch)?;
    Ok(m)
}

} // verus!
