use vstd::prelude::*;
use crate::datum::{Datum, Delta, datum_le, datum_lt, lemma_le_antisym, lemma_le_total, lemma_le_trans, lemma_le_refl};
use crate::count::{count_in, adds_fit, lemma_count_empty};
use crate::counts::{Counts, CountOverflow, consolidate_deltas};
use crate::count_map::CountMap;
use crate::fns::{MapFn, spec_fst, spec_snd, copy_deltas};

verus! {

/// The key of an entry `((k, v), count)`: `k`. (Any other element is its own key.)
pub open spec fn key_of(d: Delta) -> Datum {
    spec_fst(d.0)
}

/// The change `(v, count)` that an entry `((k, v), count)` makes to the values of `k`.
pub open spec fn value_change(d: Delta) -> Delta {
    (spec_snd(d.0), d.1)
}

/// The changes that the entries of `s` with key `k` make to the values of `k`, in order.
pub open spec fn keyed(s: Seq<Delta>, k: Datum) -> Seq<Delta>
    decreases s.len(),
{
    if s.len() == 0 {
        Seq::empty()
    } else {
        keyed(s.drop_last(), k) + if key_of(s.last()) == k {
            seq![value_change(s.last())]
        } else {
            Seq::empty()
        }
    }
}

/// The entries of `s` whose key is greater than `k`, in order.
pub open spec fn after_key(s: Seq<Delta>, k: Datum) -> Seq<Delta>
    decreases s.len(),
{
    if s.len() == 0 {
        Seq::empty()
    } else {
        after_key(s.drop_last(), k) + if datum_lt(k, key_of(s.last())) {
            seq![s.last()]
        } else {
            Seq::empty()
        }
    }
}

/// The entries of `s` with key `k` cancel out: every value of `k` has net count 0.
pub open spec fn cancels(s: Seq<Delta>, k: Datum) -> bool {
    forall|v: Datum| #[trigger] count_in(keyed(s, k), v) == 0
}

proof fn lemma_keyed_after(s: Seq<Delta>, kp: Datum, k: Datum)
    requires
        datum_lt(kp, k),
    ensures
        keyed(after_key(s, kp), k) == keyed(s, k),
    decreases s.len(),
{
    if s.len() > 0 {
        lemma_keyed_after(s.drop_last(), kp, k);
        let a = after_key(s.drop_last(), kp);
        if datum_lt(kp, key_of(s.last())) {
            assert(after_key(s, kp).drop_last() =~= a);
        } else {
            assert(after_key(s, kp) =~= a);
            if key_of(s.last()) == k {
                assert(false);
            }
        }
    }
}

proof fn lemma_after_after(s: Seq<Delta>, kp: Datum, k: Datum)
    requires
        datum_lt(kp, k),
    ensures
        after_key(after_key(s, kp), k) == after_key(s, k),
    decreases s.len(),
{
    if s.len() > 0 {
        lemma_after_after(s.drop_last(), kp, k);
        let a = after_key(s.drop_last(), kp);
        let x = key_of(s.last());
        if datum_lt(kp, x) {
            assert(after_key(s, kp).drop_last() =~= a);
        } else {
            assert(after_key(s, kp) =~= a);
            if datum_lt(k, x) {
                lemma_le_trans(kp, k, x);
                lemma_le_antisym(kp, k);
                lemma_le_antisym(k, x);
            }
        }
    }
}

proof fn lemma_after_keys(s: Seq<Delta>, k: Datum)
    ensures
        forall|i: int| 0 <= i < after_key(s, k).len() ==> datum_lt(k, key_of(#[trigger] after_key(s, k)[i])),
    decreases s.len(),
{
    if s.len() > 0 {
        lemma_after_keys(s.drop_last(), k);
        let a = after_key(s.drop_last(), k);
        assert forall|i: int| 0 <= i < after_key(s, k).len() implies datum_lt(k, key_of(#[trigger] after_key(s, k)[i])) by {
            if i < a.len() {
                assert(after_key(s, k)[i] == a[i]);
            }
        }
    }
}

proof fn lemma_keyed_absent(s: Seq<Delta>, k: Datum)
    requires
        forall|i: int| 0 <= i < s.len() ==> key_of(#[trigger] s[i]) != k,
    ensures
        keyed(s, k) == Seq::<Delta>::empty(),
    decreases s.len(),
{
    if s.len() > 0 {
        lemma_keyed_absent(s.drop_last(), k);
        assert(keyed(s, k) =~= keyed(s.drop_last(), k));
    }
}

proof fn lemma_keyed_nonempty(s: Seq<Delta>, k: Datum, i: int)
    requires
        0 <= i < s.len(),
        key_of(s[i]) == k,
    ensures
        keyed(s, k).len() > 0,
    decreases s.len(),
{
    if i < s.len() - 1 {
        lemma_keyed_nonempty(s.drop_last(), k, i);
    }
}

proof fn lemma_cancels_absent(s: Seq<Delta>, k: Datum)
    requires
        forall|i: int| 0 <= i < s.len() ==> key_of(#[trigger] s[i]) != k,
    ensures
        cancels(s, k),
{
    lemma_keyed_absent(s, k);
    assert forall|v: Datum| #[trigger] count_in(keyed(s, k), v) == 0 by {
        lemma_count_empty(v);
    }
}

/// The changes of the values of key `k` among `s`, consolidated, keep every
/// running count in the range of `isize`.
pub open spec fn group_fits(s: Seq<Delta>, k: Datum) -> bool {
    adds_fit(|d: Datum| 0int, keyed(s, k))
}

/// A receive from entries `s` fails: the group of some key does not fit,
/// and the group of every lesser key fits and cancels out.
pub open spec fn receive_fails(s: Seq<Delta>) -> bool {
    exists|k: Datum|
        !#[trigger] group_fits(s, k) && forall|k2: Datum| #[trigger] datum_lt(k2, k) ==> group_fits(s, k2) && cancels(s, k2)
}

/// The group of a key that no entry has fits and cancels out.
proof fn lemma_group_absent(s: Seq<Delta>, k: Datum)
    requires
        forall|i: int| 0 <= i < s.len() ==> key_of(#[trigger] s[i]) != k,
    ensures
        group_fits(s, k),
        cancels(s, k),
{
    lemma_keyed_absent(s, k);
    lemma_cancels_absent(s, k);
}

/// A map of pairs `(k, v)` that hands out, on each receive, the values of
/// the least key whose changes do not cancel out.
pub struct OrderedPipe {
    pub items: Vec<Delta>,
}

impl CountMap for OrderedPipe {
    open spec fn cm_wf(&self) -> bool {
        true
    }

    open spec fn cm_empty(&self) -> bool {
        self.items@.len() == 0
    }

    /// The changes are appended.
    open spec fn spec_added_all(before: OrderedPipe, s: Seq<Delta>, after: OrderedPipe) -> bool {
        after.items@ == before.items@ + s
    }

    /// Changes are kept, not counted: nothing can leave a range.
    open spec fn spec_fits(&self, s: Seq<Delta>) -> bool {
        true
    }

    fn empty() -> (r: OrderedPipe) {
        OrderedPipe { items: Vec::new() }
    }

    fn add(&mut self, k: Datum, count: isize) -> (r: Result<(), CountOverflow>) {
        self.items.push((k, count));
        assert(self.items@ =~= old(self).items@ + seq![(k, count)]);
        Ok(())
    }

    fn add_all(&mut self, s: &Vec<Delta>) -> (r: Result<(), CountOverflow>) {
        let mut c = copy_deltas(s);
        self.items.append(&mut c);
        Ok(())
    }
}

/// The position of an entry of `s` with the least key.
fn least_key_at(s: &Vec<Delta>) -> (r: usize)
    requires
        s@.len() > 0,
    ensures
        r < s@.len(),
        forall|i: int| 0 <= i < s@.len() ==> datum_le(key_of(s@[r as int]), key_of(#[trigger] s@[i])),
{
    let mut best: usize = 0;
    let mut i: usize = 1;
    proof {
        lemma_le_refl(key_of(s@[0]));
    }
    while i < s.len()
        invariant
            1 <= i <= s@.len(),
            best < i,
            forall|j: int| 0 <= j < i ==> datum_le(key_of(s@[best as int]), key_of(#[trigger] s@[j])),
        decreases s@.len() - i,
    {
        let kb = MapFn::Fst.apply(&s[best].0);
        let ki = MapFn::Fst.apply(&s[i].0);
        proof {
            lemma_le_total(key_of(s@[best as int]), key_of(s@[i as int]));
        }
        if !kb.le(&ki) {
            proof {
                assert forall|j: int| 0 <= j < i + 1 implies datum_le(key_of(s@[i as int]), key_of(#[trigger] s@[j])) by {
                    if j < i {
                        lemma_le_trans(key_of(s@[i as int]), key_of(s@[best as int]), key_of(s@[j]));
                    } else {
                        lemma_le_refl(key_of(s@[j]));
                    }
                }
            }
            best = i;
        }
        i = i + 1;
    }
    best
}

/// Splits `s`, every key of which is at least `k`, into the changes of the
/// values of `k` and the entries with greater keys.
fn partition_key(s: &Vec<Delta>, k: &Datum) -> (r: (Vec<Delta>, Vec<Delta>))
    requires
        forall|i: int| 0 <= i < s@.len() ==> datum_le(*k, key_of(#[trigger] s@[i])),
    ensures
        r.0@ == keyed(s@, *k),
        r.1@ == after_key(s@, *k),
        r.0@.len() + r.1@.len() == s@.len(),
{
    let mut group: Vec<Delta> = Vec::new();
    let mut rest: Vec<Delta> = Vec::new();
    let mut i: usize = 0;
    while i < s.len()
        invariant
            i <= s@.len(),
            forall|j: int| 0 <= j < s@.len() ==> datum_le(*k, key_of(#[trigger] s@[j])),
            group@ == keyed(s@.take(i as int), *k),
            rest@ == after_key(s@.take(i as int), *k),
            group@.len() + rest@.len() == i,
        decreases s@.len() - i,
    {
        let ghost t = s@.take(i as int + 1);
        assert(t.drop_last() =~= s@.take(i as int));
        assert(t.last() == s@[i as int]);
        let key = MapFn::Fst.apply(&s[i].0);
        if key.equals(k) {
            let v = MapFn::Snd.apply(&s[i].0);
            group.push((v, s[i].1));
            proof {
                assert(group@ =~= keyed(t, *k));
                assert(rest@ =~= after_key(t, *k));
            }
        } else {
            rest.push((s[i].0.duplicate(), s[i].1));
            proof {
                assert(datum_le(*k, key_of(s@[i as int])));
                assert(group@ =~= keyed(t, *k));
                assert(rest@ =~= after_key(t, *k));
            }
        }
        i = i + 1;
    }
    assert(s@.take(s@.len() as int) =~= s@);
    (group, rest)
}

impl OrderedPipe {
    /// Takes the entries of the least key whose changes do not cancel out,
    /// with every entry of a lesser key, and returns that key with the net
    /// count of each of its values. Returns `None`, with every entry taken,
    /// when the changes of every key cancel out.
    ///
    /// Fails exactly when, before such a key, the running counts of a key's
    /// values leave the range of `isize` (`receive_fails`).
    pub fn receive(&mut self) -> (r: Result<Option<(Datum, Counts)>, CountOverflow>)
        ensures
            r is Err <==> receive_fails(old(self).items@),
            r matches Ok(None) ==> final(self).items@.len() == 0 && forall|k: Datum| #[trigger] cancels(old(self).items@, k),
            r matches Ok(Some((k, m))) ==> {
                &&& m.wf()
                &&& forall|v: Datum| #[trigger] m.count(v) == count_in(keyed(old(self).items@, k), v)
                &&& !cancels(old(self).items@, k)
                &&& forall|k2: Datum| #[trigger] datum_lt(k2, k) ==> cancels(old(self).items@, k2)
                &&& final(self).items@ == after_key(old(self).items@, k)
            },
    {
        let ghost s0 = self.items@;
        let ghost mut lo: Option<Datum> = None;
        loop
            invariant
                s0 == old(self).items@,
                lo is None ==> self.items@ == s0,
                lo matches Some(kp) ==> self.items@ == after_key(s0, kp) && forall|k2: Datum|
                    #[trigger] datum_le(k2, kp) ==> cancels(s0, k2) && group_fits(s0, k2),
            decreases self.items@.len(),
        {
            let ghost cur = self.items@;
            if self.items.len() == 0 {
                proof {
                    assert forall|k: Datum| #![trigger cancels(s0, k)] #![trigger group_fits(s0, k)] cancels(s0, k) && group_fits(s0, k) by {
                        match lo {
                            None => {
                                lemma_group_absent(s0, k);
                            },
                            Some(kp) => {
                                lemma_le_total(k, kp);
                                if !datum_le(k, kp) {
                                    lemma_keyed_after(s0, kp, k);
                                    lemma_group_absent(cur, k);
                                }
                            },
                        }
                    }
                    assert(!receive_fails(s0));
                }
                return Ok(None);
            }
            let b = least_key_at(&self.items);
            let k = MapFn::Fst.apply(&self.items[b].0);
            let (group, rest) = partition_key(&self.items, &k);
            let rm = consolidate_deltas(&group);
            proof {
                assert(key_of(cur[b as int]) == k);
                lemma_keyed_nonempty(cur, k, b as int);
                // the groups of `k` and of lesser keys, against the entries as they were
                match lo {
                    None => {},
                    Some(kp) => {
                        lemma_after_keys(s0, kp);
                        assert(datum_lt(kp, key_of(cur[b as int])));
                        lemma_keyed_after(s0, kp, k);
                        lemma_after_after(s0, kp, k);
                    },
                }
                assert forall|k2: Datum| #[trigger] datum_lt(k2, k) implies cancels(s0, k2) && group_fits(s0, k2) by {
                    assert forall|i: int| 0 <= i < cur.len() implies key_of(#[trigger] cur[i]) != k2 by {
                        if key_of(cur[i]) == k2 {
                            lemma_le_antisym(k, k2);
                        }
                    }
                    match lo {
                        None => {
                            lemma_group_absent(s0, k2);
                        },
                        Some(kp) => {
                            lemma_le_total(k2, kp);
                            if !datum_le(k2, kp) {
                                lemma_keyed_after(s0, kp, k2);
                                lemma_group_absent(cur, k2);
                            }
                        },
                    }
                }
                assert(group@ == keyed(s0, k));
                assert(rm is Ok <==> group_fits(s0, k));
            }
            let m = match rm {
                Ok(m) => m,
                Err(e) => {
                    proof {
                        assert(!group_fits(s0, k));
                        assert(receive_fails(s0));
                    }
                    return Err(e);
                },
            };
            self.items = rest;
            if !m.is_empty() {
                proof {
                    let w = choose|w: Datum| m.count(w) != 0;
                    assert(count_in(keyed(s0, k), w) != 0);
                    assert(!cancels(s0, k));
                    if receive_fails(s0) {
                        let kk = choose|kk: Datum|
                            !#[trigger] group_fits(s0, kk) && forall|k2: Datum| #[trigger] datum_lt(k2, kk) ==> group_fits(s0, k2)
                                && cancels(s0, k2);
                        lemma_le_total(kk, k);
                        if kk == k {
                            assert(group_fits(s0, k));
                        } else if datum_le(k, kk) {
                            assert(datum_lt(k, kk));
                            assert(cancels(s0, k));
                        } else {
                            assert(datum_lt(kk, k));
                            assert(group_fits(s0, kk));
                        }
                    }
                }
                return Ok(Some((k, m)));
            }
            proof {
                assert forall|k2: Datum| #[trigger] datum_le(k2, k) implies cancels(s0, k2) && group_fits(s0, k2) by {
                    if k2 == k {
                        assert forall|v: Datum| #[trigger] count_in(keyed(s0, k2), v) == 0 by {
                            assert(m.count(v) == 0);
                        }
                    } else {
                        assert(datum_lt(k2, k));
                    }
                }
                lo = Some(k);
            }
        }
    }
}

} // verus!
