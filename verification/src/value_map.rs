use vstd::prelude::*;
use crate::datum::Datum;

verus! {

/// The value that the last entry for `k` gives, if any.
pub open spec fn lookup(s: Seq<(Datum, Datum)>, k: Datum) -> Option<Datum>
    decreases s.len(),
{
    if s.len() == 0 {
        None
    } else if s.last().0 == k {
        Some(s.last().1)
    } else {
        lookup(s.drop_last(), k)
    }
}

pub open spec fn value_keys_distinct(s: Seq<(Datum, Datum)>) -> bool {
    forall|i: int, j: int| 0 <= i < j < s.len() ==> #[trigger] s[i].0 != #[trigger] s[j].0
}

proof fn lemma_lookup_absent(s: Seq<(Datum, Datum)>, k: Datum)
    requires
        forall|i: int| 0 <= i < s.len() ==> #[trigger] s[i].0 != k,
    ensures
        lookup(s, k) is None,
    decreases s.len(),
{
    if s.len() > 0 {
        assert forall|i: int| 0 <= i < s.drop_last().len() implies #[trigger] s.drop_last()[i].0 != k by {
            assert(s.drop_last()[i] == s[i]);
        }
        lemma_lookup_absent(s.drop_last(), k);
        assert(s.last() == s[s.len() - 1]);
    }
}

proof fn lemma_lookup_unique(s: Seq<(Datum, Datum)>, i: int)
    requires
        value_keys_distinct(s),
        0 <= i < s.len(),
    ensures
        lookup(s, s[i].0) == Some(s[i].1),
    decreases s.len(),
{
    if i < s.len() - 1 {
        let t = s.drop_last();
        assert forall|a: int, b: int| 0 <= a < b < t.len() implies #[trigger] t[a].0 != #[trigger] t[b].0 by {
            assert(t[a] == s[a] && t[b] == s[b]);
        }
        assert(t[i] == s[i]);
        assert(s.last() == s[s.len() - 1]);
        lemma_lookup_unique(t, i);
    }
}

/// In a sequence with distinct keys, the value for `k` is that of its entry.
pub proof fn lemma_lookup_char(s: Seq<(Datum, Datum)>, k: Datum)
    requires
        value_keys_distinct(s),
    ensures
        lookup(s, k) == (if exists|i: int| 0 <= i < s.len() && #[trigger] s[i].0 == k {
            Some(s[choose|i: int| 0 <= i < s.len() && #[trigger] s[i].0 == k].1)
        } else {
            None
        }),
{
    if exists|i: int| 0 <= i < s.len() && #[trigger] s[i].0 == k {
        let i = choose|i: int| 0 <= i < s.len() && #[trigger] s[i].0 == k;
        lemma_lookup_unique(s, i);
    } else {
        lemma_lookup_absent(s, k);
    }
}

/// What `insert_if_different` found.
pub enum InsertResult {
    NoOldValue,
    OldValue(Datum),
    Unchanged,
}

/// A map from keys to single values, as a `reduce` keeps its results.
pub trait OutputMap {
    spec fn inv(&self) -> bool;

    spec fn lookup_spec(&self, k: Datum) -> Option<Datum>;

    /// Removes the value of `k` and returns it.
    fn remove(&mut self, k: &Datum) -> (r: Option<Datum>)
        requires
            old(self).inv(),
        ensures
            final(self).inv(),
            r == old(self).lookup_spec(*k),
            forall|j: Datum| #![trigger final(self).lookup_spec(j)]
                final(self).lookup_spec(j) == if j == *k {
                    None
                } else {
                    old(self).lookup_spec(j)
                },
    ;

    /// Sets the value of `k` to `v`, and tells whether it had no value, had
    /// another value (which it returns) or had `v` already.
    fn insert_if_different(&mut self, k: Datum, v: Datum) -> (r: InsertResult)
        requires
            old(self).inv(),
        ensures
            final(self).inv(),
            forall|j: Datum| #![trigger final(self).lookup_spec(j)]
                final(self).lookup_spec(j) == if j == k {
                    Some(v)
                } else {
                    old(self).lookup_spec(j)
                },
            r == match old(self).lookup_spec(k) {
                None => InsertResult::NoOldValue,
                Some(o) => if o == v {
                    InsertResult::Unchanged
                } else {
                    InsertResult::OldValue(o)
                },
            },
    ;
}

/// Keys with one value each, kept in a vector.
pub struct ValueMap {
    pub entries: Vec<(Datum, Datum)>,
}

impl ValueMap {
    pub fn new() -> (r: ValueMap)
        ensures
            r.inv(),
            forall|k: Datum| r.lookup_spec(k) is None,
    {
        ValueMap { entries: Vec::new() }
    }

    fn find(&self, k: &Datum) -> (r: Option<usize>)
        ensures
            match r {
                Some(i) => i < self.entries@.len() && self.entries@[i as int].0 == *k,
                None => forall|i: int| 0 <= i < self.entries@.len() ==> #[trigger] self.entries@[i].0 != *k,
            },
    {
        let mut i: usize = 0;
        while i < self.entries.len()
            invariant
                i <= self.entries@.len(),
                forall|j: int| 0 <= j < i ==> #[trigger] self.entries@[j].0 != *k,
            decreases self.entries@.len() - i,
        {
            if self.entries[i].0.equals(k) {
                return Some(i);
            }
            i = i + 1;
        }
        None
    }

    /// A copy of the map.
    pub fn copy(&self) -> (r: ValueMap)
        ensures
            r.entries@ == self.entries@,
    {
        let mut out: Vec<(Datum, Datum)> = Vec::new();
        let mut i: usize = 0;
        while i < self.entries.len()
            invariant
                i <= self.entries@.len(),
                out@ == self.entries@.take(i as int),
            decreases self.entries@.len() - i,
        {
            out.push((self.entries[i].0.duplicate(), self.entries[i].1.duplicate()));
            assert(self.entries@.take(i as int + 1) =~= self.entries@.take(i as int).push(self.entries@[i as int]));
            i = i + 1;
        }
        assert(self.entries@.take(self.entries@.len() as int) =~= self.entries@);
        ValueMap { entries: out }
    }

    /// The value of `k`, if any.
    pub fn get(&self, k: &Datum) -> (r: Option<Datum>)
        requires
            self.inv(),
        ensures
            r == self.lookup_spec(*k),
    {
        match self.find(k) {
            Some(i) => {
                proof {
                    lemma_lookup_unique(self.entries@, i as int);
                }
                Some(self.entries[i].1.duplicate())
            },
            None => {
                proof {
                    lemma_lookup_absent(self.entries@, *k);
                }
                None
            },
        }
    }
}

impl OutputMap for ValueMap {
    open spec fn inv(&self) -> bool {
        value_keys_distinct(self.entries@)
    }

    open spec fn lookup_spec(&self, k: Datum) -> Option<Datum> {
        lookup(self.entries@, k)
    }

    fn remove(&mut self, k: &Datum) -> (r: Option<Datum>) {
        match self.find(k) {
            None => {
                proof {
                    lemma_lookup_absent(self.entries@, *k);
                }
                None
            },
            Some(i) => {
                let ghost s = self.entries@;
                proof {
                    lemma_lookup_unique(s, i as int);
                }
                let (_, v) = self.entries.remove(i);
                proof {
                    let t = self.entries@;
                    assert forall|a: int, b: int| 0 <= a < b < t.len() implies #[trigger] t[a].0 != #[trigger] t[b].0 by {
                        let a0 = if a < i { a } else { a + 1 };
                        let b0 = if b < i { b } else { b + 1 };
                        assert(t[a] == s[a0] && t[b] == s[b0]);
                    }
                    assert forall|j: Datum| #![trigger lookup(t, j)]
                        lookup(t, j) == if j == *k { None } else { lookup(s, j) } by {
                        lemma_lookup_char(t, j);
                        lemma_lookup_char(s, j);
                        if exists|a: int| 0 <= a < t.len() && #[trigger] t[a].0 == j {
                            let a = choose|a: int| 0 <= a < t.len() && #[trigger] t[a].0 == j;
                            let a0 = if a < i { a } else { a + 1 };
                            assert(t[a] == s[a0]);
                            lemma_lookup_unique(s, a0);
                            lemma_lookup_unique(t, a);
                        } else if j != *k {
                            if exists|a: int| 0 <= a < s.len() && #[trigger] s[a].0 == j {
                                let a = choose|a: int| 0 <= a < s.len() && #[trigger] s[a].0 == j;
                                let a1 = if a < i { a } else { a - 1 };
                                assert(a != i);
                                assert(t[a1] == s[a]);
                            }
                        }
                    }
                }
                Some(v)
            },
        }
    }

    fn insert_if_different(&mut self, k: Datum, v: Datum) -> (r: InsertResult) {
        let ghost s = self.entries@;
        match self.find(&k) {
            None => {
                proof {
                    lemma_lookup_absent(s, k);
                }
                let ghost kk = k;
                let ghost vv = v;
                self.entries.push((k, v));
                proof {
                    let t = self.entries@;
                    assert forall|a: int, b: int| 0 <= a < b < t.len() implies #[trigger] t[a].0 != #[trigger] t[b].0 by {
                        assert(t[a] == s[a]);
                        if b < s.len() {
                            assert(t[b] == s[b]);
                        }
                    }
                    assert(t.drop_last() =~= s);
                    assert forall|j: Datum| #![trigger lookup(t, j)]
                        lookup(t, j) == if j == kk { Some(vv) } else { lookup(s, j) } by {}
                }
                InsertResult::NoOldValue
            },
            Some(i) => {
                proof {
                    lemma_lookup_unique(s, i as int);
                }
                if self.entries[i].1.equals(&v) {
                    proof {
                        assert forall|j: Datum| #![trigger lookup(s, j)]
                            lookup(s, j) == if j == k { Some(v) } else { lookup(s, j) } by {}
                    }
                    InsertResult::Unchanged
                } else {
                    let ghost kk = k;
                    let ghost vv = v;
                    let old_v = self.entries[i].1.duplicate();
                    self.entries.set(i, (k, v));
                    proof {
                        let t = self.entries@;
                        assert forall|a: int, b: int| 0 <= a < b < t.len() implies #[trigger] t[a].0 != #[trigger] t[b].0 by {
                            assert(t[a].0 == s[a].0 && t[b].0 == s[b].0);
                        }
                        assert forall|j: Datum| #![trigger lookup(t, j)]
                            lookup(t, j) == if j == kk { Some(vv) } else { lookup(s, j) } by {
                            lemma_lookup_char(t, j);
                            lemma_lookup_char(s, j);
                            lemma_lookup_unique(t, i as int);
                            if exists|a: int| 0 <= a < t.len() && #[trigger] t[a].0 == j {
                                let a = choose|a: int| 0 <= a < t.len() && #[trigger] t[a].0 == j;
                                lemma_lookup_unique(t, a);
                                if a != i {
                                    assert(t[a] == s[a]);
                                    lemma_lookup_unique(s, a);
                                }
                            } else {
                                assert forall|a: int| 0 <= a < s.len() implies #[trigger] s[a].0 != j by {
                                    assert(t[a].0 == s[a].0);
                                }
                                lemma_lookup_absent(s, j);
                            }
                        }
                    }
                    InsertResult::OldValue(old_v)
                }
            },
        }
    }
}

} // verus!
