use vstd::prelude::*;
use crate::datum::{Datum, Delta, mk_pair, datum_le, lemma_le_antisym, lemma_le_total, lemma_le_trans, lemma_le_refl};
use crate::count::{count_in, lemma_count_push, consolidated};
use crate::counts::{Counts, CountOverflow, counts_fit_at};
use crate::fns::ReduceFn;
use crate::value_map::{InsertResult, OutputMap, ValueMap};

verus! {

/// The values grouped under `k` in a collection of pairs `(k, v)`, with their counts.
pub open spec fn group_map(m: Counts, k: Datum) -> Map<Datum, int> {
    Map::new(|v: Datum| m.count(mk_pair(k, v)) != 0, |v: Datum| m.count(mk_pair(k, v)))
}

/// Some pair `(k, v)` has a nonzero count.
pub open spec fn has_group(m: Counts, k: Datum) -> bool {
    exists|v: Datum| m.count(mk_pair(k, v)) != 0
}

/// `o` is what a reduce by `f` keeps for `k`: a result exactly when `k`
/// has a nonempty group, and then the one `f` gives for it.
pub open spec fn agrees(f: ReduceOp, m: Counts, k: Datum, o: Option<Datum>) -> bool {
    &&& (o is Some <==> has_group(m, k))
    &&& (o matches Some(y) ==> reduces_to(f, k, group_map(m, k), y))
}

/// 1 when the reduce keeps `y` for `k`, 0 otherwise.
pub open spec fn holds_value(out: ValueMap, k: Datum, y: Datum) -> int {
    if out.lookup_spec(k) == Some(y) {
        1
    } else {
        0
    }
}

/// The count of `d` in the output of a reduce whose results are `out`:
/// `((k, y), 1)` for each key `k` with result `y`.
pub open spec fn reduce_value(out: ValueMap, d: Datum) -> int {
    match d {
        Datum::Pair(k, y) => holds_value(out, *k, *y),
        _ => 0,
    }
}

/// The key `k` of a change `((k, y), c)`; the unit value for other changes.
pub open spec fn pair_key(d: Delta) -> Datum {
    match d.0 {
        Datum::Pair(k, _) => *k,
        _ => Datum::Unit,
    }
}

/// Where two changes are about the same key, the first takes the old
/// result away (count -1) and the second adds the new one (count 1).
pub open spec fn removals_first(s: Seq<Delta>) -> bool {
    forall|a: int, b: int| 0 <= a < b < s.len() && pair_key(#[trigger] s[a]) == pair_key(#[trigger] s[b]) ==> s[a].1 == -1
        && s[b].1 == 1
}

/// Appending nonzero changes of pairs with key `ch[t]`, distinct among
/// themselves, to consolidated changes of pairs whose keys come before `t`
/// in `ch` keeps them consolidated.
proof fn lemma_out_extend(before: Seq<Delta>, after: Seq<Delta>, ch: Seq<Datum>, t: int)
    requires
        0 <= t < ch.len(),
        !ch.take(t).contains(ch[t]),
        consolidated(before),
        forall|a: int| 0 <= a < before.len() ==> (#[trigger] before[a]).0 is Pair && ch.take(t).contains(pair_key(before[a])),
        before.len() <= after.len(),
        forall|a: int| 0 <= a < before.len() ==> #[trigger] after[a] == before[a],
        forall|a: int| before.len() <= a < after.len() ==> (#[trigger] after[a]).1 != 0 && after[a].0 is Pair && pair_key(after[a]) == ch[t],
        forall|a: int, b: int| before.len() <= a < b < after.len() ==> #[trigger] after[a].0 != #[trigger] after[b].0,
        removals_first(before),
        forall|a: int, b: int| before.len() <= a < b < after.len() ==> #[trigger] after[a].1 == -1 && #[trigger] after[b].1 == 1,
    ensures
        consolidated(after),
        removals_first(after),
        forall|a: int| 0 <= a < after.len() ==> (#[trigger] after[a]).0 is Pair && ch.take(t + 1).contains(pair_key(after[a])),
{
    assert forall|a: int, b: int| 0 <= a < b < after.len() implies #[trigger] after[a].0 != #[trigger] after[b].0 by {
        if b < before.len() {
            assert(after[a] == before[a] && after[b] == before[b]);
        } else if a < before.len() {
            assert(after[a] == before[a]);
            if after[a].0 == after[b].0 {
                assert(pair_key(after[a]) == pair_key(after[b]));
            }
        }
    }
    assert forall|a: int, b: int| 0 <= a < b < after.len() && pair_key(#[trigger] after[a]) == pair_key(#[trigger] after[b])
        implies after[a].1 == -1 && after[b].1 == 1 by {
        if b < before.len() {
            assert(after[a] == before[a] && after[b] == before[b]);
        } else if a < before.len() {
            assert(after[a] == before[a]);
        }
    }
    assert forall|a: int| 0 <= a < after.len() implies #[trigger] after[a].1 != 0 by {
        if a < before.len() {
            assert(after[a] == before[a]);
        }
    }
    assert forall|a: int| 0 <= a < after.len() implies (#[trigger] after[a]).0 is Pair && ch.take(t + 1).contains(
        pair_key(after[a]),
    ) by {
        lemma_take_push_contains(ch, t, pair_key(after[a]));
        if a < before.len() {
            assert(after[a] == before[a]);
        }
    }
}

/// The state of a reduce: the input seen so far and the result for each key.
pub struct Reduce {
    pub in_map: Counts,
    pub out_map: ValueMap,
    pub f: ReduceOp,
}

proof fn lemma_take_push_contains(ch: Seq<Datum>, t: int, j: Datum)
    requires
        0 <= t < ch.len(),
    ensures
        ch.take(t + 1).contains(j) == (ch.take(t).contains(j) || ch[t] == j),
{
    if ch.take(t + 1).contains(j) {
        let a = choose|a: int| 0 <= a < t + 1 && #[trigger] ch.take(t + 1)[a] == j;
        if a < t {
            assert(ch.take(t)[a] == j);
        }
    }
    if ch.take(t).contains(j) {
        let a = choose|a: int| 0 <= a < t && #[trigger] ch.take(t)[a] == j;
        assert(ch.take(t + 1)[a] == j);
    }
    if ch[t] == j {
        assert(ch.take(t + 1)[t] == j);
    }
}

fn contains_datum(v: &Vec<Datum>, k: &Datum) -> (r: bool)
    ensures
        r == v@.contains(*k),
{
    let mut i: usize = 0;
    while i < v.len()
        invariant
            i <= v@.len(),
            forall|j: int| 0 <= j < i ==> v@[j] != *k,
        decreases v@.len() - i,
    {
        if v[i].equals(k) {
            return true;
        }
        i = i + 1;
    }
    false
}

impl Reduce {
    /// The result of every key is `f` of its group.
    pub open spec fn wf(&self) -> bool {
        &&& self.in_map.wf()
        &&& self.out_map.inv()
        &&& forall|k: Datum| #![trigger self.out_map.lookup_spec(k)]
            agrees(self.f, self.in_map, k, self.out_map.lookup_spec(k))
    }

    /// A reduce by `f` that has seen nothing yet.
    pub fn new(f: ReduceOp) -> (r: Reduce)
        ensures
            r.wf(),
            r.f == f,
            forall|d: Datum| #[trigger] r.in_map.count(d) == 0,
            forall|d: Datum| #[trigger] r.out_map.lookup_spec(d) is None,
    {
        let r = Reduce { in_map: Counts::new(), out_map: ValueMap::new(), f };
        assert forall|k: Datum| #![trigger r.out_map.lookup_spec(k)]
            agrees(r.f, r.in_map, k, r.out_map.lookup_spec(k)) by {
            assert(!has_group(r.in_map, k));
        }
        r
    }

    /// Takes the changes to the input `((k, v), count)` and returns the
    /// changes to the output: for each key whose result changed, the old
    /// result `((k, old), -1)` and the new one `((k, new), 1)`.
    ///
    /// Fails exactly when a running count of the input leaves the range of
    /// `isize`.
    pub fn step(&mut self, input: &Vec<Delta>) -> (r: Result<Vec<Delta>, CountOverflow>)
        requires
            old(self).wf(),
        ensures
            r is Ok <==> forall|i: int| 0 <= i < input@.len() ==> #[trigger] counts_fit_at(old(self).in_map, input@, i),
            r is Ok ==> final(self).wf(),
            final(self).f == old(self).f,
            r is Ok ==> forall|p: Datum| #![trigger final(self).in_map.count(p)]
                final(self).in_map.count(p) == old(self).in_map.count(p) + count_in(input@, p),
            r matches Ok(out) ==> forall|d: Datum| #![trigger count_in(out@, d)]
                count_in(out@, d) == reduce_value(final(self).out_map, d)
                    - reduce_value(old(self).out_map, d),
            r matches Ok(out) ==> consolidated(out@),
            r matches Ok(out) ==> removals_first(out@),
    {
        let ghost in0 = self.in_map;
        let ghost out0 = self.out_map;
        let ghost s = input@;
        let mut changed: Vec<Datum> = Vec::new();
        let mut i: usize = 0;
        while i < input.len()
            invariant
                i <= s.len(),
                s == input@,
                self.in_map.wf(),
                self.out_map == out0,
                self.f == old(self).f,
                forall|p: Datum| #![trigger self.in_map.count(p)]
                    self.in_map.count(p) == in0.count(p) + count_in(s.take(i as int), p),
                forall|a: int, b: int| 0 <= a < b < changed@.len() ==> #[trigger] changed@[a] != #[trigger] changed@[b],
                forall|k: Datum, v: Datum| !changed@.contains(k) ==> #[trigger] count_in(s.take(i as int), mk_pair(k, v)) == 0,
                in0 == old(self).in_map,
                forall|ii: int| 0 <= ii < i ==> #[trigger] counts_fit_at(in0, s, ii),
            decreases s.len() - i,
        {
            assert(s.take(i as int + 1) =~= s.take(i as int).push(s[i as int]));
            let e = &input[i];
            let ghost mid = self.in_map;
            let ra = self.in_map.add(e.0.duplicate(), e.1);
            proof {
                lemma_count_push(s.take(i as int), s[i as int], s[i as int].0);
                assert(mid.count(s[i as int].0) == in0.count(s[i as int].0) + count_in(s.take(i as int), s[i as int].0));
                assert(ra is Ok <==> counts_fit_at(in0, s, i as int));
            }
            if ra.is_err() {
                return Err(CountOverflow);
            }
            let ghost ch0 = changed@;
            match &e.0 {
                Datum::Pair(k, _) => {
                    if !contains_datum(&changed, k) {
                        changed.push(k.duplicate());
                        proof {
                            assert forall|a: int, b: int| 0 <= a < b < changed@.len() implies #[trigger] changed@[a]
                                != #[trigger] changed@[b] by {
                                if b == ch0.len() {
                                    assert(changed@[a] == ch0[a]);
                                    assert(ch0.contains(ch0[a]));
                                } else {
                                    assert(changed@[a] == ch0[a] && changed@[b] == ch0[b]);
                                }
                            }
                        }
                    }
                },
                _ => {},
            }
            proof {
                assert forall|p: Datum| #![trigger self.in_map.count(p)]
                    self.in_map.count(p) == in0.count(p) + count_in(s.take(i as int + 1), p) by {
                    lemma_count_push(s.take(i as int), s[i as int], p);
                    assert(mid.count(p) == in0.count(p) + count_in(s.take(i as int), p));
                }
                assert forall|k: Datum, v: Datum| !changed@.contains(k) implies #[trigger] count_in(
                    s.take(i as int + 1),
                    mk_pair(k, v),
                ) == 0 by {
                    lemma_count_push(s.take(i as int), s[i as int], mk_pair(k, v));
                    assert forall|j: int| 0 <= j < ch0.len() implies changed@[j] == ch0[j] by {}
                    if ch0.contains(k) {
                        let j = choose|j: int| 0 <= j < ch0.len() && ch0[j] == k;
                        assert(changed@[j] == k);
                    }
                    match s[i as int].0 {
                        Datum::Pair(k2, _) => {
                            if *k2 == k {
                                if !ch0.contains(k) {
                                    assert(changed@[ch0.len() as int] == k);
                                }
                            }
                        },
                        _ => {},
                    }
                }
            }
            i = i + 1;
        }
        assert(s.take(s.len() as int) =~= s);
        assert(forall|ii: int| 0 <= ii < s.len() ==> #[trigger] counts_fit_at(in0, s, ii));
        let ghost in1 = self.in_map;
        let ghost ch = changed@;
        let mut out: Vec<Delta> = Vec::new();
        let mut t: usize = 0;
        while t < changed.len()
            invariant
                t <= ch.len(),
                ch == changed@,
                forall|a: int, b: int| 0 <= a < b < ch.len() ==> #[trigger] ch[a] != #[trigger] ch[b],
                self.in_map == in1,
                in1.wf(),
                self.out_map.inv(),
                self.f == old(self).f,
                forall|j: Datum| #![trigger self.out_map.lookup_spec(j)]
                    if ch.take(t as int).contains(j) {
                        agrees(self.f, in1, j, self.out_map.lookup_spec(j))
                    } else {
                        self.out_map.lookup_spec(j) == out0.lookup_spec(j)
                    },
                forall|d: Datum| #![trigger count_in(out@, d)]
                    count_in(out@, d) == match d {
                        Datum::Pair(j, y) => if ch.take(t as int).contains(*j) {
                            holds_value(self.out_map, *j, *y) - holds_value(out0, *j, *y)
                        } else {
                            0
                        },
                        _ => 0,
                    },
                consolidated(out@),
                removals_first(out@),
                forall|a: int| 0 <= a < out@.len() ==> (#[trigger] out@[a]).0 is Pair && ch.take(t as int).contains(
                    pair_key(out@[a]),
                ),
            decreases ch.len() - t,
        {
            let k = &changed[t];
            assert(ch.take(t as int + 1) =~= ch.take(t as int).push(ch[t as int]));
            assert(!ch.take(t as int).contains(*k)) by {
                if ch.take(t as int).contains(*k) {
                    let a = choose|a: int| 0 <= a < t && #[trigger] ch.take(t as int)[a] == *k;
                    assert(ch[a] == ch[t as int]);
                }
            }
            let ghost om = self.out_map;
            let ghost before = out@;
            let group = self.in_map.group(k);
            proof {
                assert(group.as_map() =~= group_map(in1, *k));
            }
            if group.is_empty() {
                proof {
                    assert(!has_group(in1, *k)) by {
                        if has_group(in1, *k) {
                            let v = choose|v: Datum| in1.count(mk_pair(*k, v)) != 0;
                            assert(group.count(v) != 0);
                        }
                    }
                }
                match self.out_map.remove(k) {
                    Some(old_val) => {
                        let d = Datum::pair(k.duplicate(), old_val);
                        out.push((d, -1));
                        proof {
                            assert forall|x: Datum| #![trigger count_in(out@, x)]
                                count_in(out@, x) == count_in(before, x) + key_change(om, self.out_map, *k, x) by {
                                lemma_count_push(before, (d, -1isize), x);
                            }
                        }
                    },
                    None => {
                        proof {
                            assert forall|x: Datum| #![trigger count_in(out@, x)]
                                count_in(out@, x) == count_in(before, x) + key_change(om, self.out_map, *k, x) by {}
                        }
                    },
                }
            } else {
                proof {
                    let v = choose|v: Datum| group.count(v) != 0;
                    assert(in1.count(mk_pair(*k, v)) != 0);
                    assert(has_group(in1, *k));
                }
                let new_val = self.f.reduce(k, &group);
                assert(has_group(in1, *k));
                assert(group_map(in1, *k) == group.as_map());
                assert(reduces_to(self.f, *k, group_map(in1, *k), new_val));
                match self.out_map.insert_if_different(k.duplicate(), new_val.duplicate()) {
                    InsertResult::NoOldValue => {
                        let d = Datum::pair(k.duplicate(), new_val);
                        out.push((d, 1));
                        proof {
                            assert forall|x: Datum| #![trigger count_in(out@, x)]
                                count_in(out@, x) == count_in(before, x) + key_change(om, self.out_map, *k, x) by {
                                lemma_count_push(before, (d, 1isize), x);
                            }
                        }
                    },
                    InsertResult::OldValue(old_val) => {
                        let d1 = Datum::pair(k.duplicate(), old_val);
                        out.push((d1, -1));
                        let ghost mid = out@;
                        let d2 = Datum::pair(k.duplicate(), new_val);
                        out.push((d2, 1));
                        proof {
                            assert forall|x: Datum| #![trigger count_in(out@, x)]
                                count_in(out@, x) == count_in(before, x) + key_change(om, self.out_map, *k, x) by {
                                lemma_count_push(before, (d1, -1isize), x);
                                lemma_count_push(mid, (d2, 1isize), x);
                            }
                        }
                    },
                    InsertResult::Unchanged => {
                        proof {
                            assert forall|x: Datum| #![trigger count_in(out@, x)]
                                count_in(out@, x) == count_in(before, x) + key_change(om, self.out_map, *k, x) by {}
                        }
                    },
                }
            }
            proof {
                lemma_out_extend(before, out@, ch, t as int);
            }
            assert(agrees(self.f, in1, *k, self.out_map.lookup_spec(*k)));
            assert(forall|j: Datum| j != *k ==> #[trigger] self.out_map.lookup_spec(j) == om.lookup_spec(j));
            proof {
                assert forall|j: Datum| #![trigger self.out_map.lookup_spec(j)]
                    if ch.take(t as int + 1).contains(j) {
                        agrees(self.f, in1, j, self.out_map.lookup_spec(j))
                    } else {
                        self.out_map.lookup_spec(j) == out0.lookup_spec(j)
                    } by {
                    if j == *k {
                        assert(ch.take(t as int + 1)[t as int] == j);
                    } else {
                        lemma_take_push_contains(ch, t as int, j);
                    }
                }
                assert forall|d: Datum| #![trigger count_in(out@, d)]
                    count_in(out@, d) == match d {
                        Datum::Pair(j, y) => if ch.take(t as int + 1).contains(*j) {
                            holds_value(self.out_map, *j, *y) - holds_value(out0, *j, *y)
                        } else {
                            0
                        },
                        _ => 0,
                    } by {
                    match d {
                        Datum::Pair(j, y) => {
                            if *j == *k {
                                assert(ch.take(t as int + 1)[t as int] == *j);
                                assert(om.lookup_spec(*k) == out0.lookup_spec(*k));
                            } else {
                                lemma_take_push_contains(ch, t as int, *j);
                                assert(self.out_map.lookup_spec(*j) == om.lookup_spec(*j));
                            }
                        },
                        _ => {},
                    }
                }
            }
            t = t + 1;
        }
        assert(ch.take(ch.len() as int) =~= ch);
        proof {
            assert forall|j: Datum| !ch.contains(j) implies #[trigger] agrees(self.f, in1, j, out0.lookup_spec(j)) by {
                assert forall|v: Datum| #![trigger in1.count(mk_pair(j, v))] in1.count(mk_pair(j, v))
                    == in0.count(mk_pair(j, v)) by {
                    assert(count_in(s, mk_pair(j, v)) == 0);
                }
                assert(group_map(in1, j) =~= group_map(in0, j));
                assert(has_group(in1, j) == has_group(in0, j)) by {
                    if has_group(in1, j) {
                        let v = choose|v: Datum| in1.count(mk_pair(j, v)) != 0;
                        assert(in0.count(mk_pair(j, v)) != 0);
                    }
                    if has_group(in0, j) {
                        let v = choose|v: Datum| in0.count(mk_pair(j, v)) != 0;
                        assert(in1.count(mk_pair(j, v)) != 0);
                    }
                }
                assert(agrees(self.f, in0, j, out0.lookup_spec(j)));
            }
            assert forall|k: Datum| #![trigger self.out_map.lookup_spec(k)]
                agrees(self.f, self.in_map, k, self.out_map.lookup_spec(k)) by {
                if !ch.contains(k) {
                    assert(agrees(self.f, in1, k, out0.lookup_spec(k)));
                }
            }
            assert forall|d: Datum| #![trigger count_in(out@, d)]
                count_in(out@, d) == reduce_value(self.out_map, d) - reduce_value(out0, d) by {
                match d {
                    Datum::Pair(j, y) => {
                        if !ch.contains(*j) {
                            assert(agrees(self.f, in1, *j, out0.lookup_spec(*j)));
                        }
                    },
                    _ => {},
                }
            }
        }
        Ok(out)
    }
}

/// The change of the count of `d` when the result of `k` goes from `a` to `b`.
spec fn key_change(a: ValueMap, b: ValueMap, k: Datum, d: Datum) -> int {
    match d {
        Datum::Pair(j, y) => if *j == k {
            holds_value(b, k, *y) - holds_value(a, k, *y)
        } else {
            0
        },
        _ => 0,
    }
}

} // verus!

verus! {

/// A function given to `reduce`: one of those the relations use themselves,
/// or one of the caller's.
pub enum ReduceOp {
    /// The count under the unit value, as used by `counts`: the number of
    /// copies of an element.
    CountOf,
    /// The unit value, as used by `distinct`.
    Present,
    /// The least value of the group, as used by `group_min`.
    GroupMin,
    /// The greatest value of the group, as used by `group_max`.
    GroupMax,
    Custom(Box<dyn ReduceFn>),
}

/// `v` is the least element of the domain of `g`.
pub open spec fn is_least(g: Map<Datum, int>, v: Datum) -> bool {
    g.dom().contains(v) && forall|w: Datum| g.dom().contains(w) ==> datum_le(v, w)
}

/// `v` is the greatest element of the domain of `g`.
pub open spec fn is_greatest(g: Map<Datum, int>, v: Datum) -> bool {
    g.dom().contains(v) && forall|w: Datum| g.dom().contains(w) ==> datum_le(w, v)
}

pub open spec fn least_of(g: Map<Datum, int>) -> Datum {
    choose|v: Datum| is_least(g, v)
}

pub open spec fn greatest_of(g: Map<Datum, int>) -> Datum {
    choose|v: Datum| is_greatest(g, v)
}

/// The first entry whose element is least (or greatest, when `greatest` holds).
fn extreme(group: &Counts, greatest: bool) -> (r: Option<Datum>)
    requires
        group.wf(),
    ensures
        r is None <==> group.entries@.len() == 0,
        r matches Some(v) ==> (if greatest {
            is_greatest(group.as_map(), v)
        } else {
            is_least(group.as_map(), v)
        }),
{
    let ghost s = group.entries@;
    if group.entries.len() == 0 {
        return None;
    }
    let mut best: usize = 0;
    let mut i: usize = 1;
    proof {
        lemma_le_refl(s[0].0);
    }
    while i < group.entries.len()
        invariant
            s == group.entries@,
            1 <= i <= s.len(),
            best < i,
            forall|j: int| 0 <= j < i ==> (if greatest {
                datum_le(#[trigger] s[j].0, s[best as int].0)
            } else {
                datum_le(s[best as int].0, #[trigger] s[j].0)
            }),
        decreases s.len() - i,
    {
        let better = if greatest {
            !group.entries[i].0.le(&group.entries[best].0)
        } else {
            !group.entries[best].0.le(&group.entries[i].0)
        };
        proof {
            lemma_le_total(s[i as int].0, s[best as int].0);
        }
        if better {
            proof {
                assert forall|j: int| 0 <= j < i + 1 implies (if greatest {
                    datum_le(#[trigger] s[j].0, s[i as int].0)
                } else {
                    datum_le(s[i as int].0, #[trigger] s[j].0)
                }) by {
                    if j < i {
                        if greatest {
                            lemma_le_trans(s[j].0, s[best as int].0, s[i as int].0);
                        } else {
                            lemma_le_trans(s[i as int].0, s[best as int].0, s[j].0);
                        }
                    } else {
                        lemma_le_refl(s[j].0);
                    }
                }
            }
            best = i;
        }
        i = i + 1;
    }
    let v = group.entries[best].0.duplicate();
    proof {
        crate::count::lemma_count_unique(s, best as int);
        let g = group.as_map();
        assert forall|w: Datum| g.dom().contains(w) implies (if greatest {
            datum_le(w, v)
        } else {
            datum_le(v, w)
        }) by {
            if forall|j: int| 0 <= j < s.len() ==> #[trigger] s[j].0 != w {
                crate::count::lemma_count_absent(s, w);
            } else {
                let j = choose|j: int| 0 <= j < s.len() && #[trigger] s[j].0 == w;
            }
        }
    }
    Some(v)
}

proof fn lemma_least_unique(g: Map<Datum, int>, v: Datum)
    requires
        is_least(g, v),
    ensures
        least_of(g) == v,
{
    let u = least_of(g);
    assert(is_least(g, u));
    lemma_le_antisym(u, v);
}

proof fn lemma_greatest_unique(g: Map<Datum, int>, v: Datum)
    requires
        is_greatest(g, v),
    ensures
        greatest_of(g) == v,
{
    let u = greatest_of(g);
    assert(is_greatest(g, u));
    lemma_le_antisym(u, v);
}

/// `y` is what `f` gives for key `k` and a group with the counts `g`: for
/// the library's own functions, the count of the unit value, the unit
/// value, or the least or greatest value (the unit value for an empty
/// group, which a reduce never passes); for a caller's function, its value
/// on a collection that holds exactly `g`.
pub open spec fn reduces_to(f: ReduceOp, k: Datum, g: Map<Datum, int>, y: Datum) -> bool {
    match f {
        ReduceOp::CountOf => y == Datum::Int(
            if g.dom().contains(Datum::Unit) {
                g[Datum::Unit] as i64
            } else {
                0
            },
        ),
        ReduceOp::Present => y == Datum::Unit,
        ReduceOp::GroupMin => y == if g.dom() =~= Set::empty() {
            Datum::Unit
        } else {
            least_of(g)
        },
        ReduceOp::GroupMax => y == if g.dom() =~= Set::empty() {
            Datum::Unit
        } else {
            greatest_of(g)
        },
        ReduceOp::Custom(c) => exists|gc: Counts| #[trigger] c.spec_reduce(k, gc) == y && gc.wf() && gc.as_map() == g,
    }
}

impl ReduceOp {
    pub fn reduce(&self, k: &Datum, group: &Counts) -> (r: Datum)
        requires
            group.wf(),
            exists|v: Datum| group.count(v) != 0,
        ensures
            reduces_to(*self, *k, group.as_map(), r),
    {
        match self {
            ReduceOp::CountOf => {
                let c = group.get(&Datum::Unit);
                Datum::Int(c as i64)
            },
            ReduceOp::Present => Datum::Unit,
            ReduceOp::GroupMin | ReduceOp::GroupMax => {
                let greatest = match self {
                    ReduceOp::GroupMax => true,
                    _ => false,
                };
                match extreme(group, greatest) {
                    Some(v) => {
                        proof {
                            if greatest {
                                lemma_greatest_unique(group.as_map(), v);
                            } else {
                                lemma_least_unique(group.as_map(), v);
                            }
                            assert(group.as_map().dom().contains(v));
                        }
                        v
                    },
                    None => {
                        proof {
                            assert forall|d: Datum| !group.as_map().dom().contains(d) by {
                                crate::count::lemma_count_absent(group.entries@, d);
                            }
                            assert(group.as_map().dom() =~= Set::empty());
                        }
                        Datum::Unit
                    },
                }
            },
            ReduceOp::Custom(f) => {
                let r = f.reduce(k, group);
                proof {
                    assert(f.spec_reduce(*k, *group) == r && group.wf() && group.as_map() == group.as_map());
                }
                r
            },
        }
    }
}

} // verus!
