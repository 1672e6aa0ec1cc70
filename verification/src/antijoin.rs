use vstd::prelude::*;
use crate::datum::{Datum, Delta, mk_pair};
use crate::count::{count_in, lemma_count_push};
use crate::counts::{Counts, CountOverflow, lemma_count_entry, counts_fit_at};
use crate::count::{fits_at, lemma_count_unique};

verus! {

/// The count of `d` in the antijoin of `l` by `r`: the pairs `(k, x)` of `l`
/// whose key `k` has count zero in `r`.
pub open spec fn antijoin_value(l: Counts, r: Counts, d: Datum) -> int {
    match d {
        Datum::Pair(k, x) => if r.count(*k) == 0 {
            l.count(d)
        } else {
            0
        },
        _ => 0,
    }
}

spec fn zero_ind(c: int) -> int {
    if c == 0 {
        1
    } else {
        0
    }
}

/// Step `j` of an antijoin over right changes `s`, with right counts `r`
/// before the step and left counts `l` after the left changes `ls`, keeps
/// its counts in the range of `isize`: when the key's count leaves zero,
/// the negated counts of its left pairs, and the running count of the key.
pub open spec fn antijoin_right_fits(l: Counts, ls: Seq<Delta>, r: Counts, s: Seq<Delta>, j: int) -> bool {
    &&& (s[j].1 != 0 && r.count(s[j].0) + count_in(s.take(j), s[j].0) == 0 ==> forall|x: Datum|
        #[trigger] l.count(mk_pair(s[j].0, x)) + count_in(ls, mk_pair(s[j].0, x)) != isize::MIN)
    &&& fits_at(|p: Datum| r.count(p), s, j)
}

/// A step of the antijoin `a` on changes `ls` to the left and `rs` to the
/// right keeps every count in the range of `isize`.
pub open spec fn antijoin_fits(a: AntiJoin, ls: Seq<Delta>, rs: Seq<Delta>) -> bool {
    &&& forall|i: int| 0 <= i < ls.len() ==> #[trigger] counts_fit_at(a.left_map, ls, i)
    &&& forall|j: int| 0 <= j < rs.len() ==> #[trigger] antijoin_right_fits(a.left_map, ls, a.right_map, rs, j)
}

/// `d` is a change of a pair whose key is `k`.
pub open spec fn keyed_by(d: Delta, k: Datum) -> bool {
    d.0 matches Datum::Pair(a, _) && *a == k
}

/// The changes of `s` whose pair has key `k`, in order, with their counts
/// negated when `negate` holds.
pub open spec fn key_entries(s: Seq<Delta>, k: Datum, negate: bool) -> Seq<Delta>
    decreases s.len(),
{
    if s.len() == 0 {
        Seq::empty()
    } else {
        key_entries(s.drop_last(), k, negate) + if keyed_by(s.last(), k) {
            seq![(s.last().0, if negate { (-s.last().1) as isize } else { s.last().1 })]
        } else {
            Seq::empty()
        }
    }
}

/// The changes of `ls` whose pair's key has count zero in `r`, in order.
pub open spec fn left_kept(ls: Seq<Delta>, r: Counts) -> Seq<Delta>
    decreases ls.len(),
{
    if ls.len() == 0 {
        Seq::empty()
    } else {
        left_kept(ls.drop_last(), r) + match ls.last().0 {
            Datum::Pair(k, _) => if r.count(*k) == 0 {
                seq![ls.last()]
            } else {
                Seq::empty()
            },
            _ => Seq::empty(),
        }
    }
}

/// What right change `j` of `rs` emits, with right counts `r` before the
/// changes and left entries `l`: nothing for a count of zero; the left
/// pairs of its key when it brings the key's count to zero, and the same
/// negated when it takes the key's count away from zero.
pub open spec fn right_emitted(l: Seq<Delta>, r: Counts, rs: Seq<Delta>, j: int) -> Seq<Delta> {
    let e = rs[j];
    let before = r.count(e.0) + count_in(rs.take(j), e.0);
    if e.1 == 0 {
        Seq::empty()
    } else if before == -e.1 {
        key_entries(l, e.0, false)
    } else if before == 0 {
        key_entries(l, e.0, true)
    } else {
        Seq::empty()
    }
}

/// What the first `n` right changes of `rs` emit, in order.
pub open spec fn right_emissions(l: Seq<Delta>, r: Counts, rs: Seq<Delta>, n: int) -> Seq<Delta>
    decreases n,
{
    if n <= 0 {
        Seq::empty()
    } else {
        right_emissions(l, r, rs, n - 1) + right_emitted(l, r, rs, n - 1)
    }
}

/// The state of an antijoin: everything seen so far on each side.
pub struct AntiJoin {
    pub left_map: Counts,
    pub right_map: Counts,
}

/// Pushes every entry `((k, x), count)` of `left` whose key is `k`, with its
/// count negated when `negate` holds.
///
/// Fails exactly when a count to negate is `isize::MIN`.
fn emit_key(out: &mut Vec<Delta>, k: &Datum, negate: bool, left: &Counts) -> (r: Result<(), CountOverflow>)
    requires
        left.wf(),
    ensures
        r is Ok <==> (negate ==> forall|x: Datum| #[trigger] left.count(mk_pair(*k, x)) != isize::MIN),
        r is Ok ==> final(out)@ == old(out)@ + key_entries(left.entries@, *k, negate),
        r is Ok ==> forall|d: Datum| #![trigger count_in(final(out)@, d)]
            count_in(final(out)@, d) == count_in(old(out)@, d) + match d {
                Datum::Pair(a, _) => if *a == *k {
                    if negate {
                        -left.count(d)
                    } else {
                        left.count(d)
                    }
                } else {
                    0
                },
                _ => 0,
            },
{
    let ghost out0 = out@;
    let ghost s = left.entries@;
    let mut j: usize = 0;
    while j < left.entries.len()
        invariant
            j <= s.len(),
            s == left.entries@,
            forall|d: Datum| #![trigger count_in(out@, d)]
                count_in(out@, d) == count_in(out0, d) + match d {
                    Datum::Pair(a, _) => if *a == *k {
                        if negate {
                            -count_in(s.take(j as int), d)
                        } else {
                            count_in(s.take(j as int), d)
                        }
                    } else {
                        0
                    },
                    _ => 0,
                },
            left.wf(),
            negate ==> forall|jj: int| 0 <= jj < j ==> (#[trigger] s[jj]).0 matches Datum::Pair(a, _x) && *a == *k ==> s[jj].1 != isize::MIN,
            out@ == out0 + key_entries(s.take(j as int), *k, negate),
        decreases s.len() - j,
    {
        let ghost before = out@;
        assert(s.take(j as int + 1) =~= s.take(j as int).push(s[j as int]));
        let e = &left.entries[j];
        let mut matched = false;
        match &e.0 {
            Datum::Pair(k2, _) => {
                matched = k2.equals(k);
            },
            _ => {},
        }
        if matched {
            let c = if negate {
                if e.1 == isize::MIN {
                    proof {
                        lemma_count_unique(s, j as int);
                        let x = match s[j as int].0 {
                            Datum::Pair(_a, x) => *x,
                            _ => arbitrary(),
                        };
                        assert(s[j as int].0 == mk_pair(*k, x));
                        assert(left.count(mk_pair(*k, x)) == isize::MIN);
                    }
                    return Err(CountOverflow);
                }
                -e.1
            } else {
                e.1
            };
            let t = e.0.duplicate();
            out.push((t, c));
            proof {
                assert(s.take(j as int + 1).drop_last() =~= s.take(j as int));
                assert(keyed_by(s[j as int], *k));
                assert(out@ =~= out0 + key_entries(s.take(j as int + 1), *k, negate));
            }
            proof {
                assert forall|d: Datum| #![trigger count_in(out@, d)]
                    count_in(out@, d) == count_in(out0, d) + match d {
                        Datum::Pair(a, _) => if *a == *k {
                            if negate {
                                -count_in(s.take(j as int + 1), d)
                            } else {
                                count_in(s.take(j as int + 1), d)
                            }
                        } else {
                            0
                        },
                        _ => 0,
                    } by {
                    lemma_count_push(before, (t, c), d);
                    lemma_count_push(s.take(j as int), s[j as int], d);
                }
            }
        } else {
            proof {
                assert(s.take(j as int + 1).drop_last() =~= s.take(j as int));
                assert(!keyed_by(s[j as int], *k));
                assert(out@ =~= out0 + key_entries(s.take(j as int + 1), *k, negate));
            }
            proof {
                assert forall|d: Datum| #![trigger count_in(out@, d)]
                    count_in(out@, d) == count_in(out0, d) + match d {
                        Datum::Pair(a, _) => if *a == *k {
                            if negate {
                                -count_in(s.take(j as int + 1), d)
                            } else {
                                count_in(s.take(j as int + 1), d)
                            }
                        } else {
                            0
                        },
                        _ => 0,
                    } by {
                    lemma_count_push(s.take(j as int), s[j as int], d);
                }
            }
        }
        j = j + 1;
    }
    assert(s.take(s.len() as int) =~= s);
    proof {
        if negate {
            assert forall|x: Datum| #[trigger] left.count(mk_pair(*k, x)) != isize::MIN by {
                lemma_count_entry(*left, mk_pair(*k, x));
                if left.count(mk_pair(*k, x)) != 0 {
                    let jj = choose|jj: int| 0 <= jj < s.len() && #[trigger] s[jj].0 == mk_pair(*k, x) && s[jj].1 == left.count(mk_pair(*k, x));
                    assert(s[jj].0 matches Datum::Pair(a, _x) && *a == *k);
                }
            }
        }
    }
    Ok(())
}

proof fn lemma_antijoin_total(a: int, da: int, z0: int, z1: int, o1: int, o: int)
    requires
        o1 == z0 * da,
        o == o1 + (z1 - z0) * (a + da),
        z0 == 0 || z0 == 1,
        z1 == 0 || z1 == 1,
    ensures
        o == z1 * (a + da) - z0 * a,
{
    assert(o == z1 * (a + da) - z0 * a) by (nonlinear_arith)
        requires
            o1 == z0 * da,
            o == o1 + (z1 - z0) * (a + da),
    ;
}

impl AntiJoin {
    pub open spec fn wf(&self) -> bool {
        self.left_map.wf() && self.right_map.wf()
    }

    /// An antijoin that has seen nothing yet.
    pub fn new() -> (r: AntiJoin)
        ensures
            r.wf(),
            forall|d: Datum| r.left_map.count(d) == 0 && r.right_map.count(d) == 0,
    {
        AntiJoin { left_map: Counts::new(), right_map: Counts::new() }
    }

    /// Takes the changes to the left input `((k, x), count)` and to the right
    /// input `(k, count)` and returns the changes to the pairs of the left
    /// input whose key has count zero in the right input: first the left
    /// changes whose key had count zero, in order; then, for each right
    /// change that brings its key's count to zero or takes it away from
    /// zero, the left pairs of that key (negated in the second case). A
    /// right change with count zero emits nothing.
    ///
    /// Fails exactly when a count leaves the range of `isize`
    /// (`antijoin_fits`).
    pub fn step(&mut self, left_in: &Vec<Delta>, right_in: &Vec<Delta>) -> (r: Result<Vec<Delta>, CountOverflow>)
        requires
            old(self).wf(),
        ensures
            final(self).wf(),
            r is Ok <==> antijoin_fits(*old(self), left_in@, right_in@),
            r is Ok ==> forall|p: Datum| #![trigger final(self).left_map.count(p)]
                final(self).left_map.count(p) == old(self).left_map.count(p) + count_in(left_in@, p),
            r is Ok ==> forall|p: Datum| #![trigger final(self).right_map.count(p)]
                final(self).right_map.count(p) == old(self).right_map.count(p) + count_in(right_in@, p),
            r matches Ok(out) ==> forall|d: Datum| #![trigger count_in(out@, d)]
                count_in(out@, d) == antijoin_value(final(self).left_map, final(self).right_map, d)
                    - antijoin_value(old(self).left_map, old(self).right_map, d),
            r matches Ok(out) ==> out@ == left_kept(left_in@, old(self).right_map) + right_emissions(
                final(self).left_map.entries@,
                old(self).right_map,
                right_in@,
                right_in@.len() as int,
            ),
    {
        let ghost a0 = *self;
        let ghost l0 = self.left_map;
        let ghost r0 = self.right_map;
        let ghost ls = left_in@;
        let ghost rs = right_in@;
        let mut out: Vec<Delta> = Vec::new();
        let mut i: usize = 0;
        while i < left_in.len()
            invariant
                i <= ls.len(),
                ls == left_in@,
                self.wf(),
                self.right_map == r0,
                forall|p: Datum| #![trigger self.left_map.count(p)]
                    self.left_map.count(p) == l0.count(p) + count_in(ls.take(i as int), p),
                forall|d: Datum| #![trigger count_in(out@, d)]
                    count_in(out@, d) == match d {
                        Datum::Pair(k, _) => if r0.count(*k) == 0 {
                            count_in(ls.take(i as int), d)
                        } else {
                            0
                        },
                        _ => 0,
                    },
                a0 == *old(self),
                a0.left_map == l0,
                a0.right_map == r0,
                forall|ii: int| 0 <= ii < i ==> #[trigger] counts_fit_at(l0, ls, ii),
                out@ == left_kept(ls.take(i as int), r0),
            decreases ls.len() - i,
        {
            assert(ls.take(i as int + 1) =~= ls.take(i as int).push(ls[i as int]));
            let e = &left_in[i];
            let ghost before = out@;
            let mut emit = false;
            match &e.0 {
                Datum::Pair(k, _) => {
                    emit = !self.right_map.contains_key(k);
                },
                _ => {},
            }
            if emit {
                let t = e.0.duplicate();
                out.push((t, e.1));
                proof {
                    lemma_count_push(before, (t, e.1), e.0);
                }
            }
            proof {
                assert(ls.take(i as int + 1).drop_last() =~= ls.take(i as int));
                assert(ls.take(i as int + 1).last() == ls[i as int]);
                assert(out@ =~= left_kept(ls.take(i as int + 1), r0));
            }
            proof {
                assert forall|d: Datum| #![trigger count_in(out@, d)]
                    count_in(out@, d) == match d {
                        Datum::Pair(k, _) => if r0.count(*k) == 0 {
                            count_in(ls.take(i as int + 1), d)
                        } else {
                            0
                        },
                        _ => 0,
                    } by {
                    lemma_count_push(ls.take(i as int), ls[i as int], d);
                    if emit {
                        lemma_count_push(before, (e.0, e.1), d);
                    }
                }
            }
            let ghost mid = self.left_map;
            let ra = self.left_map.add(e.0.duplicate(), e.1);
            proof {
                lemma_count_push(ls.take(i as int), ls[i as int], ls[i as int].0);
                assert(mid.count(ls[i as int].0) == l0.count(ls[i as int].0) + count_in(ls.take(i as int), ls[i as int].0));
                assert(ra is Ok <==> fits_at(|p: Datum| l0.count(p), ls, i as int));
            }
            if ra.is_err() {
                proof {
                    assert(!counts_fit_at(l0, ls, i as int));
                }
                return Err(CountOverflow);
            }
            proof {
                assert(counts_fit_at(l0, ls, i as int));
                assert forall|p: Datum| #![trigger self.left_map.count(p)]
                    self.left_map.count(p) == l0.count(p) + count_in(ls.take(i as int + 1), p) by {
                    lemma_count_push(ls.take(i as int), ls[i as int], p);
                    assert(mid.count(p) == l0.count(p) + count_in(ls.take(i as int), p));
                }
            }
            i = i + 1;
        }
        assert(ls.take(ls.len() as int) =~= ls);
        let ghost l1 = self.left_map;
        let ghost out1 = out@;
        let mut j: usize = 0;
        while j < right_in.len()
            invariant
                j <= rs.len(),
                rs == right_in@,
                self.wf(),
                self.left_map == l1,
                forall|p: Datum| #![trigger self.right_map.count(p)]
                    self.right_map.count(p) == r0.count(p) + count_in(rs.take(j as int), p),
                forall|d: Datum| #![trigger count_in(out@, d)]
                    count_in(out@, d) == count_in(out1, d) + match d {
                        Datum::Pair(k, _) => (zero_ind(self.right_map.count(*k)) - zero_ind(r0.count(*k)))
                            * l1.count(d),
                        _ => 0,
                    },
                ls == left_in@,
                a0 == *old(self),
                a0.left_map == l0,
                a0.right_map == r0,
                forall|p: Datum| #![trigger l1.count(p)] l1.count(p) == l0.count(p) + count_in(ls, p),
                forall|ii: int| 0 <= ii < ls.len() ==> #[trigger] counts_fit_at(l0, ls, ii),
                forall|ii: int| 0 <= ii < j ==> #[trigger] antijoin_right_fits(l0, ls, r0, rs, ii),
                out@ == out1 + right_emissions(l1.entries@, r0, rs, j as int),
                out1 == left_kept(ls, r0),
            decreases rs.len() - j,
        {
            assert(rs.take(j as int + 1) =~= rs.take(j as int).push(rs[j as int]));
            let e = &right_in[j];
            let ghost rmid = self.right_map;
            let ghost before = out@;
            proof {
                assert(rmid.count(rs[j as int].0) == r0.count(rs[j as int].0) + count_in(rs.take(j as int), rs[j as int].0));
            }
            if e.1 != 0 {
                let old_count = self.right_map.get(&e.0);
                if old_count as i128 == -(e.1 as i128) {
                    let re = emit_key(&mut out, &e.0, false, &self.left_map);
                    if re.is_err() {
                        return Err(CountOverflow);
                    }
                } else if old_count == 0 {
                    let re = emit_key(&mut out, &e.0, true, &self.left_map);
                    if re.is_err() {
                        proof {
                            let x = choose|x: Datum| #[trigger] l1.count(mk_pair(e.0, x)) == isize::MIN;
                            assert(l1.count(mk_pair(e.0, x)) == l0.count(mk_pair(e.0, x)) + count_in(ls, mk_pair(e.0, x)));
                            assert(!antijoin_right_fits(l0, ls, r0, rs, j as int));
                        }
                        return Err(CountOverflow);
                    }
                    proof {
                        assert forall|x: Datum| #[trigger] l0.count(mk_pair(rs[j as int].0, x)) + count_in(ls, mk_pair(rs[j as int].0, x))
                            != isize::MIN by {
                            assert(l1.count(mk_pair(e.0, x)) == l0.count(mk_pair(e.0, x)) + count_in(ls, mk_pair(e.0, x)));
                        }
                    }
                }
            }
            let ra = self.right_map.add(e.0.duplicate(), e.1);
            proof {
                lemma_count_push(rs.take(j as int), rs[j as int], rs[j as int].0);
                assert(ra is Ok <==> fits_at(|p: Datum| r0.count(p), rs, j as int));
            }
            if ra.is_err() {
                proof {
                    assert(!antijoin_right_fits(l0, ls, r0, rs, j as int));
                }
                return Err(CountOverflow);
            }
            proof {
                assert(antijoin_right_fits(l0, ls, r0, rs, j as int));
            }
            proof {
                assert(right_emissions(l1.entries@, r0, rs, j as int + 1) == right_emissions(l1.entries@, r0, rs, j as int)
                    + right_emitted(l1.entries@, r0, rs, j as int));
                assert(out@ =~= out1 + right_emissions(l1.entries@, r0, rs, j as int + 1));
            }
            proof {
                assert forall|p: Datum| #![trigger self.right_map.count(p)]
                    self.right_map.count(p) == r0.count(p) + count_in(rs.take(j as int + 1), p) by {
                    lemma_count_push(rs.take(j as int), rs[j as int], p);
                    assert(rmid.count(p) == r0.count(p) + count_in(rs.take(j as int), p));
                }
                assert forall|d: Datum| #![trigger count_in(out@, d)]
                    count_in(out@, d) == count_in(out1, d) + match d {
                        Datum::Pair(k, _) => (zero_ind(self.right_map.count(*k)) - zero_ind(r0.count(*k)))
                            * l1.count(d),
                        _ => 0,
                    } by {
                    match d {
                        Datum::Pair(k, _) => {
                            assert(count_in(before, d) == count_in(out1, d) + (zero_ind(rmid.count(*k))
                                - zero_ind(r0.count(*k))) * l1.count(d));
                            if *k == e.0 {
                                vstd::arithmetic::mul::lemma_mul_is_distributive_sub_other_way(
                                    l1.count(d),
                                    zero_ind(self.right_map.count(*k)),
                                    zero_ind(r0.count(*k)),
                                );
                                vstd::arithmetic::mul::lemma_mul_is_distributive_sub_other_way(
                                    l1.count(d),
                                    zero_ind(rmid.count(*k)),
                                    zero_ind(r0.count(*k)),
                                );
                            }
                        },
                        _ => {},
                    }
                }
            }
            j = j + 1;
        }
        assert(rs.take(rs.len() as int) =~= rs);
        assert(antijoin_fits(a0, ls, rs));
        proof {
            assert forall|d: Datum| #![trigger count_in(out@, d)]
                count_in(out@, d) == antijoin_value(self.left_map, self.right_map, d)
                    - antijoin_value(l0, r0, d) by {
                match d {
                    Datum::Pair(k, x) => {
                        assert(l1.count(d) == l0.count(d) + count_in(ls, d));
                        assert(count_in(out@, d) == count_in(out1, d) + (zero_ind(self.right_map.count(*k))
                            - zero_ind(r0.count(*k))) * l1.count(d));
                        let z0 = zero_ind(r0.count(*k));
                        let z1 = zero_ind(self.right_map.count(*k));
                        assert(count_in(out1, d) == z0 * count_in(ls, d));
                        assert(antijoin_value(self.left_map, self.right_map, d) == z1 * l1.count(d));
                        assert(antijoin_value(l0, r0, d) == z0 * l0.count(d));
                        lemma_antijoin_total(l0.count(d), count_in(ls, d), z0, z1, count_in(out1, d),
                            count_in(out@, d));
                    },
                    _ => {},
                }
            }
        }
        Ok(out)
    }
}

} // verus!
