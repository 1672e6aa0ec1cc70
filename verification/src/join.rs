use vstd::prelude::*;
use crate::datum::{Datum, Delta, mk_pair, mk_triple};
use crate::count::{count_in, is_isize, lemma_count_push};
use crate::counts::{Counts, CountOverflow, lemma_count_entry};
use crate::count::{fits_at, lemma_count_unique};

verus! {

/// The count of `d` in the join of `l` and `r`: `((k, x, y), l[(k, x)] * r[(k, y)])`.
pub open spec fn join_product(l: Counts, r: Counts, d: Datum) -> int {
    match d {
        Datum::Triple(k, x, y) => l.count(mk_pair(*k, *x)) * r.count(mk_pair(*k, *y)),
        _ => 0,
    }
}

/// The count of `d` in the join of the changes `s` (on the left) with `r`.
spec fn left_part(s: Seq<Delta>, r: Counts, d: Datum) -> int {
    match d {
        Datum::Triple(k, x, y) => count_in(s, mk_pair(*k, *x)) * r.count(mk_pair(*k, *y)),
        _ => 0,
    }
}

/// The count of `d` in the join of `l` with the changes `s` (on the right).
spec fn right_part(l: Counts, s: Seq<Delta>, d: Datum) -> int {
    match d {
        Datum::Triple(k, x, y) => l.count(mk_pair(*k, *x)) * count_in(s, mk_pair(*k, *y)),
        _ => 0,
    }
}

/// Step `i` of a join over left changes `s`, with counts `l` on the left and
/// `r` on the right before the step, keeps its counts in the range of
/// `isize`: each product with a right pair of the same key, and the running
/// count of the left element.
pub open spec fn left_step_fits(l: Counts, r: Counts, s: Seq<Delta>, i: int) -> bool {
    &&& (s[i].0 matches Datum::Pair(k, _x) ==> forall|y: Datum| is_isize(s[i].1 * #[trigger] r.count(mk_pair(*k, y))))
    &&& fits_at(|p: Datum| l.count(p), s, i)
}

/// Step `j` of a join over right changes `s`, after the left counts `l`
/// have taken the changes `ls`, keeps its counts in the range of `isize`.
pub open spec fn right_step_fits(l: Counts, ls: Seq<Delta>, r: Counts, s: Seq<Delta>, j: int) -> bool {
    &&& (s[j].0 matches Datum::Pair(k, _y) ==> forall|x: Datum|
        is_isize((#[trigger] l.count(mk_pair(*k, x)) + count_in(ls, mk_pair(*k, x))) * s[j].1))
    &&& fits_at(|p: Datum| r.count(p), s, j)
}

/// A step of the join `j` on changes `ls` to the left and `rs` to the right
/// keeps every count in the range of `isize`.
pub open spec fn join_fits(j: Join, ls: Seq<Delta>, rs: Seq<Delta>) -> bool {
    &&& forall|i: int| 0 <= i < ls.len() ==> #[trigger] left_step_fits(j.left_map, j.right_map, ls, i)
    &&& forall|i: int| 0 <= i < rs.len() ==> #[trigger] right_step_fits(j.left_map, ls, j.right_map, rs, i)
}

/// The state of a join: everything seen so far on each side.
pub struct Join {
    pub left_map: Counts,
    pub right_map: Counts,
}

/// Pushes `((k, x, y), c * count)` for every `((k, y), count)` of `right`.
///
/// Fails exactly when one of those counts leaves the range of `isize`.
fn emit_left(out: &mut Vec<Delta>, k: &Datum, x: &Datum, c: isize, right: &Counts) -> (r: Result<(), CountOverflow>)
    requires
        right.wf(),
    ensures
        r is Ok <==> forall|y: Datum| is_isize(c * #[trigger] right.count(mk_pair(*k, y))),
        r is Ok ==> forall|d: Datum| #![trigger count_in(final(out)@, d)]
            count_in(final(out)@, d) == count_in(old(out)@, d) + match d {
                Datum::Triple(a, b, y) => if *a == *k && *b == *x {
                    c * right.count(mk_pair(*k, *y))
                } else {
                    0
                },
                _ => 0,
            },
{
    let ghost out0 = out@;
    let ghost s = right.entries@;
    let mut j: usize = 0;
    while j < right.entries.len()
        invariant
            j <= s.len(),
            s == right.entries@,
            forall|d: Datum| #![trigger count_in(out@, d)]
                count_in(out@, d) == count_in(out0, d) + match d {
                    Datum::Triple(a, b, y) => if *a == *k && *b == *x {
                        c * count_in(s.take(j as int), mk_pair(*k, *y))
                    } else {
                        0
                    },
                    _ => 0,
                },
            right.wf(),
            forall|jj: int| 0 <= jj < j ==> (#[trigger] s[jj]).0 matches Datum::Pair(a, _y) && *a == *k ==> is_isize(c * s[jj].1),
        decreases s.len() - j,
    {
        let ghost before = out@;
        assert(s.take(j as int + 1) =~= s.take(j as int).push(s[j as int]));
        let e = &right.entries[j];
        match &e.0 {
            Datum::Pair(k2, y) => {
                if k2.equals(k) {
                    match c.checked_mul(e.1) {
                        None => {
                            proof {
                                lemma_count_unique(s, j as int);
                                assert(s[j as int].0 == mk_pair(*k, **y));
                                assert(!is_isize(c * right.count(mk_pair(*k, **y))));
                            }
                            return Err(CountOverflow);
                        },
                        Some(p) => {
                            let t = Datum::triple(k.duplicate(), x.duplicate(), y.duplicate());
                            out.push((t, p));
                            proof {
                                assert forall|d: Datum| #![trigger count_in(out@, d)]
                                    count_in(out@, d) == count_in(out0, d) + match d {
                                        Datum::Triple(a, b, yy) => if *a == *k && *b == *x {
                                            c * count_in(s.take(j as int + 1), mk_pair(*k, *yy))
                                        } else {
                                            0
                                        },
                                        _ => 0,
                                    } by {
                                    lemma_count_push(before, (t, p), d);
                                    match d {
                                        Datum::Triple(a, b, yy) => {
                                            lemma_count_push(s.take(j as int), s[j as int], mk_pair(*k, *yy));
                                            vstd::arithmetic::mul::lemma_mul_is_distributive_add(
                                                c as int,
                                                count_in(s.take(j as int), mk_pair(*k, *yy)),
                                                e.1 as int,
                                            );
                                        },
                                        _ => {},
                                    }
                                }
                            }
                        },
                    }
                } else {
                    proof {
                        assert forall|d: Datum| #![trigger count_in(out@, d)]
                            count_in(out@, d) == count_in(out0, d) + match d {
                                Datum::Triple(a, b, yy) => if *a == *k && *b == *x {
                                    c * count_in(s.take(j as int + 1), mk_pair(*k, *yy))
                                } else {
                                    0
                                },
                                _ => 0,
                            } by {
                            match d {
                                Datum::Triple(a, b, yy) => {
                                    lemma_count_push(s.take(j as int), s[j as int], mk_pair(*k, *yy));
                                },
                                _ => {},
                            }
                        }
                    }
                }
            },
            _ => {
                proof {
                    assert forall|d: Datum| #![trigger count_in(out@, d)]
                        count_in(out@, d) == count_in(out0, d) + match d {
                            Datum::Triple(a, b, yy) => if *a == *k && *b == *x {
                                c * count_in(s.take(j as int + 1), mk_pair(*k, *yy))
                            } else {
                                0
                            },
                            _ => 0,
                        } by {
                        match d {
                            Datum::Triple(a, b, yy) => {
                                lemma_count_push(s.take(j as int), s[j as int], mk_pair(*k, *yy));
                            },
                            _ => {},
                        }
                    }
                }
            },
        }
        j = j + 1;
    }
    assert(s.take(s.len() as int) =~= s);
    proof {
        assert forall|y: Datum| is_isize(c * #[trigger] right.count(mk_pair(*k, y))) by {
            lemma_count_entry(*right, mk_pair(*k, y));
            if right.count(mk_pair(*k, y)) != 0 {
                let jj = choose|jj: int| 0 <= jj < s.len() && #[trigger] s[jj].0 == mk_pair(*k, y) && s[jj].1 == right.count(mk_pair(*k, y));
                assert(s[jj].0 matches Datum::Pair(a, _y) && *a == *k);
            }
        }
    }
    Ok(())
}

/// Pushes `((k, x, y), count * c)` for every `((k, x), count)` of `left`.
///
/// Fails exactly when one of those counts leaves the range of `isize`.
fn emit_right(out: &mut Vec<Delta>, k: &Datum, y: &Datum, c: isize, left: &Counts) -> (r: Result<(), CountOverflow>)
    requires
        left.wf(),
    ensures
        r is Ok <==> forall|x: Datum| is_isize(#[trigger] left.count(mk_pair(*k, x)) * c),
        r is Ok ==> forall|d: Datum| #![trigger count_in(final(out)@, d)]
            count_in(final(out)@, d) == count_in(old(out)@, d) + match d {
                Datum::Triple(a, b, w) => if *a == *k && *w == *y {
                    left.count(mk_pair(*k, *b)) * c
                } else {
                    0
                },
                _ => 0,
            },
{
    let ghost out0 = out@;
    let ghost s = left.entries@;
    let mut j: usize = 0;
    while j < left.entries.len()
        invariant
            j <= s.len(),
            s == left.entries@,
            forall|d: Datum| #![trigger count_in(out@, d)]
                count_in(out@, d) == count_in(out0, d) + match d {
                    Datum::Triple(a, b, w) => if *a == *k && *w == *y {
                        count_in(s.take(j as int), mk_pair(*k, *b)) * c
                    } else {
                        0
                    },
                    _ => 0,
                },
            left.wf(),
            forall|jj: int| 0 <= jj < j ==> (#[trigger] s[jj]).0 matches Datum::Pair(a, _x) && *a == *k ==> is_isize(s[jj].1 * c),
        decreases s.len() - j,
    {
        let ghost before = out@;
        assert(s.take(j as int + 1) =~= s.take(j as int).push(s[j as int]));
        let e = &left.entries[j];
        let mut pushed = false;
        match &e.0 {
            Datum::Pair(k2, x) => {
                if k2.equals(k) {
                    match e.1.checked_mul(c) {
                        None => {
                            proof {
                                lemma_count_unique(s, j as int);
                                assert(s[j as int].0 == mk_pair(*k, **x));
                                assert(!is_isize(left.count(mk_pair(*k, **x)) * c));
                            }
                            return Err(CountOverflow);
                        },
                        Some(p) => {
                            let t = Datum::triple(k.duplicate(), x.duplicate(), y.duplicate());
                            out.push((t, p));
                            pushed = true;
                            proof {
                                assert forall|d: Datum| #![trigger count_in(out@, d)]
                                    count_in(out@, d) == count_in(out0, d) + match d {
                                        Datum::Triple(a, b, w) => if *a == *k && *w == *y {
                                            count_in(s.take(j as int + 1), mk_pair(*k, *b)) * c
                                        } else {
                                            0
                                        },
                                        _ => 0,
                                    } by {
                                    lemma_count_push(before, (t, p), d);
                                    match d {
                                        Datum::Triple(a, b, w) => {
                                            lemma_count_push(s.take(j as int), s[j as int], mk_pair(*k, *b));
                                            vstd::arithmetic::mul::lemma_mul_is_distributive_add_other_way(
                                                c as int,
                                                count_in(s.take(j as int), mk_pair(*k, *b)),
                                                e.1 as int,
                                            );
                                        },
                                        _ => {},
                                    }
                                }
                            }
                        },
                    }
                }
            },
            _ => {},
        }
        if !pushed {
            proof {
                assert forall|d: Datum| #![trigger count_in(out@, d)]
                    count_in(out@, d) == count_in(out0, d) + match d {
                        Datum::Triple(a, b, w) => if *a == *k && *w == *y {
                            count_in(s.take(j as int + 1), mk_pair(*k, *b)) * c
                        } else {
                            0
                        },
                        _ => 0,
                    } by {
                    match d {
                        Datum::Triple(a, b, w) => {
                            lemma_count_push(s.take(j as int), s[j as int], mk_pair(*k, *b));
                        },
                        _ => {},
                    }
                }
            }
        }
        j = j + 1;
    }
    assert(s.take(s.len() as int) =~= s);
    proof {
        assert forall|x: Datum| is_isize(#[trigger] left.count(mk_pair(*k, x)) * c) by {
            lemma_count_entry(*left, mk_pair(*k, x));
            if left.count(mk_pair(*k, x)) != 0 {
                let jj = choose|jj: int| 0 <= jj < s.len() && #[trigger] s[jj].0 == mk_pair(*k, x) && s[jj].1 == left.count(mk_pair(*k, x));
                assert(s[jj].0 matches Datum::Pair(a, _x) && *a == *k);
            }
        }
    }
    Ok(())
}

proof fn lemma_product_step(a0: int, da: int, b0: int, db: int)
    ensures
        (a0 + da) * (b0 + db) - a0 * b0 == da * b0 + (a0 + da) * db,
{
    assert((a0 + da) * (b0 + db) - a0 * b0 == da * b0 + (a0 + da) * db) by (nonlinear_arith);
}

impl Join {
    pub open spec fn wf(&self) -> bool {
        self.left_map.wf() && self.right_map.wf()
    }

    /// A join that has seen nothing yet.
    pub fn new() -> (r: Join)
        ensures
            r.wf(),
            forall|d: Datum| r.left_map.count(d) == 0 && r.right_map.count(d) == 0,
    {
        Join { left_map: Counts::new(), right_map: Counts::new() }
    }

    /// Takes the changes to the left input `((k, x), count)` and to the right
    /// input `((k, y), count)` and returns the changes to the join
    /// `((k, x, y), count)`.
    ///
    /// On success the returned changes add up to the difference between the
    /// join of everything seen after this step and the join of everything seen
    /// before it.
    ///
    /// Fails exactly when a count leaves the range of `isize` (`join_fits`).
    pub fn step(&mut self, left_in: &Vec<Delta>, right_in: &Vec<Delta>) -> (r: Result<Vec<Delta>, CountOverflow>)
        requires
            old(self).wf(),
        ensures
            final(self).wf(),
            r is Ok <==> join_fits(*old(self), left_in@, right_in@),
            r is Ok ==> forall|p: Datum| #![trigger final(self).left_map.count(p)]
                final(self).left_map.count(p) == old(self).left_map.count(p) + count_in(left_in@, p),
            r is Ok ==> forall|p: Datum| #![trigger final(self).right_map.count(p)]
                final(self).right_map.count(p) == old(self).right_map.count(p) + count_in(right_in@, p),
            r matches Ok(out) ==> forall|d: Datum| #![trigger count_in(out@, d)]
                count_in(out@, d) == join_product(final(self).left_map, final(self).right_map, d)
                    - join_product(old(self).left_map, old(self).right_map, d),
    {
        let ghost j0 = *self;
        let ghost l0 = self.left_map;
        let ghost r0 = self.right_map;
        let ghost ls = left_in@;
        let ghost rs = right_in@;
        let mut out: Vec<Delta> = Vec::new();
        let mut i: usize = 0;
        while i < left_in.len()
            invariant
                i <= ls.len(),
                ls == left_in@,
                self.wf(),
                self.right_map == r0,
                forall|p: Datum| #![trigger self.left_map.count(p)]
                    self.left_map.count(p) == l0.count(p) + count_in(ls.take(i as int), p),
                forall|d: Datum| #![trigger count_in(out@, d)]
                    count_in(out@, d) == left_part(ls.take(i as int), r0, d),
                j0 == *old(self),
                j0.left_map == l0,
                j0.right_map == r0,
                forall|ii: int| 0 <= ii < i ==> #[trigger] left_step_fits(l0, r0, ls, ii),
            decreases ls.len() - i,
        {
            assert(ls.take(i as int + 1) =~= ls.take(i as int).push(ls[i as int]));
            let e = &left_in[i];
            let ghost before = out@;
            match &e.0 {
                Datum::Pair(k, x) => {
                    let re = emit_left(&mut out, k, x, e.1, &self.right_map);
                    if re.is_err() {
                        proof {
                            assert(!left_step_fits(l0, r0, ls, i as int));
                        }
                        return Err(CountOverflow);
                    }
                },
                _ => {},
            }
            proof {
                assert forall|d: Datum| #![trigger count_in(out@, d)]
                    count_in(out@, d) == left_part(ls.take(i as int + 1), r0, d) by {
                    match d {
                        Datum::Triple(a, b, y) => {
                            lemma_count_push(ls.take(i as int), ls[i as int], mk_pair(*a, *b));
                            vstd::arithmetic::mul::lemma_mul_is_distributive_add_other_way(
                                r0.count(mk_pair(*a, *y)),
                                count_in(ls.take(i as int), mk_pair(*a, *b)),
                                e.1 as int,
                            );
                        },
                        _ => {},
                    }
                }
            }
            let ghost mid = self.left_map;
            let ra = self.left_map.add(e.0.duplicate(), e.1);
            proof {
                lemma_count_push(ls.take(i as int), ls[i as int], ls[i as int].0);
                assert(mid.count(ls[i as int].0) == l0.count(ls[i as int].0) + count_in(ls.take(i as int), ls[i as int].0));
                assert(ra is Ok <==> fits_at(|p: Datum| l0.count(p), ls, i as int));
            }
            if ra.is_err() {
                proof {
                    assert(!left_step_fits(l0, r0, ls, i as int));
                }
                return Err(CountOverflow);
            }
            proof {
                assert forall|p: Datum| #![trigger self.left_map.count(p)]
                    self.left_map.count(p) == l0.count(p) + count_in(ls.take(i as int + 1), p) by {
                    lemma_count_push(ls.take(i as int), ls[i as int], p);
                    assert(mid.count(p) == l0.count(p) + count_in(ls.take(i as int), p));
                }
                assert(left_step_fits(l0, r0, ls, i as int));
            }
            i = i + 1;
        }
        assert(ls.take(ls.len() as int) =~= ls);
        let ghost l1 = self.left_map;
        let ghost out1 = out@;
        let mut j: usize = 0;
        while j < right_in.len()
            invariant
                j <= rs.len(),
                rs == right_in@,
                ls == left_in@,
                self.wf(),
                self.left_map == l1,
                forall|p: Datum| #![trigger self.right_map.count(p)]
                    self.right_map.count(p) == r0.count(p) + count_in(rs.take(j as int), p),
                forall|d: Datum| #![trigger count_in(out@, d)]
                    count_in(out@, d) == count_in(out1, d) + right_part(l1, rs.take(j as int), d),
                j0 == *old(self),
                j0.left_map == l0,
                j0.right_map == r0,
                forall|p: Datum| #![trigger l1.count(p)] l1.count(p) == l0.count(p) + count_in(ls, p),
                forall|ii: int| 0 <= ii < ls.len() ==> #[trigger] left_step_fits(l0, r0, ls, ii),
                forall|ii: int| 0 <= ii < j ==> #[trigger] right_step_fits(l0, ls, r0, rs, ii),
            decreases rs.len() - j,
        {
            assert(rs.take(j as int + 1) =~= rs.take(j as int).push(rs[j as int]));
            let e = &right_in[j];
            match &e.0 {
                Datum::Pair(k, y) => {
                    let re = emit_right(&mut out, k, y, e.1, &self.left_map);
                    if re.is_err() {
                        proof {
                            let x = choose|x: Datum| !is_isize(#[trigger] l1.count(mk_pair(**k, x)) * e.1);
                            assert(l1.count(mk_pair(**k, x)) == l0.count(mk_pair(**k, x)) + count_in(ls, mk_pair(**k, x)));
                            assert(!right_step_fits(l0, ls, r0, rs, j as int));
                        }
                        return Err(CountOverflow);
                    }
                    proof {
                        assert forall|x: Datum| is_isize((#[trigger] l0.count(mk_pair(**k, x)) + count_in(ls, mk_pair(**k, x)))
                            * rs[j as int].1) by {
                            assert(l1.count(mk_pair(**k, x)) == l0.count(mk_pair(**k, x)) + count_in(ls, mk_pair(**k, x)));
                            assert(is_isize(l1.count(mk_pair(**k, x)) * e.1));
                        }
                    }
                },
                _ => {},
            }
            proof {
                assert forall|d: Datum| #![trigger count_in(out@, d)]
                    count_in(out@, d) == count_in(out1, d) + right_part(l1, rs.take(j as int + 1), d) by {
                    match d {
                        Datum::Triple(a, b, w) => {
                            lemma_count_push(rs.take(j as int), rs[j as int], mk_pair(*a, *w));
                            vstd::arithmetic::mul::lemma_mul_is_distributive_add(
                                l1.count(mk_pair(*a, *b)),
                                count_in(rs.take(j as int), mk_pair(*a, *w)),
                                e.1 as int,
                            );
                        },
                        _ => {},
                    }
                }
            }
            let ghost mid = self.right_map;
            let ra = self.right_map.add(e.0.duplicate(), e.1);
            proof {
                lemma_count_push(rs.take(j as int), rs[j as int], rs[j as int].0);
                assert(mid.count(rs[j as int].0) == r0.count(rs[j as int].0) + count_in(rs.take(j as int), rs[j as int].0));
                assert(ra is Ok <==> fits_at(|p: Datum| r0.count(p), rs, j as int));
            }
            if ra.is_err() {
                proof {
                    assert(!right_step_fits(l0, ls, r0, rs, j as int));
                }
                return Err(CountOverflow);
            }
            proof {
                assert forall|p: Datum| #![trigger self.right_map.count(p)]
                    self.right_map.count(p) == r0.count(p) + count_in(rs.take(j as int + 1), p) by {
                    lemma_count_push(rs.take(j as int), rs[j as int], p);
                    assert(mid.count(p) == r0.count(p) + count_in(rs.take(j as int), p));
                }
                assert(right_step_fits(l0, ls, r0, rs, j as int));
            }
            j = j + 1;
        }
        assert(rs.take(rs.len() as int) =~= rs);
        assert(join_fits(j0, ls, rs));
        proof {
            assert forall|d: Datum| #![trigger count_in(out@, d)]
                count_in(out@, d) == join_product(self.left_map, self.right_map, d)
                    - join_product(l0, r0, d) by {
                match d {
                    Datum::Triple(a, b, w) => {
                        lemma_product_step(
                            l0.count(mk_pair(*a, *b)),
                            count_in(ls, mk_pair(*a, *b)),
                            r0.count(mk_pair(*a, *w)),
                            count_in(rs, mk_pair(*a, *w)),
                        );
                    },
                    _ => {},
                }
            }
        }
        Ok(out)
    }
}

} // verus!
