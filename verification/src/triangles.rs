use vstd::prelude::*;
use crate::datum::{Datum, Delta, mk_pair, mk_triple};
use crate::count::{count_in, is_isize, lemma_count_push};
use crate::counts::{Counts, CountOverflow};

verus! {

/// Pairs `(x, y)` with their counts, indexed from both sides.
pub struct BiMap {
    pub forward: Counts,
    pub backward: Counts,
}

impl BiMap {
    /// `backward` holds `(y, x)` with the count that `forward` holds for `(x, y)`.
    pub open spec fn wf(&self) -> bool {
        &&& self.forward.wf()
        &&& self.backward.wf()
        &&& forall|a: Datum, b: Datum| #![trigger self.forward.count(mk_pair(a, b))]
            self.backward.count(mk_pair(b, a)) == self.forward.count(mk_pair(a, b))
        &&& forall|a: Datum, b: Datum| #![trigger self.backward.count(mk_pair(b, a))]
            self.backward.count(mk_pair(b, a)) == self.forward.count(mk_pair(a, b))
    }

    /// The count of the pair `(a, b)`.
    pub open spec fn pair_count(&self, a: Datum, b: Datum) -> int {
        self.forward.count(mk_pair(a, b))
    }

    pub fn new() -> (r: BiMap)
        ensures
            r.wf(),
            forall|a: Datum, b: Datum| r.pair_count(a, b) == 0,
    {
        BiMap { forward: Counts::new(), backward: Counts::new() }
    }

    /// Adds `count` copies of the pair `(a, b)`.
    ///
    /// Fails, leaving the map as it was, exactly when the new count does not
    /// fit in an `isize`.
    pub fn add_pair(&mut self, a: &Datum, b: &Datum, count: isize) -> (r: Result<(), CountOverflow>)
        requires
            old(self).wf(),
        ensures
            final(self).wf(),
            r is Ok <==> crate::count::is_isize(old(self).pair_count(*a, *b) + count),
            r is Ok ==> forall|x: Datum, y: Datum| #![trigger final(self).pair_count(x, y)]
                final(self).pair_count(x, y) == old(self).pair_count(x, y) + (if x == *a && y == *b {
                    count as int
                } else {
                    0
                }),
            r is Err ==> *final(self) == *old(self),
    {
        self.forward.add(Datum::pair(a.duplicate(), b.duplicate()), count)?;
        let r = self.backward.add(Datum::pair(b.duplicate(), a.duplicate()), count);
        proof {
            assert(old(self).backward.count(mk_pair(*b, *a)) == old(self).forward.count(mk_pair(*a, *b)));
        }
        r
    }

    /// The elements `y` paired with `x`, with the counts of `(x, y)`.
    pub fn get_forward(&self, x: &Datum) -> (r: Counts)
        requires
            self.wf(),
        ensures
            r.wf(),
            forall|y: Datum| #![trigger r.count(y)] r.count(y) == self.pair_count(*x, y),
    {
        self.forward.group(x)
    }

    /// The elements `x` paired with `y`, with the counts of `(x, y)`.
    pub fn get_backward(&self, y: &Datum) -> (r: Counts)
        requires
            self.wf(),
        ensures
            r.wf(),
            forall|x: Datum| #![trigger r.count(x)] r.count(x) == self.pair_count(x, *y),
    {
        let r = self.backward.group(y);
        assert forall|x: Datum| #![trigger r.count(x)] r.count(x) == self.pair_count(x, *y) by {
            assert(self.backward.count(mk_pair(*y, x)) == self.forward.count(mk_pair(x, *y)));
        }
        r
    }
}

/// Sum over the entries for `w` of the product of their two counts.
pub open spec fn isect_sum(s: Seq<(Datum, isize, isize)>, w: Datum) -> int
    decreases s.len(),
{
    if s.len() == 0 {
        0
    } else {
        isect_sum(s.drop_last(), w) + (if s.last().0 == w {
            s.last().1 as int * s.last().2 as int
        } else {
            0
        })
    }
}

proof fn lemma_isect_push(s: Seq<(Datum, isize, isize)>, e: (Datum, isize, isize), w: Datum)
    ensures
        isect_sum(s.push(e), w) == isect_sum(s, w) + (if e.0 == w {
            e.1 as int * e.2 as int
        } else {
            0
        }),
{
    assert(s.push(e).drop_last() =~= s);
}

/// The elements with a nonzero count in both collections, with both counts.
///
/// Goes through the smaller of the two.
pub fn intersection(lhs: &Counts, rhs: &Counts) -> (r: Vec<(Datum, isize, isize)>)
    requires
        lhs.wf(),
        rhs.wf(),
    ensures
        forall|w: Datum| #![trigger isect_sum(r@, w)] isect_sum(r@, w) == lhs.count(w) * rhs.count(w),
        forall|i: int| #![trigger r@[i]] 0 <= i < r@.len() ==> r@[i].1 == lhs.count(r@[i].0) && r@[i].2 == rhs.count(r@[i].0)
            && r@[i].1 != 0 && r@[i].2 != 0,
{
    let swapped = lhs.len() > rhs.len();
    let (first, second) = if swapped {
        (rhs, lhs)
    } else {
        (lhs, rhs)
    };
    let ghost s = first.entries@;
    let mut res: Vec<(Datum, isize, isize)> = Vec::new();
    let mut j: usize = 0;
    while j < first.entries.len()
        invariant
            j <= s.len(),
            s == first.entries@,
            first.wf(),
            second.wf(),
            swapped ==> first == rhs && second == lhs,
            !swapped ==> first == lhs && second == rhs,
            forall|w: Datum| #![trigger isect_sum(res@, w)]
                isect_sum(res@, w) == count_in(s.take(j as int), w) * second.count(w),
            forall|i: int| #![trigger res@[i]] 0 <= i < res@.len() ==> res@[i].1 == lhs.count(res@[i].0) && res@[i].2
                == rhs.count(res@[i].0) && res@[i].1 != 0 && res@[i].2 != 0,
        decreases s.len() - j,
    {
        assert(s.take(j as int + 1) =~= s.take(j as int).push(s[j as int]));
        let e = &first.entries[j];
        let other = second.get(&e.0);
        let ghost before = res@;
        proof {
            crate::count::lemma_count_unique(s, j as int);
            assert(e.1 == first.count(e.0));
            assert(e.1 != 0);
        }
        if other != 0 {
            let item = if swapped {
                (e.0.duplicate(), other, e.1)
            } else {
                (e.0.duplicate(), e.1, other)
            };
            res.push(item);
            proof {
                assert forall|w: Datum| #![trigger isect_sum(res@, w)]
                    isect_sum(res@, w) == count_in(s.take(j as int + 1), w) * second.count(w) by {
                    lemma_isect_push(before, item, w);
                    lemma_count_push(s.take(j as int), s[j as int], w);
                    vstd::arithmetic::mul::lemma_mul_is_distributive_add_other_way(
                        second.count(w),
                        count_in(s.take(j as int), w),
                        if e.0 == w { e.1 as int } else { 0 },
                    );
                    vstd::arithmetic::mul::lemma_mul_is_commutative(e.1 as int, other as int);
                }
                assert forall|i: int| #![trigger res@[i]] 0 <= i < res@.len() implies res@[i].1 == lhs.count(res@[i].0)
                    && res@[i].2 == rhs.count(res@[i].0) && res@[i].1 != 0 && res@[i].2 != 0 by {
                    if i < before.len() {
                        assert(res@[i] == before[i]);
                    }
                }
            }
        } else {
            proof {
                assert forall|w: Datum| #![trigger isect_sum(res@, w)]
                    isect_sum(res@, w) == count_in(s.take(j as int + 1), w) * second.count(w) by {
                    lemma_count_push(s.take(j as int), s[j as int], w);
                    vstd::arithmetic::mul::lemma_mul_is_distributive_add_other_way(
                        second.count(w),
                        count_in(s.take(j as int), w),
                        if e.0 == w { e.1 as int } else { 0 },
                    );
                    if e.0 == w {
                        assert(second.count(w) == 0);
                        assert(e.1 as int * second.count(w) == 0);
                    }
                }
            }
        }
        j = j + 1;
    }
    assert(s.take(s.len() as int) =~= s);
    proof {
        assert forall|w: Datum| #![trigger isect_sum(res@, w)] isect_sum(res@, w) == lhs.count(w) * rhs.count(w) by {
            vstd::arithmetic::mul::lemma_mul_is_commutative(lhs.count(w), rhs.count(w));
        }
    }
    res
}

/// The triple with `w` at position `pos` and `a`, `b` at the others, in order.
pub open spec fn place(pos: int, a: Datum, b: Datum, w: Datum) -> Datum {
    if pos == 0 {
        mk_triple(w, a, b)
    } else if pos == 1 {
        mk_triple(a, w, b)
    } else {
        mk_triple(a, b, w)
    }
}

fn place_exec(pos: u8, a: &Datum, b: &Datum, w: &Datum) -> (r: Datum)
    requires
        pos <= 2,
    ensures
        r == place(pos as int, *a, *b, *w),
{
    if pos == 0 {
        Datum::triple(w.duplicate(), a.duplicate(), b.duplicate())
    } else if pos == 1 {
        Datum::triple(a.duplicate(), w.duplicate(), b.duplicate())
    } else {
        Datum::triple(a.duplicate(), b.duplicate(), w.duplicate())
    }
}

/// The element at position `pos` of a triple that has `a`, `b` at the others.
pub open spec fn placed_at(pos: int, a: Datum, b: Datum, d: Datum) -> Option<Datum> {
    match d {
        Datum::Triple(x, y, z) => if pos == 0 && *y == a && *z == b {
            Some(*x)
        } else if pos == 1 && *x == a && *z == b {
            Some(*y)
        } else if pos == 2 && *x == a && *y == b {
            Some(*z)
        } else {
            None
        },
        _ => None,
    }
}

/// The products `c * l` and `c * l * r` are in the range of `isize`.
pub open spec fn tri_fit_pair(c: int, l: int, r: int) -> bool {
    is_isize(c * l) && is_isize(c * l * r)
}

/// Where both `l` and `r` are nonzero, the products `c * l` and
/// `c * l * r` are in the range of `isize`.
pub open spec fn tri_products_fit(c: int, l: int, r: int) -> bool {
    l != 0 && r != 0 ==> tri_fit_pair(c, l, r)
}

/// The count of the pair `(a, b)` in `m` after the changes `s`.
pub open spec fn pair_after(m: BiMap, s: Seq<Delta>, a: Datum, b: Datum) -> int {
    m.pair_count(a, b) + count_in(s, mk_pair(a, b))
}

/// Step `i` over the first input of the triangles `t` keeps its counts in
/// the range of `isize`.
pub open spec fn tri_first_fits(t: Triangles, s1: Seq<Delta>, i: int) -> bool {
    s1[i].0 matches Datum::Pair(x, y) ==> {
        &&& forall|z: Datum| #[trigger] tri_products_fit(s1[i].1 as int, t.mapxz.pair_count(*x, z), t.mapyz.pair_count(*y, z))
        &&& is_isize(pair_after(t.mapxy, s1.take(i + 1), *x, *y))
    }
}

/// Step `j` over the second input keeps its counts in the range of `isize`.
pub open spec fn tri_second_fits(t: Triangles, s1: Seq<Delta>, s2: Seq<Delta>, j: int) -> bool {
    s2[j].0 matches Datum::Pair(x, z) ==> {
        &&& forall|y: Datum| #[trigger] tri_products_fit(s2[j].1 as int, pair_after(t.mapxy, s1, *x, y), t.mapyz.pair_count(y, *z))
        &&& is_isize(pair_after(t.mapxz, s2.take(j + 1), *x, *z))
    }
}

/// Step `k` over the third input keeps its counts in the range of `isize`.
pub open spec fn tri_third_fits(t: Triangles, s1: Seq<Delta>, s2: Seq<Delta>, s3: Seq<Delta>, k: int) -> bool {
    s3[k].0 matches Datum::Pair(y, z) ==> {
        &&& forall|x: Datum| #[trigger] tri_products_fit(s3[k].1 as int, pair_after(t.mapxy, s1, x, *y), pair_after(t.mapxz, s2, x, *z))
        &&& is_isize(pair_after(t.mapyz, s3.take(k + 1), *y, *z))
    }
}

/// A step of the triangles `t` on the changes `s1`, `s2`, `s3` keeps every
/// count in the range of `isize`.
pub open spec fn triangles_fit(t: Triangles, s1: Seq<Delta>, s2: Seq<Delta>, s3: Seq<Delta>) -> bool {
    &&& forall|i: int| 0 <= i < s1.len() ==> #[trigger] tri_first_fits(t, s1, i)
    &&& forall|j: int| 0 <= j < s2.len() ==> #[trigger] tri_second_fits(t, s1, s2, j)
    &&& forall|k: int| 0 <= k < s3.len() ==> #[trigger] tri_third_fits(t, s1, s2, s3, k)
}

/// An element with a nonzero sum has an entry.
proof fn lemma_isect_has(s: Seq<(Datum, isize, isize)>, w: Datum)
    requires
        isect_sum(s, w) != 0,
    ensures
        exists|i: int| 0 <= i < s.len() && #[trigger] s[i].0 == w,
    decreases s.len(),
{
    if s.last().0 != w {
        lemma_isect_has(s.drop_last(), w);
        let i = choose|i: int| 0 <= i < s.drop_last().len() && #[trigger] s.drop_last()[i].0 == w;
        assert(s[i].0 == w);
    } else {
        assert(s[s.len() - 1].0 == w);
    }
}

/// The products fit for every entry of an intersection exactly when they
/// fit for every element with a nonzero count on both sides.
proof fn lemma_pairs_fit(s: Seq<(Datum, isize, isize)>, lhs: Counts, rhs: Counts, c: int)
    requires
        forall|w: Datum| #![trigger isect_sum(s, w)] isect_sum(s, w) == lhs.count(w) * rhs.count(w),
        forall|i: int| #![trigger s[i]] 0 <= i < s.len() ==> s[i].1 == lhs.count(s[i].0) && s[i].2 == rhs.count(s[i].0)
            && s[i].1 != 0 && s[i].2 != 0,
    ensures
        (forall|j: int| 0 <= j < s.len() ==> #[trigger] tri_fit_pair(c, s[j].1 as int, s[j].2 as int)) <==> (forall|w: Datum|
            #[trigger] tri_products_fit(c, lhs.count(w), rhs.count(w))),
{
    if forall|j: int| 0 <= j < s.len() ==> #[trigger] tri_fit_pair(c, s[j].1 as int, s[j].2 as int) {
        assert forall|w: Datum| #[trigger] tri_products_fit(c, lhs.count(w), rhs.count(w)) by {
            if lhs.count(w) != 0 && rhs.count(w) != 0 {
                vstd::arithmetic::mul::lemma_mul_nonzero(lhs.count(w), rhs.count(w));
                assert(isect_sum(s, w) != 0);
                lemma_isect_has(s, w);
                let i = choose|i: int| 0 <= i < s.len() && #[trigger] s[i].0 == w;
                assert(tri_fit_pair(c, s[i].1 as int, s[i].2 as int));
            }
        }
    }
    if forall|w: Datum| #[trigger] tri_products_fit(c, lhs.count(w), rhs.count(w)) {
        assert forall|j: int| 0 <= j < s.len() implies #[trigger] tri_fit_pair(c, s[j].1 as int, s[j].2 as int) by {
            assert(tri_products_fit(c, lhs.count(s[j].0), rhs.count(s[j].0)));
        }
    }
}

/// Pushes `(place(pos, a, b, w), c * l * r)` for each `(w, l, r)` of `pairs`.
///
/// Fails exactly when one of the products `c * l` or `c * l * r` leaves the
/// range of `isize`.
fn emit_triangles(out: &mut Vec<Delta>, pos: u8, a: &Datum, b: &Datum, c: isize, pairs: &Vec<(Datum, isize, isize)>) -> (r: Result<(), CountOverflow>)
    requires
        pos <= 2,
    ensures
        r is Ok <==> forall|j: int| 0 <= j < pairs@.len() ==> #[trigger] tri_fit_pair(c as int, pairs@[j].1 as int, pairs@[j].2 as int),
        r is Ok ==> forall|d: Datum| #![trigger count_in(final(out)@, d)]
            count_in(final(out)@, d) == count_in(old(out)@, d) + match placed_at(pos as int, *a, *b, d) {
                Some(w) => c * isect_sum(pairs@, w),
                None => 0,
            },
{
    let ghost out0 = out@;
    let ghost s = pairs@;
    let mut j: usize = 0;
    while j < pairs.len()
        invariant
            j <= s.len(),
            s == pairs@,
            pos <= 2,
            forall|d: Datum| #![trigger count_in(out@, d)]
                count_in(out@, d) == count_in(out0, d) + match placed_at(pos as int, *a, *b, d) {
                    Some(w) => c * isect_sum(s.take(j as int), w),
                    None => 0,
                },
            forall|jj: int| 0 <= jj < j ==> #[trigger] tri_fit_pair(c as int, s[jj].1 as int, s[jj].2 as int),
        decreases s.len() - j,
    {
        assert(s.take(j as int + 1) =~= s.take(j as int).push(s[j as int]));
        let e = &pairs[j];
        let p1 = match c.checked_mul(e.1) {
            Some(p) => p,
            None => {
                proof {
                    assert(!tri_fit_pair(c as int, s[j as int].1 as int, s[j as int].2 as int));
                }
                return Err(CountOverflow);
            },
        };
        let p = match p1.checked_mul(e.2) {
            Some(p) => p,
            None => {
                proof {
                    assert(!tri_fit_pair(c as int, s[j as int].1 as int, s[j as int].2 as int));
                }
                return Err(CountOverflow);
            },
        };
        proof {
            assert(tri_fit_pair(c as int, s[j as int].1 as int, s[j as int].2 as int));
        }
        let t = place_exec(pos, a, b, &e.0);
        let ghost before = out@;
        out.push((t, p));
        proof {
            assert forall|d: Datum| #![trigger count_in(out@, d)]
                count_in(out@, d) == count_in(out0, d) + match placed_at(pos as int, *a, *b, d) {
                    Some(w) => c * isect_sum(s.take(j as int + 1), w),
                    None => 0,
                } by {
                lemma_count_push(before, (t, p), d);
                match placed_at(pos as int, *a, *b, d) {
                    Some(w) => {
                        lemma_isect_push(s.take(j as int), s[j as int], w);
                        vstd::arithmetic::mul::lemma_mul_is_associative(c as int, e.1 as int, e.2 as int);
                        if e.0 == w {
                            vstd::arithmetic::mul::lemma_mul_is_distributive_add(
                                c as int,
                                isect_sum(s.take(j as int), w),
                                e.1 as int * e.2 as int,
                            );
                        }
                    },
                    None => {},
                }
            }
        }
        j = j + 1;
    }
    assert(s.take(s.len() as int) =~= s);
    Ok(())
}

/// The count of `d` in the triangles of `xy`, `xz` and `yz`:
/// `((x, y, z), xy[(x, y)] * xz[(x, z)] * yz[(y, z)])`.
pub open spec fn triangle_product(xy: BiMap, xz: BiMap, yz: BiMap, d: Datum) -> int {
    match d {
        Datum::Triple(x, y, z) => xy.pair_count(*x, *y) * xz.pair_count(*x, *z) * yz.pair_count(*y, *z),
        _ => 0,
    }
}

proof fn lemma_first_factor(p: int, c: int, b: int, cc: int)
    ensures
        (p + c) * b * cc == p * b * cc + c * (b * cc),
{
    assert((p + c) * b * cc == p * b * cc + c * (b * cc)) by (nonlinear_arith);
}

proof fn lemma_second_factor(a: int, p: int, c: int, cc: int)
    ensures
        a * (p + c) * cc == a * p * cc + c * (a * cc),
{
    assert(a * (p + c) * cc == a * p * cc + c * (a * cc)) by (nonlinear_arith);
}

proof fn lemma_third_factor(a: int, b: int, p: int, c: int)
    ensures
        a * b * (p + c) == a * b * p + c * (a * b),
{
    assert(a * b * (p + c) == a * b * p + c * (a * b)) by (nonlinear_arith);
}

proof fn lemma_triple_product_step(a0: int, da: int, b0: int, db: int, c0: int, dc: int)
    ensures
        (a0 + da) * (b0 + db) * (c0 + dc) - a0 * b0 * c0 == da * b0 * c0 + (a0 + da) * db * c0 + (a0 + da) * (
        b0 + db) * dc,
{
    assert((a0 + da) * (b0 + db) * (c0 + dc) - a0 * b0 * c0 == da * b0 * c0 + (a0 + da) * db * c0 + (a0 + da)
        * (b0 + db) * dc) by (nonlinear_arith);
}

/// The state of a triangle query over `xy`, `xz` and `yz`: everything seen so
/// far on each input.
pub struct Triangles {
    pub mapxy: BiMap,
    pub mapxz: BiMap,
    pub mapyz: BiMap,
}

impl Triangles {
    pub open spec fn wf(&self) -> bool {
        self.mapxy.wf() && self.mapxz.wf() && self.mapyz.wf()
    }

    pub fn new() -> (r: Triangles)
        ensures
            r.wf(),
            forall|a: Datum, b: Datum| r.mapxy.pair_count(a, b) == 0 && r.mapxz.pair_count(a, b) == 0
                && r.mapyz.pair_count(a, b) == 0,
    {
        Triangles { mapxy: BiMap::new(), mapxz: BiMap::new(), mapyz: BiMap::new() }
    }

    /// Takes the changes to the three inputs (pairs `(x, y)`, `(x, z)` and
    /// `(y, z)`) and returns the changes to the triples `(x, y, z)` that all
    /// three hold; the count of a triple is the product of the three counts.
    ///
    /// Fails exactly when a count leaves the range of `isize`
    /// (`triangles_fit`).
    pub fn step(&mut self, in1: &Vec<Delta>, in2: &Vec<Delta>, in3: &Vec<Delta>) -> (r: Result<Vec<Delta>, CountOverflow>)
        requires
            old(self).wf(),
        ensures
            final(self).wf(),
            r is Ok <==> triangles_fit(*old(self), in1@, in2@, in3@),
            r is Ok ==> forall|a: Datum, b: Datum| #![trigger final(self).mapxy.pair_count(a, b)]
                final(self).mapxy.pair_count(a, b) == old(self).mapxy.pair_count(a, b) + count_in(in1@, mk_pair(a, b)),
            r is Ok ==> forall|a: Datum, b: Datum| #![trigger final(self).mapxz.pair_count(a, b)]
                final(self).mapxz.pair_count(a, b) == old(self).mapxz.pair_count(a, b) + count_in(in2@, mk_pair(a, b)),
            r is Ok ==> forall|a: Datum, b: Datum| #![trigger final(self).mapyz.pair_count(a, b)]
                final(self).mapyz.pair_count(a, b) == old(self).mapyz.pair_count(a, b) + count_in(in3@, mk_pair(a, b)),
            r matches Ok(out) ==> forall|d: Datum| #![trigger count_in(out@, d)]
                count_in(out@, d) == triangle_product(final(self).mapxy, final(self).mapxz, final(self).mapyz, d)
                    - triangle_product(old(self).mapxy, old(self).mapxz, old(self).mapyz, d),
    {
        let ghost t0 = *self;
        let ghost a0 = self.mapxy;
        let ghost b0 = self.mapxz;
        let ghost c0 = self.mapyz;
        let ghost s1 = in1@;
        let ghost s2 = in2@;
        let ghost s3 = in3@;
        let mut out: Vec<Delta> = Vec::new();
        let mut i: usize = 0;
        proof {
            assert forall|d: Datum| #![trigger count_in(out@, d)]
                count_in(out@, d) == match d {
                    Datum::Triple(x, y, z) => count_in(s1.take(0), mk_pair(*x, *y)) * b0.pair_count(*x, *z)
                        * c0.pair_count(*y, *z),
                    _ => 0,
                } by {
                match d {
                    Datum::Triple(x, y, z) => {
                        assert(count_in(s1.take(0), mk_pair(*x, *y)) == 0);
                        vstd::arithmetic::mul::lemma_mul_basics(b0.pair_count(*x, *z));
                        vstd::arithmetic::mul::lemma_mul_basics(c0.pair_count(*y, *z));
                    },
                    _ => {},
                }
            }
        }
        while i < in1.len()
            invariant
                i <= s1.len(),
                s1 == in1@,
                self.wf(),
                self.mapxz == b0,
                self.mapyz == c0,
                t0 == *old(self),
                t0.mapxy == a0,
                t0.mapxz == b0,
                t0.mapyz == c0,
                forall|ii: int| 0 <= ii < i ==> #[trigger] tri_first_fits(t0, s1, ii),
                forall|a: Datum, b: Datum| #![trigger self.mapxy.pair_count(a, b)]
                    self.mapxy.pair_count(a, b) == a0.pair_count(a, b) + count_in(s1.take(i as int), mk_pair(a, b)),
                forall|d: Datum| #![trigger count_in(out@, d)]
                    count_in(out@, d) == match d {
                        Datum::Triple(x, y, z) => count_in(s1.take(i as int), mk_pair(*x, *y)) * b0.pair_count(*x, *z)
                            * c0.pair_count(*y, *z),
                        _ => 0,
                    },
            decreases s1.len() - i,
        {
            assert(s1.take(i as int + 1) =~= s1.take(i as int).push(s1[i as int]));
            let e = &in1[i];
            let ghost before = out@;
            let ghost amid = self.mapxy;
            match &e.0 {
                Datum::Pair(x, y) => {
                    let xzs = self.mapxz.get_forward(x);
                    let yzs = self.mapyz.get_forward(y);
                    let pairs = intersection(&xzs, &yzs);
                    let re = emit_triangles(&mut out, 2, x, y, e.1, &pairs);
                    proof {
                        lemma_pairs_fit(pairs@, xzs, yzs, e.1 as int);
                        assert(s1[i as int].0 == mk_pair(**x, **y));
                    }
                    if re.is_err() {
                        proof {
                            let z = choose|z: Datum| !#[trigger] tri_products_fit(e.1 as int, xzs.count(z), yzs.count(z));
                            assert(xzs.count(z) == b0.pair_count(**x, z));
                            assert(yzs.count(z) == c0.pair_count(**y, z));
                            assert(!tri_first_fits(t0, s1, i as int));
                        }
                        return Err(CountOverflow);
                    }
                    let ra = self.mapxy.add_pair(x, y, e.1);
                    proof {
                        lemma_count_push(s1.take(i as int), s1[i as int], mk_pair(**x, **y));
                        assert(amid.pair_count(**x, **y) == a0.pair_count(**x, **y) + count_in(s1.take(i as int), mk_pair(**x, **y)));
                        assert(ra is Ok <==> is_isize(pair_after(a0, s1.take(i as int + 1), **x, **y)));
                    }
                    if ra.is_err() {
                        proof {
                            assert(!tri_first_fits(t0, s1, i as int));
                        }
                        return Err(CountOverflow);
                    }
                    proof {
                        assert forall|z: Datum| #[trigger] tri_products_fit(e.1 as int, b0.pair_count(**x, z), c0.pair_count(**y, z)) by {
                            assert(xzs.count(z) == b0.pair_count(**x, z));
                            assert(yzs.count(z) == c0.pair_count(**y, z));
                            assert(tri_products_fit(e.1 as int, xzs.count(z), yzs.count(z)));
                        }
                        assert(tri_first_fits(t0, s1, i as int));
                    }
                    proof {
                        assert forall|d: Datum| #![trigger count_in(out@, d)]
                            count_in(out@, d) == match d {
                                Datum::Triple(xx, yy, z) => count_in(s1.take(i as int + 1), mk_pair(*xx, *yy))
                                    * b0.pair_count(*xx, *z) * c0.pair_count(*yy, *z),
                                _ => 0,
                            } by {
                            match d {
                                Datum::Triple(xx, yy, z) => {
                                    lemma_count_push(s1.take(i as int), s1[i as int], mk_pair(*xx, *yy));
                                    if *xx == **x && *yy == **y {
                                        lemma_first_factor(
                                            count_in(s1.take(i as int), mk_pair(*xx, *yy)),
                                            e.1 as int,
                                            b0.pair_count(*xx, *z),
                                            c0.pair_count(*yy, *z),
                                        );
                                    }
                                },
                                _ => {},
                            }
                        }
                        assert forall|a: Datum, b: Datum| #![trigger self.mapxy.pair_count(a, b)]
                            self.mapxy.pair_count(a, b) == a0.pair_count(a, b) + count_in(s1.take(i as int + 1), mk_pair(a, b)) by {
                            lemma_count_push(s1.take(i as int), s1[i as int], mk_pair(a, b));
                            assert(amid.pair_count(a, b) == a0.pair_count(a, b) + count_in(s1.take(i as int), mk_pair(a, b)));
                        }
                    }
                },
                _ => {
                    proof {
                        assert forall|d: Datum| #![trigger count_in(out@, d)]
                            count_in(out@, d) == match d {
                                Datum::Triple(xx, yy, z) => count_in(s1.take(i as int + 1), mk_pair(*xx, *yy))
                                    * b0.pair_count(*xx, *z) * c0.pair_count(*yy, *z),
                                _ => 0,
                            } by {
                            match d {
                                Datum::Triple(xx, yy, z) => {
                                    lemma_count_push(s1.take(i as int), s1[i as int], mk_pair(*xx, *yy));
                                },
                                _ => {},
                            }
                        }
                        assert forall|a: Datum, b: Datum| #![trigger self.mapxy.pair_count(a, b)]
                            self.mapxy.pair_count(a, b) == a0.pair_count(a, b) + count_in(s1.take(i as int + 1), mk_pair(a, b)) by {
                            lemma_count_push(s1.take(i as int), s1[i as int], mk_pair(a, b));
                        }
                    }
                },
            }
            i = i + 1;
        }
        assert(s1.take(s1.len() as int) =~= s1);
        let ghost a1 = self.mapxy;
        let ghost out1 = out@;
        let mut j: usize = 0;
        proof {
            assert forall|d: Datum| #![trigger count_in(out@, d)]
                count_in(out@, d) == count_in(out1, d) + match d {
                    Datum::Triple(x, y, z) => a1.pair_count(*x, *y) * count_in(s2.take(0), mk_pair(*x, *z))
                        * c0.pair_count(*y, *z),
                    _ => 0,
                } by {
                match d {
                    Datum::Triple(x, y, z) => {
                        assert(count_in(s2.take(0), mk_pair(*x, *z)) == 0);
                        vstd::arithmetic::mul::lemma_mul_basics(a1.pair_count(*x, *y));
                        vstd::arithmetic::mul::lemma_mul_basics(c0.pair_count(*y, *z));
                    },
                    _ => {},
                }
            }
        }
        while j < in2.len()
            invariant
                j <= s2.len(),
                s2 == in2@,
                self.wf(),
                self.mapxy == a1,
                self.mapyz == c0,
                s1 == in1@,
                t0 == *old(self),
                t0.mapxy == a0,
                t0.mapxz == b0,
                t0.mapyz == c0,
                forall|ii: int| 0 <= ii < s1.len() ==> #[trigger] tri_first_fits(t0, s1, ii),
                forall|ii: int| 0 <= ii < j ==> #[trigger] tri_second_fits(t0, s1, s2, ii),
                forall|a: Datum, b: Datum| #![trigger a1.pair_count(a, b)] a1.pair_count(a, b) == pair_after(a0, s1, a, b),
                forall|a: Datum, b: Datum| #![trigger self.mapxz.pair_count(a, b)]
                    self.mapxz.pair_count(a, b) == b0.pair_count(a, b) + count_in(s2.take(j as int), mk_pair(a, b)),
                forall|d: Datum| #![trigger count_in(out@, d)]
                    count_in(out@, d) == count_in(out1, d) + match d {
                        Datum::Triple(x, y, z) => a1.pair_count(*x, *y) * count_in(s2.take(j as int), mk_pair(*x, *z))
                            * c0.pair_count(*y, *z),
                        _ => 0,
                    },
            decreases s2.len() - j,
        {
            assert(s2.take(j as int + 1) =~= s2.take(j as int).push(s2[j as int]));
            let e = &in2[j];
            let ghost before = out@;
            let ghost bmid = self.mapxz;
            match &e.0 {
                Datum::Pair(x, z) => {
                    let xys = self.mapxy.get_forward(x);
                    let zys = self.mapyz.get_backward(z);
                    let pairs = intersection(&xys, &zys);
                    let re = emit_triangles(&mut out, 1, x, z, e.1, &pairs);
                    proof {
                        lemma_pairs_fit(pairs@, xys, zys, e.1 as int);
                        assert(s2[j as int].0 == mk_pair(**x, **z));
                    }
                    if re.is_err() {
                        proof {
                            let y = choose|y: Datum| !#[trigger] tri_products_fit(e.1 as int, xys.count(y), zys.count(y));
                            assert(xys.count(y) == pair_after(a0, s1, **x, y));
                            assert(zys.count(y) == c0.pair_count(y, **z));
                            assert(!tri_second_fits(t0, s1, s2, j as int));
                        }
                        return Err(CountOverflow);
                    }
                    let ra = self.mapxz.add_pair(x, z, e.1);
                    proof {
                        lemma_count_push(s2.take(j as int), s2[j as int], mk_pair(**x, **z));
                        assert(bmid.pair_count(**x, **z) == b0.pair_count(**x, **z) + count_in(s2.take(j as int), mk_pair(**x, **z)));
                        assert(ra is Ok <==> is_isize(pair_after(b0, s2.take(j as int + 1), **x, **z)));
                    }
                    if ra.is_err() {
                        proof {
                            assert(!tri_second_fits(t0, s1, s2, j as int));
                        }
                        return Err(CountOverflow);
                    }
                    proof {
                        assert forall|y: Datum| #[trigger] tri_products_fit(e.1 as int, pair_after(a0, s1, **x, y), c0.pair_count(y, **z)) by {
                            assert(xys.count(y) == pair_after(a0, s1, **x, y));
                            assert(zys.count(y) == c0.pair_count(y, **z));
                            assert(tri_products_fit(e.1 as int, xys.count(y), zys.count(y)));
                        }
                        assert(tri_second_fits(t0, s1, s2, j as int));
                    }
                    proof {
                        assert forall|d: Datum| #![trigger count_in(out@, d)]
                            count_in(out@, d) == count_in(out1, d) + match d {
                                Datum::Triple(xx, yy, zz) => a1.pair_count(*xx, *yy) * count_in(s2.take(j as int + 1), mk_pair(*xx, *zz))
                                    * c0.pair_count(*yy, *zz),
                                _ => 0,
                            } by {
                            match d {
                                Datum::Triple(xx, yy, zz) => {
                                    lemma_count_push(s2.take(j as int), s2[j as int], mk_pair(*xx, *zz));
                                    if *xx == **x && *zz == **z {
                                        lemma_second_factor(
                                            a1.pair_count(*xx, *yy),
                                            count_in(s2.take(j as int), mk_pair(*xx, *zz)),
                                            e.1 as int,
                                            c0.pair_count(*yy, *zz),
                                        );
                                    }
                                },
                                _ => {},
                            }
                        }
                        assert forall|a: Datum, b: Datum| #![trigger self.mapxz.pair_count(a, b)]
                            self.mapxz.pair_count(a, b) == b0.pair_count(a, b) + count_in(s2.take(j as int + 1), mk_pair(a, b)) by {
                            lemma_count_push(s2.take(j as int), s2[j as int], mk_pair(a, b));
                            assert(bmid.pair_count(a, b) == b0.pair_count(a, b) + count_in(s2.take(j as int), mk_pair(a, b)));
                        }
                    }
                },
                _ => {
                    proof {
                        assert forall|d: Datum| #![trigger count_in(out@, d)]
                            count_in(out@, d) == count_in(out1, d) + match d {
                                Datum::Triple(xx, yy, zz) => a1.pair_count(*xx, *yy) * count_in(s2.take(j as int + 1), mk_pair(*xx, *zz))
                                    * c0.pair_count(*yy, *zz),
                                _ => 0,
                            } by {
                            match d {
                                Datum::Triple(xx, yy, zz) => {
                                    lemma_count_push(s2.take(j as int), s2[j as int], mk_pair(*xx, *zz));
                                },
                                _ => {},
                            }
                        }
                        assert forall|a: Datum, b: Datum| #![trigger self.mapxz.pair_count(a, b)]
                            self.mapxz.pair_count(a, b) == b0.pair_count(a, b) + count_in(s2.take(j as int + 1), mk_pair(a, b)) by {
                            lemma_count_push(s2.take(j as int), s2[j as int], mk_pair(a, b));
                        }
                    }
                },
            }
            j = j + 1;
        }
        assert(s2.take(s2.len() as int) =~= s2);
        let ghost b1 = self.mapxz;
        let ghost out2 = out@;
        let mut k: usize = 0;
        while k < in3.len()
            invariant
                k <= s3.len(),
                s3 == in3@,
                self.wf(),
                self.mapxy == a1,
                self.mapxz == b1,
                s1 == in1@,
                s2 == in2@,
                t0 == *old(self),
                t0.mapxy == a0,
                t0.mapxz == b0,
                t0.mapyz == c0,
                forall|ii: int| 0 <= ii < s1.len() ==> #[trigger] tri_first_fits(t0, s1, ii),
                forall|ii: int| 0 <= ii < s2.len() ==> #[trigger] tri_second_fits(t0, s1, s2, ii),
                forall|ii: int| 0 <= ii < k ==> #[trigger] tri_third_fits(t0, s1, s2, s3, ii),
                forall|a: Datum, b: Datum| #![trigger a1.pair_count(a, b)] a1.pair_count(a, b) == pair_after(a0, s1, a, b),
                forall|a: Datum, b: Datum| #![trigger b1.pair_count(a, b)] b1.pair_count(a, b) == pair_after(b0, s2, a, b),
                forall|a: Datum, b: Datum| #![trigger self.mapyz.pair_count(a, b)]
                    self.mapyz.pair_count(a, b) == c0.pair_count(a, b) + count_in(s3.take(k as int), mk_pair(a, b)),
                forall|d: Datum| #![trigger count_in(out@, d)]
                    count_in(out@, d) == count_in(out2, d) + match d {
                        Datum::Triple(x, y, z) => a1.pair_count(*x, *y) * b1.pair_count(*x, *z)
                            * count_in(s3.take(k as int), mk_pair(*y, *z)),
                        _ => 0,
                    },
            decreases s3.len() - k,
        {
            assert(s3.take(k as int + 1) =~= s3.take(k as int).push(s3[k as int]));
            let e = &in3[k];
            let ghost before = out@;
            let ghost cmid = self.mapyz;
            match &e.0 {
                Datum::Pair(y, z) => {
                    let yxs = self.mapxy.get_backward(y);
                    let zxs = self.mapxz.get_backward(z);
                    let pairs = intersection(&yxs, &zxs);
                    let re = emit_triangles(&mut out, 0, y, z, e.1, &pairs);
                    proof {
                        lemma_pairs_fit(pairs@, yxs, zxs, e.1 as int);
                        assert(s3[k as int].0 == mk_pair(**y, **z));
                    }
                    if re.is_err() {
                        proof {
                            let x = choose|x: Datum| !#[trigger] tri_products_fit(e.1 as int, yxs.count(x), zxs.count(x));
                            assert(yxs.count(x) == pair_after(a0, s1, x, **y));
                            assert(zxs.count(x) == pair_after(b0, s2, x, **z));
                            assert(!tri_third_fits(t0, s1, s2, s3, k as int));
                        }
                        return Err(CountOverflow);
                    }
                    let ra = self.mapyz.add_pair(y, z, e.1);
                    proof {
                        lemma_count_push(s3.take(k as int), s3[k as int], mk_pair(**y, **z));
                        assert(cmid.pair_count(**y, **z) == c0.pair_count(**y, **z) + count_in(s3.take(k as int), mk_pair(**y, **z)));
                        assert(ra is Ok <==> is_isize(pair_after(c0, s3.take(k as int + 1), **y, **z)));
                    }
                    if ra.is_err() {
                        proof {
                            assert(!tri_third_fits(t0, s1, s2, s3, k as int));
                        }
                        return Err(CountOverflow);
                    }
                    proof {
                        assert forall|x: Datum| #[trigger] tri_products_fit(e.1 as int, pair_after(a0, s1, x, **y), pair_after(b0, s2, x, **z)) by {
                            assert(yxs.count(x) == pair_after(a0, s1, x, **y));
                            assert(zxs.count(x) == pair_after(b0, s2, x, **z));
                            assert(tri_products_fit(e.1 as int, yxs.count(x), zxs.count(x)));
                        }
                        assert(tri_third_fits(t0, s1, s2, s3, k as int));
                    }
                    proof {
                        assert forall|d: Datum| #![trigger count_in(out@, d)]
                            count_in(out@, d) == count_in(out2, d) + match d {
                                Datum::Triple(xx, yy, zz) => a1.pair_count(*xx, *yy) * b1.pair_count(*xx, *zz)
                                    * count_in(s3.take(k as int + 1), mk_pair(*yy, *zz)),
                                _ => 0,
                            } by {
                            match d {
                                Datum::Triple(xx, yy, zz) => {
                                    lemma_count_push(s3.take(k as int), s3[k as int], mk_pair(*yy, *zz));
                                    if *yy == **y && *zz == **z {
                                        lemma_third_factor(
                                            a1.pair_count(*xx, *yy),
                                            b1.pair_count(*xx, *zz),
                                            count_in(s3.take(k as int), mk_pair(*yy, *zz)),
                                            e.1 as int,
                                        );
                                    }
                                },
                                _ => {},
                            }
                        }
                        assert forall|a: Datum, b: Datum| #![trigger self.mapyz.pair_count(a, b)]
                            self.mapyz.pair_count(a, b) == c0.pair_count(a, b) + count_in(s3.take(k as int + 1), mk_pair(a, b)) by {
                            lemma_count_push(s3.take(k as int), s3[k as int], mk_pair(a, b));
                            assert(cmid.pair_count(a, b) == c0.pair_count(a, b) + count_in(s3.take(k as int), mk_pair(a, b)));
                        }
                    }
                },
                _ => {
                    proof {
                        assert forall|d: Datum| #![trigger count_in(out@, d)]
                            count_in(out@, d) == count_in(out2, d) + match d {
                                Datum::Triple(xx, yy, zz) => a1.pair_count(*xx, *yy) * b1.pair_count(*xx, *zz)
                                    * count_in(s3.take(k as int + 1), mk_pair(*yy, *zz)),
                                _ => 0,
                            } by {
                            match d {
                                Datum::Triple(xx, yy, zz) => {
                                    lemma_count_push(s3.take(k as int), s3[k as int], mk_pair(*yy, *zz));
                                },
                                _ => {},
                            }
                        }
                        assert forall|a: Datum, b: Datum| #![trigger self.mapyz.pair_count(a, b)]
                            self.mapyz.pair_count(a, b) == c0.pair_count(a, b) + count_in(s3.take(k as int + 1), mk_pair(a, b)) by {
                            lemma_count_push(s3.take(k as int), s3[k as int], mk_pair(a, b));
                        }
                    }
                },
            }
            k = k + 1;
        }
        assert(s3.take(s3.len() as int) =~= s3);
        proof {
            assert forall|d: Datum| #![trigger count_in(out@, d)]
                count_in(out@, d) == triangle_product(self.mapxy, self.mapxz, self.mapyz, d)
                    - triangle_product(a0, b0, c0, d) by {
                match d {
                    Datum::Triple(x, y, z) => {
                        lemma_triple_product_step(
                            a0.pair_count(*x, *y),
                            count_in(s1, mk_pair(*x, *y)),
                            b0.pair_count(*x, *z),
                            count_in(s2, mk_pair(*x, *z)),
                            c0.pair_count(*y, *z),
                            count_in(s3, mk_pair(*y, *z)),
                        );
                    },
                    _ => {},
                }
            }
        }
        Ok(out)
    }
}

} // verus!
