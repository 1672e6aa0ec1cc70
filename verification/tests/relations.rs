use standing_relations::counts::Counts;
use standing_relations::datum::Datum;
use standing_relations::execution::CreationContext;
use standing_relations::fns::{DatumFn, DatumFlatFn, DatumPred, CountFn, ReduceFn};

fn num(i: i64) -> Datum {
    Datum::Int(i)
}

fn pair(a: Datum, b: Datum) -> Datum {
    Datum::pair(a, b)
}

fn triple(a: Datum, b: Datum, c: Datum) -> Datum {
    Datum::triple(a, b, c)
}

fn ip(a: i64, b: i64) -> Datum {
    pair(num(a), num(b))
}

/// The entries of a collection, sorted, for comparison.
fn sorted(c: &Counts) -> Vec<(Datum, isize)> {
    let mut v: Vec<(Datum, isize)> = c.entries.iter().map(|(d, n)| (d.clone(), *n)).collect();
    v.sort_by(|a, b| {
        if a.0.le(&b.0) {
            if b.0.le(&a.0) {
                std::cmp::Ordering::Equal
            } else {
                std::cmp::Ordering::Less
            }
        } else {
            std::cmp::Ordering::Greater
        }
    });
    v
}

struct Double;

impl DatumFn for Double {
    fn spec_apply(&self, x: Datum) -> Datum {
        self.apply(&x)
    }

    fn apply(&self, x: &Datum) -> Datum {
        match x {
            Datum::Int(i) => Datum::Int(i * 2),
            _ => x.clone(),
        }
    }
}

struct Even;

impl DatumPred for Even {
    fn spec_test(&self, x: Datum) -> bool {
        self.test(&x)
    }

    fn test(&self, x: &Datum) -> bool {
        matches!(x, Datum::Int(i) if i % 2 == 0)
    }
}

struct UpTo;

impl DatumFlatFn for UpTo {
    fn spec_expand(&self, x: Datum) -> Vec<Datum> {
        self.expand(&x)
    }

    fn expand(&self, x: &Datum) -> Vec<Datum> {
        match x {
            Datum::Int(i) => (0..*i).map(Datum::Int).collect(),
            _ => Vec::new(),
        }
    }
}

struct Triple3;

impl CountFn for Triple3 {
    fn spec_map_count(&self, c: isize) -> Option<isize> {
        self.map_count(c)
    }

    fn map_count(&self, c: isize) -> Option<isize> {
        c.checked_mul(3)
    }
}

struct SumValues;

impl ReduceFn for SumValues {
    fn spec_reduce(&self, k: Datum, group: Counts) -> Datum {
        self.reduce(&k, &group)
    }

    fn reduce(&self, _k: &Datum, group: &Counts) -> Datum {
        let mut s = 0i64;
        for (v, n) in group.entries.iter() {
            if let Datum::Int(i) = v {
                s += i * (*n as i64);
            }
        }
        Datum::Int(s)
    }
}

#[test]
fn input_reaches_output_at_commit() {
    let mut ctx = CreationContext::new();
    let (mut inp, rel) = ctx.new_input();
    let mut out = rel.into_output(&mut ctx).unwrap();
    let mut ctx = ctx.begin();
    inp.add(&mut ctx, num(1)).unwrap();
    inp.add(&mut ctx, num(2)).unwrap();
    inp.add(&mut ctx, num(2)).unwrap();
    assert_eq!(out.get(&mut ctx).unwrap().entries.len(), 0);
    assert!(ctx.commit().unwrap().is_none());
    let m = out.get(&mut ctx).unwrap();
    assert_eq!(m.get(&num(1)), 1);
    assert_eq!(m.get(&num(2)), 2);
    inp.remove(&mut ctx, num(1)).unwrap();
    ctx.commit().unwrap();
    let m = out.get(&mut ctx).unwrap();
    assert_eq!(sorted(m), vec![(num(2), 2)]);
}

#[test]
fn map_filter_flat_map_and_counts() {
    let mut ctx = CreationContext::new();
    let (mut inp, rel) = ctx.new_input();
    let saved = rel.save(&mut ctx).unwrap();
    let mut doubled = saved.get().map(Box::new(Double)).into_output(&mut ctx).unwrap();
    let mut evens = saved.get().filter(Box::new(Even)).into_output(&mut ctx).unwrap();
    let mut below = saved.get().flat_map(Box::new(UpTo)).into_output(&mut ctx).unwrap();
    let mut tripled = saved.get().map_counts(Box::new(Triple3)).into_output(&mut ctx).unwrap();
    let mut negated = saved.get().negate().into_output(&mut ctx).unwrap();
    let mut ctx = ctx.begin();
    inp.add_all(&mut ctx, vec![num(1), num(2), num(3)]).unwrap();
    ctx.commit().unwrap();
    assert_eq!(sorted(doubled.get(&mut ctx).unwrap()), vec![(num(2), 1), (num(4), 1), (num(6), 1)]);
    assert_eq!(sorted(evens.get(&mut ctx).unwrap()), vec![(num(2), 1)]);
    assert_eq!(sorted(below.get(&mut ctx).unwrap()), vec![(num(0), 3), (num(1), 2), (num(2), 1)]);
    assert_eq!(sorted(tripled.get(&mut ctx).unwrap()), vec![(num(1), 3), (num(2), 3), (num(3), 3)]);
    assert_eq!(sorted(negated.get(&mut ctx).unwrap()), vec![(num(1), -1), (num(2), -1), (num(3), -1)]);
}

#[test]
fn join_counts_products() {
    let mut ctx = CreationContext::new();
    let (mut left, l) = ctx.new_input();
    let (mut right, r) = ctx.new_input();
    let mut out = l.join(r).into_output(&mut ctx).unwrap();
    let mut ctx = ctx.begin();
    left.update(&mut ctx, ip(1, 10), 2).unwrap();
    left.add(&mut ctx, ip(2, 20)).unwrap();
    right.update(&mut ctx, ip(1, 100), 3).unwrap();
    ctx.commit().unwrap();
    assert_eq!(sorted(out.get(&mut ctx).unwrap()), vec![(triple(num(1), num(10), num(100)), 6)]);
    right.add(&mut ctx, ip(2, 200)).unwrap();
    left.remove(&mut ctx, ip(1, 10)).unwrap();
    ctx.commit().unwrap();
    assert_eq!(
        sorted(out.get(&mut ctx).unwrap()),
        vec![(triple(num(1), num(10), num(100)), 3), (triple(num(2), num(20), num(200)), 1)]
    );
}

#[test]
fn antijoin_keeps_unmatched_keys() {
    let mut ctx = CreationContext::new();
    let (mut left, l) = ctx.new_input();
    let (mut right, r) = ctx.new_input();
    let mut out = l.antijoin(r).into_output(&mut ctx).unwrap();
    let mut ctx = ctx.begin();
    left.add_all(&mut ctx, vec![ip(1, 10), ip(2, 20)]).unwrap();
    right.add(&mut ctx, num(1)).unwrap();
    ctx.commit().unwrap();
    assert_eq!(sorted(out.get(&mut ctx).unwrap()), vec![(ip(2, 20), 1)]);
    right.remove(&mut ctx, num(1)).unwrap();
    ctx.commit().unwrap();
    assert_eq!(sorted(out.get(&mut ctx).unwrap()), vec![(ip(1, 10), 1), (ip(2, 20), 1)]);
}

#[test]
fn distinct_and_counts() {
    let mut ctx = CreationContext::new();
    let (mut inp, rel) = ctx.new_input();
    let saved = rel.save(&mut ctx).unwrap();
    let mut dist = saved.get().distinct().into_output(&mut ctx).unwrap();
    let mut cnt = saved.get().counts().into_output(&mut ctx).unwrap();
    let mut ctx = ctx.begin();
    inp.add_all(&mut ctx, vec![num(5), num(5), num(7)]).unwrap();
    ctx.commit().unwrap();
    assert_eq!(sorted(dist.get(&mut ctx).unwrap()), vec![(num(5), 1), (num(7), 1)]);
    assert_eq!(sorted(cnt.get(&mut ctx).unwrap()), vec![(ip(5, 2), 1), (ip(7, 1), 1)]);
    inp.remove_all(&mut ctx, vec![num(5), num(5)]).unwrap();
    ctx.commit().unwrap();
    assert_eq!(sorted(dist.get(&mut ctx).unwrap()), vec![(num(7), 1)]);
    assert_eq!(sorted(cnt.get(&mut ctx).unwrap()), vec![(ip(7, 1), 1)]);
}

#[test]
fn group_min_max_and_custom_reduce() {
    let mut ctx = CreationContext::new();
    let (mut inp, rel) = ctx.new_input();
    let saved = rel.save(&mut ctx).unwrap();
    let mut mins = saved.get().group_min().into_output(&mut ctx).unwrap();
    let mut maxs = saved.get().group_max().into_output(&mut ctx).unwrap();
    let mut sums = saved.get().reduce(Box::new(SumValues)).into_output(&mut ctx).unwrap();
    let mut ctx = ctx.begin();
    inp.add_all(&mut ctx, vec![ip(1, 4), ip(1, 9), ip(2, 3)]).unwrap();
    ctx.commit().unwrap();
    assert_eq!(sorted(mins.get(&mut ctx).unwrap()), vec![(ip(1, 4), 1), (ip(2, 3), 1)]);
    assert_eq!(sorted(maxs.get(&mut ctx).unwrap()), vec![(ip(1, 9), 1), (ip(2, 3), 1)]);
    assert_eq!(sorted(sums.get(&mut ctx).unwrap()), vec![(ip(1, 13), 1), (ip(2, 3), 1)]);
    inp.remove(&mut ctx, ip(1, 4)).unwrap();
    ctx.commit().unwrap();
    assert_eq!(sorted(mins.get(&mut ctx).unwrap()), vec![(ip(1, 9), 1), (ip(2, 3), 1)]);
    assert_eq!(sorted(sums.get(&mut ctx).unwrap()), vec![(ip(1, 9), 1), (ip(2, 3), 1)]);
}

#[test]
fn concat_minus_and_consolidate() {
    let mut ctx = CreationContext::new();
    let (mut a, ra) = ctx.new_input();
    let (mut b, rb) = ctx.new_input();
    let sa = ra.save(&mut ctx).unwrap();
    let sb = rb.save(&mut ctx).unwrap();
    let mut both = sa.get().concat(sb.get()).consolidate().into_output(&mut ctx).unwrap();
    let mut diff = sa.get().minus(sb.get()).into_output(&mut ctx).unwrap();
    let mut ctx = ctx.begin();
    a.add_all(&mut ctx, vec![num(1), num(2)]).unwrap();
    b.add_all(&mut ctx, vec![num(2), num(3)]).unwrap();
    ctx.commit().unwrap();
    assert_eq!(sorted(both.get(&mut ctx).unwrap()), vec![(num(1), 1), (num(2), 2), (num(3), 1)]);
    assert_eq!(sorted(diff.get(&mut ctx).unwrap()), vec![(num(1), 1), (num(3), -1)]);
}

#[test]
fn semijoin_intersection_set_minus() {
    let mut ctx = CreationContext::new();
    let (mut a, ra) = ctx.new_input();
    let (mut b, rb) = ctx.new_input();
    let (mut c, rc) = ctx.new_input();
    let sa = ra.save(&mut ctx).unwrap();
    let sb = rb.save(&mut ctx).unwrap();
    let sc = rc.save(&mut ctx).unwrap();
    let mut inter = sa.get().intersection(sb.get()).into_output(&mut ctx).unwrap();
    let mut minus = sa.get().set_minus(sb.get()).into_output(&mut ctx).unwrap();
    let mut semi = sc.get().semijoin(sb.get()).into_output(&mut ctx).unwrap();
    let mut ctx = ctx.begin();
    a.add_all(&mut ctx, vec![num(1), num(2), num(3)]).unwrap();
    b.add_all(&mut ctx, vec![num(2), num(3), num(4)]).unwrap();
    c.add_all(&mut ctx, vec![ip(3, 30), ip(5, 50)]).unwrap();
    ctx.commit().unwrap();
    assert_eq!(sorted(inter.get(&mut ctx).unwrap()), vec![(num(2), 1), (num(3), 1)]);
    assert_eq!(sorted(minus.get(&mut ctx).unwrap()), vec![(num(1), 1)]);
    assert_eq!(sorted(semi.get(&mut ctx).unwrap()), vec![(ip(3, 30), 1)]);
}

#[test]
fn left_join_fills_missing_with_nothing() {
    let mut ctx = CreationContext::new();
    let (mut a, ra) = ctx.new_input();
    let (mut b, rb) = ctx.new_input();
    let mut out = ra.left_join(rb, &mut ctx).unwrap().into_output(&mut ctx).unwrap();
    let mut ctx = ctx.begin();
    a.add_all(&mut ctx, vec![ip(1, 10), ip(2, 20)]).unwrap();
    b.add(&mut ctx, ip(1, 100)).unwrap();
    ctx.commit().unwrap();
    assert_eq!(
        sorted(out.get(&mut ctx).unwrap()),
        vec![
            (triple(num(1), num(10), Datum::Just(Box::new(num(100)))), 1),
            (triple(num(2), num(20), Datum::Nothing), 1),
        ]
    );
}

#[test]
fn triangles_of_three_relations() {
    let mut ctx = CreationContext::new();
    let (mut xy, r1) = ctx.new_input();
    let (mut xz, r2) = ctx.new_input();
    let (mut yz, r3) = ctx.new_input();
    let mut out = r1.triangles(r2, r3).into_output(&mut ctx).unwrap();
    let mut ctx = ctx.begin();
    xy.add_all(&mut ctx, vec![ip(1, 2), ip(1, 3)]).unwrap();
    xz.add(&mut ctx, ip(1, 4)).unwrap();
    yz.update(&mut ctx, ip(2, 4), 2).unwrap();
    ctx.commit().unwrap();
    assert_eq!(sorted(out.get(&mut ctx).unwrap()), vec![(triple(num(1), num(2), num(4)), 2)]);
}

#[test]
fn split_pairs_into_two_relations() {
    let mut ctx = CreationContext::new();
    let (mut inp, rel) = ctx.new_input();
    let (evens, odds) = rel.split(&mut ctx).unwrap();
    let mut evens = evens.into_output(&mut ctx).unwrap();
    let mut odds = odds.into_output(&mut ctx).unwrap();
    let mut ctx = ctx.begin();
    inp.add_all(&mut ctx, vec![ip(0, 1), ip(2, 3)]).unwrap();
    ctx.commit().unwrap();
    assert_eq!(sorted(evens.get(&mut ctx).unwrap()), vec![(num(0), 1), (num(2), 1)]);
    assert_eq!(sorted(odds.get(&mut ctx).unwrap()), vec![(num(1), 1), (num(3), 1)]);
}

#[test]
fn saved_relation_feeds_every_reader() {
    let mut ctx = CreationContext::new();
    let (mut inp, rel) = ctx.new_input();
    let saved = rel.save(&mut ctx).unwrap();
    let mut first = saved.get().into_output(&mut ctx).unwrap();
    let mut second = saved.get().fsts().into_output(&mut ctx).unwrap();
    let mut ctx = ctx.begin();
    inp.add(&mut ctx, ip(8, 9)).unwrap();
    ctx.commit().unwrap();
    assert_eq!(sorted(second.get(&mut ctx).unwrap()), vec![(num(8), 1)]);
    assert_eq!(sorted(first.get(&mut ctx).unwrap()), vec![(ip(8, 9), 1)]);
}

#[test]
fn saving_in_another_context_is_refused() {
    let mut ctx1 = CreationContext::new();
    let mut ctx2 = CreationContext::new();
    let (_inp, rel) = ctx1.new_input();
    let r = rel.save(&mut ctx2);
    assert_eq!(r.err(), Some(standing_relations::error::Error::ContextMismatch));
}

#[test]
fn reading_twice_without_a_commit_gives_the_same_result() {
    let mut ctx = CreationContext::new();
    let (mut left, l) = ctx.new_input();
    let (mut right, r) = ctx.new_input();
    let mut out = l.join(r).into_output(&mut ctx).unwrap();
    let mut ctx = ctx.begin();
    left.add(&mut ctx, ip(1, 10)).unwrap();
    right.add(&mut ctx, ip(1, 20)).unwrap();
    ctx.commit().unwrap();
    let first = sorted(out.get(&mut ctx).unwrap());
    let second = sorted(out.get(&mut ctx).unwrap());
    assert_eq!(first, vec![(triple(num(1), num(10), num(20)), 1)]);
    assert_eq!(first, second);
}

#[test]
fn every_read_after_a_commit_sees_everything_committed() {
    let mut ctx = CreationContext::new();
    let (mut left, l) = ctx.new_input();
    let (mut right, r) = ctx.new_input();
    let mut out = l.join(r).into_output(&mut ctx).unwrap();
    let mut ctx = ctx.begin();
    assert!(sorted(out.get(&mut ctx).unwrap()).is_empty());
    left.add(&mut ctx, ip(1, 10)).unwrap();
    ctx.commit().unwrap();
    assert!(sorted(out.get(&mut ctx).unwrap()).is_empty());
    ctx.commit().unwrap();
    assert!(sorted(out.get(&mut ctx).unwrap()).is_empty());
    right.add(&mut ctx, ip(1, 20)).unwrap();
    ctx.commit().unwrap();
    assert_eq!(sorted(out.get(&mut ctx).unwrap()), vec![(triple(num(1), num(10), num(20)), 1)]);
    ctx.commit().unwrap();
    assert_eq!(sorted(out.get(&mut ctx).unwrap()), vec![(triple(num(1), num(10), num(20)), 1)]);
}

#[test]
fn reading_one_output_leaves_another_whole() {
    let mut ctx = CreationContext::new();
    let (mut left, l) = ctx.new_input();
    let (mut right, r) = ctx.new_input();
    let mut joined = l.join(r).into_output(&mut ctx).unwrap();
    let (mut solo, s) = ctx.new_input();
    let mut plain = s.into_output(&mut ctx).unwrap();
    let mut ctx = ctx.begin();
    left.add(&mut ctx, ip(2, 3)).unwrap();
    solo.add(&mut ctx, num(7)).unwrap();
    ctx.commit().unwrap();
    assert_eq!(sorted(plain.get(&mut ctx).unwrap()), vec![(num(7), 1)]);
    right.add(&mut ctx, ip(2, 4)).unwrap();
    ctx.commit().unwrap();
    assert_eq!(sorted(plain.get(&mut ctx).unwrap()), vec![(num(7), 1)]);
    assert_eq!(sorted(joined.get(&mut ctx).unwrap()), vec![(triple(num(2), num(3), num(4)), 1)]);
    solo.remove(&mut ctx, num(7)).unwrap();
    ctx.commit().unwrap();
    assert_eq!(sorted(joined.get(&mut ctx).unwrap()), vec![(triple(num(2), num(3), num(4)), 1)]);
    assert!(sorted(plain.get(&mut ctx).unwrap()).is_empty());
}

#[test]
fn strings_as_elements() {
    assert_ne!(Datum::text("ab"), Datum::text("a"));
    assert_eq!(Datum::text(""), Datum::Nothing);
    let mut ctx = CreationContext::new();
    let (mut inp, rel) = ctx.new_input();
    let saved = rel.save(&mut ctx).unwrap();
    let mut dist = saved.get().distinct().into_output(&mut ctx).unwrap();
    let mut ctx = ctx.begin();
    inp.add_all(&mut ctx, vec![Datum::text("pear"), Datum::text("apple"), Datum::text("pear")]).unwrap();
    ctx.commit().unwrap();
    let got = sorted(dist.get(&mut ctx).unwrap());
    assert_eq!(got.len(), 2);
    assert!(got.contains(&(Datum::text("pear"), 1)));
    assert!(got.contains(&(Datum::text("apple"), 1)));
}

/// The characters of a string value made by `Datum::text`.
fn text_chars(d: &Datum) -> Vec<char> {
    let mut out = Vec::new();
    let mut cur = d;
    while let Datum::Pair(c, rest) = cur {
        if let Datum::Char(ch) = **c {
            out.push(ch);
        }
        cur = rest;
    }
    out
}

/// `(k, s)` to `(first character of s or 'x', length of s)`.
struct FirstAndLen;

impl DatumFn for FirstAndLen {
    fn spec_apply(&self, x: Datum) -> Datum {
        self.apply(&x)
    }

    fn apply(&self, x: &Datum) -> Datum {
        match x {
            Datum::Pair(_, s) => {
                let cs = text_chars(s);
                let first = cs.first().copied().unwrap_or('x');
                pair(Datum::Char(first), num(cs.len() as i64))
            },
            _ => x.clone(),
        }
    }
}

/// `(c, n, s)` to `(c, n + length of s)`.
struct AddLen;

impl DatumFn for AddLen {
    fn spec_apply(&self, x: Datum) -> Datum {
        self.apply(&x)
    }

    fn apply(&self, x: &Datum) -> Datum {
        match x {
            Datum::Triple(c, n, s) => match **n {
                Datum::Int(n) => pair((**c).clone(), num(n + text_chars(s).len() as i64)),
                _ => x.clone(),
            },
            _ => x.clone(),
        }
    }
}

fn cn(c: char, n: i64) -> Datum {
    pair(Datum::Char(c), num(n))
}

fn cs(c: char, s: &str) -> Datum {
    pair(Datum::Char(c), Datum::text(s))
}

#[test]
fn getting_started_example() {
    let mut context = CreationContext::new();
    let (mut input1, relation1) = context.new_input();
    let (mut input2, relation2) = context.new_input();
    let foo = relation2.save(&mut context).unwrap();
    let bar = relation1.join(foo.get());
    let baz = foo.get().map(Box::new(FirstAndLen));
    let qux = bar.map(Box::new(AddLen)).concat(baz).distinct();
    let mut arrangement = qux.into_output(&mut context).unwrap();
    let mut context = context.begin();
    input1.add(&mut context, cn('a', 5)).unwrap();
    input1.add(&mut context, cn('b', 6)).unwrap();
    input2.add(&mut context, cs('b', "Hello")).unwrap();
    input2.add(&mut context, cs('b', "world")).unwrap();
    context.commit().unwrap();
    assert_eq!(
        sorted(arrangement.get(&mut context).unwrap()),
        vec![(cn('H', 5), 1), (cn('b', 11), 1), (cn('w', 5), 1)]
    );
    input1.remove(&mut context, cn('b', 6)).unwrap();
    input2.add(&mut context, cs('a', "Goodbye")).unwrap();
    context.commit().unwrap();
    assert_eq!(
        sorted(arrangement.get(&mut context).unwrap()),
        vec![(cn('G', 7), 1), (cn('H', 5), 1), (cn('a', 12), 1), (cn('w', 5), 1)]
    );
}
