use standing_relations::counts::Counts;
use standing_relations::datum::Datum;
use standing_relations::execution::CreationContext;
use standing_relations::feedback::InterruptFn;
use standing_relations::fns::DatumFn;

fn num(i: i64) -> Datum {
    Datum::Int(i)
}

fn np(a: i64, b: i64) -> Datum {
    Datum::pair(num(a), num(b))
}

fn sorted(c: &Counts) -> Vec<(Datum, isize)> {
    let mut v: Vec<(Datum, isize)> = c.entries.iter().map(|(d, n)| (d.clone(), *n)).collect();
    v.sort_by(|a, b| {
        if a.0.le(&b.0) {
            if b.0.le(&a.0) {
                std::cmp::Ordering::Equal
            } else {
                std::cmp::Ordering::Less
            }
        } else {
            std::cmp::Ordering::Greater
        }
    });
    v
}

/// `(a, ((), b))` to `b`.
struct Target;

impl DatumFn for Target {
    fn spec_apply(&self, x: Datum) -> Datum {
        self.apply(&x)
    }

    fn apply(&self, x: &Datum) -> Datum {
        match x {
            Datum::Triple(_, _, b) => (**b).clone(),
            _ => x.clone(),
        }
    }
}

/// `n` to `n + 1`, up to 5.
struct Next;

impl DatumFn for Next {
    fn spec_apply(&self, x: Datum) -> Datum {
        self.apply(&x)
    }

    fn apply(&self, x: &Datum) -> Datum {
        match x {
            Datum::Int(i) if *i < 5 => Datum::Int(i + 1),
            _ => x.clone(),
        }
    }
}

/// The number of distinct elements.
struct Size;

impl InterruptFn for Size {
    fn spec_call(&self, m: Counts) -> Datum {
        self.call(&m)
    }

    fn call(&self, m: &Counts) -> Datum {
        Datum::Int(m.entries.len() as i64)
    }
}

#[test]
fn feed_computes_reachable_nodes() {
    let mut ctx = CreationContext::new();
    let (mut edges, edges_rel) = ctx.new_input();
    let (mut reach, reach_rel) = ctx.new_input();
    let reach_saved = reach_rel.save(&mut ctx).unwrap();
    let mut out = reach_saved.get().distinct().into_output(&mut ctx).unwrap();
    // the targets of edges from reached nodes
    let step = reach_saved
        .get()
        .distinct()
        .map_h(Box::new(Identity))
        .join(edges_rel)
        .map(Box::new(Target))
        .distinct();
    ctx.feed(step, reach).unwrap();
    let mut ctx = ctx.begin();
    edges.add_all(&mut ctx, vec![np(1, 2), np(2, 3), np(3, 1), np(4, 5)]).unwrap();
    reach.add(&mut ctx, num(1)).unwrap();
    assert!(ctx.commit().unwrap().is_none());
    assert_eq!(sorted(out.get(&mut ctx).unwrap()), vec![(num(1), 1), (num(2), 1), (num(3), 1)]);
}

/// `x` to `(x, ())`.
struct Identity;

impl DatumFn for Identity {
    fn spec_apply(&self, x: Datum) -> Datum {
        self.apply(&x)
    }

    fn apply(&self, x: &Datum) -> Datum {
        Datum::pair(x.clone(), Datum::Unit)
    }
}

#[test]
fn feed_while_keeps_visited_values() {
    let mut ctx = CreationContext::new();
    let (mut start, start_rel) = ctx.new_input();
    let (visited, visited_rel) = ctx.new_input();
    let visited_saved = visited_rel.save(&mut ctx).unwrap();
    let mut out = visited_saved.get().distinct().into_output(&mut ctx).unwrap();
    let frontier = start_rel
        .concat(visited_saved.get().map(Box::new(Next)))
        .distinct()
        .set_minus(visited_saved.get())
        .into_output(&mut ctx)
        .unwrap();
    ctx.feed_while(frontier, visited).unwrap();
    let mut ctx = ctx.begin();
    start.add(&mut ctx, num(2)).unwrap();
    assert!(ctx.commit().unwrap().is_none());
    assert_eq!(sorted(out.get(&mut ctx).unwrap()), vec![(num(2), 1), (num(3), 1), (num(4), 1), (num(5), 1)]);
}

#[test]
fn interrupt_hands_out_its_value() {
    let mut ctx = CreationContext::new();
    let (mut inp, rel) = ctx.new_input();
    let out = rel.into_output(&mut ctx).unwrap();
    ctx.interrupt(out, Box::new(Size)).unwrap();
    let mut ctx = ctx.begin();
    assert!(ctx.commit().unwrap().is_none());
    inp.add_all(&mut ctx, vec![num(1), num(2)]).unwrap();
    assert_eq!(ctx.commit().unwrap(), Some(num(2)));
}

#[test]
fn feed_ordered_feeds_the_least_key_first() {
    let mut ctx = CreationContext::new();
    let (mut candidates, cand_rel) = ctx.new_input();
    let (chosen, chosen_rel) = ctx.new_input();
    let mut out = chosen_rel.into_output(&mut ctx).unwrap();
    ctx.feed_ordered(cand_rel, chosen).unwrap();
    let mut ctx = ctx.begin();
    candidates.add_all(&mut ctx, vec![np(2, 20), np(1, 10), np(1, 11)]).unwrap();
    assert!(ctx.commit().unwrap().is_none());
    // both keys reach the input, the least one first
    assert_eq!(sorted(out.get(&mut ctx).unwrap()), vec![(num(10), 1), (num(11), 1), (num(20), 1)]);
}

#[test]
fn first_occurences_keeps_the_first_value_of_each_key() {
    let mut ctx = CreationContext::new();
    let (mut inp, rel) = ctx.new_input();
    let firsts = rel.first_occurences(&mut ctx).unwrap();
    let mut out = firsts.into_output(&mut ctx).unwrap();
    let mut ctx = ctx.begin();
    inp.add(&mut ctx, np(1, 10)).unwrap();
    ctx.commit().unwrap();
    inp.add(&mut ctx, np(1, 11)).unwrap();
    inp.add(&mut ctx, np(2, 20)).unwrap();
    ctx.commit().unwrap();
    assert_eq!(sorted(out.get(&mut ctx).unwrap()), vec![(np(1, 10), 1), (np(2, 20), 1)]);
}

#[test]
fn probe_shows_reduce_results() {
    let mut ctx = CreationContext::new();
    let (mut inp, rel) = ctx.new_input();
    let probe = rel.group_max().probe(&mut ctx).unwrap();
    let mut ctx = ctx.begin();
    inp.add_all(&mut ctx, vec![np(1, 3), np(1, 7), np(2, 4)]).unwrap();
    ctx.commit().unwrap();
    let m = probe.inspect(&mut ctx).unwrap();
    assert_eq!(m.get(&num(1)), Some(num(7)));
    assert_eq!(m.get(&num(2)), Some(num(4)));
    assert_eq!(m.get(&num(3)), None);
}

#[test]
fn names_go_to_the_shown_relation() {
    let mut ctx = CreationContext::new();
    let (_inp, rel) = ctx.new_input();
    let out = rel.named("source").fsts().named("firsts").into_output(&mut ctx).unwrap();
    let tracker = ctx.tracker();
    let input_node = &tracker.infos[0];
    assert_eq!(input_node.name.as_deref(), Some("firsts"));
    assert_eq!(input_node.kind_name, "input");
    let map_node = &tracker.infos[out.node];
    assert!(map_node.hidden);
    assert_eq!(map_node.kind_name, "map");
}

#[test]
fn feed_once_feeds_each_change_once() {
    let mut ctx = CreationContext::new();
    let (mut edges, edges_rel) = ctx.new_input();
    let (mut reach, reach_rel) = ctx.new_input();
    let reach_saved = reach_rel.save(&mut ctx).unwrap();
    let mut out = reach_saved.get().distinct().into_output(&mut ctx).unwrap();
    let step = reach_saved
        .get()
        .distinct()
        .map_h(Box::new(Identity))
        .join(edges_rel)
        .map(Box::new(Target))
        .distinct();
    ctx.feed_once(step, reach).unwrap();
    assert_eq!(ctx.feeders.len(), 1);
    let mut ctx = ctx.begin();
    edges.add_all(&mut ctx, vec![np(1, 2), np(2, 3), np(4, 5)]).unwrap();
    reach.add(&mut ctx, num(1)).unwrap();
    assert!(ctx.commit().unwrap().is_none());
    assert_eq!(sorted(out.get(&mut ctx).unwrap()), vec![(num(1), 1), (num(2), 1), (num(3), 1)]);
}
