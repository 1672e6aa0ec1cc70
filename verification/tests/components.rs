use standing_relations::antijoin::AntiJoin;
use standing_relations::context::Context;
use standing_relations::count_map::{CountMap, Pipe};
use standing_relations::counts::{consolidate_deltas, CountOverflow, Counts};
use standing_relations::datum::Datum;
use standing_relations::dirty::{self, DirtyGraph};
use standing_relations::error::Error;
use standing_relations::execution::{CreationContext, Input_};
use standing_relations::feedback::PQReceiver;
use standing_relations::handler_queue::HandlerQueue;
use standing_relations::join::Join;
use standing_relations::ordered_pipe::OrderedPipe;
use standing_relations::output::Output;
use standing_relations::relation::{RelOp, Relation};
use standing_relations::pipes::{self, Counters, Pipes};
use standing_relations::rc_collection::RcCollection;
use standing_relations::reduce::{Reduce, ReduceOp};
use standing_relations::tracking::ContextTracker;
use standing_relations::triangles::{intersection, BiMap, Triangles};
use standing_relations::value_map::{InsertResult, OutputMap, ValueMap};

fn num(i: i64) -> Datum {
    Datum::Int(i)
}

fn np(a: i64, b: i64) -> Datum {
    Datum::pair(num(a), num(b))
}

fn total(out: &[(Datum, isize)], d: &Datum) -> isize {
    out.iter().filter(|(x, _)| x == d).map(|(_, c)| *c).sum()
}

#[test]
fn values_are_ordered_by_variant_then_contents() {
    assert!(Datum::Unit.le(&Datum::Bool(false)));
    assert!(Datum::Bool(true).le(&num(-5)));
    assert!(num(-5).le(&num(3)));
    assert!(!num(3).le(&num(-5)));
    assert!(np(1, 9).le(&np(2, 0)));
    assert!(np(1, 2).le(&np(1, 3)));
    assert!(Datum::Nothing.le(&Datum::Just(Box::new(num(0)))));
    assert!(num(4).le(&num(4)));
}

#[test]
fn counts_drop_zero_entries_and_refuse_overflow() {
    let mut c = Counts::new();
    c.add(num(1), 3).unwrap();
    c.add(num(1), -3).unwrap();
    assert!(c.is_empty());
    assert_eq!(c.len(), 0);
    c.add(num(2), isize::MAX).unwrap();
    assert_eq!(c.add(num(2), 1), Err(CountOverflow));
    assert_eq!(c.get(&num(2)), isize::MAX);
}

#[test]
fn consolidate_sums_each_element_once() {
    let batch = vec![(num(1), 2), (num(2), 1), (num(1), -2), (num(2), 4)];
    let m = consolidate_deltas(&batch).unwrap();
    assert_eq!(m.entries, vec![(num(2), 5)]);
}

#[test]
fn join_step_emits_the_change_of_the_product() {
    let mut j = Join::new();
    let out = j.step(&vec![(np(1, 10), 2)], &vec![(np(1, 20), 3)]).unwrap();
    let t = Datum::triple(num(1), num(10), num(20));
    assert_eq!(total(&out, &t), 6);
    let out = j.step(&vec![(np(1, 10), -1)], &vec![]).unwrap();
    assert_eq!(total(&out, &t), -3);
    let out = j.step(&vec![], &vec![]).unwrap();
    assert!(out.is_empty());
}

#[test]
fn antijoin_step_follows_the_keys_of_the_right() {
    let mut a = AntiJoin::new();
    let out = a.step(&vec![(np(1, 10), 1), (np(2, 20), 1)], &vec![]).unwrap();
    assert_eq!(total(&out, &np(1, 10)), 1);
    assert_eq!(total(&out, &np(2, 20)), 1);
    let out = a.step(&vec![], &vec![(num(1), 1)]).unwrap();
    assert_eq!(total(&out, &np(1, 10)), -1);
    assert_eq!(total(&out, &np(2, 20)), 0);
}

#[test]
fn reduce_step_replaces_the_result_of_a_key() {
    let mut r = Reduce::new(ReduceOp::GroupMin);
    let out = r.step(&vec![(np(1, 5), 1), (np(1, 3), 1)]).unwrap();
    assert_eq!(total(&out, &np(1, 3)), 1);
    let out = r.step(&vec![(np(1, 3), -1)]).unwrap();
    assert_eq!(total(&out, &np(1, 3)), -1);
    assert_eq!(total(&out, &np(1, 5)), 1);
    let out = r.step(&vec![(np(1, 5), -1)]).unwrap();
    assert_eq!(total(&out, &np(1, 5)), -1);
    let mut c = Reduce::new(ReduceOp::CountOf);
    let out = c.step(&vec![(Datum::pair(num(7), Datum::Unit), 4)]).unwrap();
    assert_eq!(total(&out, &np(7, 4)), 1);
}

#[test]
fn triangles_step_and_bimap() {
    let mut b = BiMap::new();
    b.add_pair(&num(1), &num(2), 2).unwrap();
    assert_eq!(b.get_forward(&num(1)).get(&num(2)), 2);
    assert_eq!(b.get_backward(&num(2)).get(&num(1)), 2);
    let mut l = Counts::new();
    l.add(num(1), 2).unwrap();
    l.add(num(2), 5).unwrap();
    let mut r = Counts::new();
    r.add(num(2), 3).unwrap();
    let i = intersection(&l, &r);
    assert_eq!(i.len(), 1);
    assert_eq!(i[0].0, num(2));
    let mut t = Triangles::new();
    let out = t
        .step(&vec![(np(1, 2), 1)], &vec![(np(1, 3), 2)], &vec![(np(2, 3), 3)])
        .unwrap();
    assert_eq!(total(&out, &Datum::triple(num(1), num(2), num(3))), 6);
}

#[test]
fn value_map_reports_how_an_insert_went() {
    let mut m = ValueMap::new();
    assert!(matches!(m.insert_if_different(num(1), num(10)), InsertResult::NoOldValue));
    assert!(matches!(m.insert_if_different(num(1), num(10)), InsertResult::Unchanged));
    assert!(matches!(m.insert_if_different(num(1), num(11)), InsertResult::OldValue(_)));
    assert_eq!(m.get(&num(1)), Some(num(11)));
    assert_eq!(m.remove(&num(1)), Some(num(11)));
    assert_eq!(m.get(&num(1)), None);
}

#[test]
fn pipes_give_back_what_was_sent() {
    let mut p: Pipes<usize> = Pipes::empty();
    let (s, r) = pipes::new(&mut p);
    s.send(&mut p, 4);
    s.send_all(&mut p, vec![5, 6]);
    assert_eq!(r.receive(&mut p), vec![4, 5, 6]);
    assert!(r.receive(&mut p).is_empty());
    let mut counters = Counters { counts: Vec::new() };
    let (cs, cr) = pipes::new_count(&mut counters);
    cs.increment(&mut counters);
    cs.increment(&mut counters);
    assert_eq!(cr.get(&counters), 2);
}

#[test]
fn rc_collection_keeps_each_element_once() {
    let mut c = RcCollection::singleton(3);
    assert!(!c.insert(3));
    assert!(c.insert(4));
    c.extend(RcCollection::singleton(4));
    assert_eq!(c.to_vec(), vec![3, 4]);
    assert!(c.contains(4));
    assert!(!RcCollection::new().contains(4));
}

#[test]
fn dirty_flags_reach_every_receiver_downstream() {
    let mut g = DirtyGraph::new();
    let (send, builder) = dirty::new(&mut g);
    let first = builder.into_receive(&mut g);
    let second = first.add_target().into_receive(&mut g);
    second.add_listener(&mut g, 42);
    send.set_dirty(&mut g);
    assert_eq!(g.notified, vec![42]);
    assert!(second.take_status(&mut g));
    assert!(!second.take_status(&mut g));
    assert!(first.take_status(&mut g));
}

#[test]
fn handler_queue_takes_each_queued_handler_once_in_order() {
    let mut q = HandlerQueue::new();
    let a = q.add_handler(0);
    let b = q.add_handler(1);
    q.enqueue(b);
    q.enqueue(a);
    q.enqueue(b);
    assert_eq!(q.take_queued(), vec![b, a]);
    assert!(q.take_queued().is_empty());
}

#[test]
fn tracker_shows_hidden_relations_through_their_dependency() {
    let mut t = ContextTracker::new();
    let i = t.add_relation("input".to_string(), vec![]);
    let m = t.add_relation("map".to_string(), vec![i.0]);
    t.set_hidden(m.0);
    assert_eq!(t.find_shown_index(m.0).0, i.0);
    assert_eq!(t.find_shown_index(i.0).0, i.0);
}

#[test]
fn ordered_pipe_skips_keys_that_cancel_out() {
    let mut p = OrderedPipe::empty();
    p.add(np(1, 10), 1).unwrap();
    p.add(np(1, 10), -1).unwrap();
    p.add(np(3, 30), 1).unwrap();
    p.add(np(2, 20), 2).unwrap();
    let (k, m) = p.receive().unwrap().unwrap();
    assert_eq!(k, num(2));
    assert_eq!(m.entries, vec![(num(20), 2)]);
    let (k, _) = p.receive().unwrap().unwrap();
    assert_eq!(k, num(3));
    assert!(p.receive().unwrap().is_none());
}

#[test]
fn pipe_map_keeps_changes_in_order() {
    let mut p = Pipe::empty();
    p.add(num(1), 1).unwrap();
    p.add_all(&vec![(num(2), -1)]).unwrap();
    assert_eq!(p.receive(), vec![(num(1), 1), (num(2), -1)]);
    assert!(p.take().is_empty());
}

#[test]
fn pq_receiver_hands_out_the_least_first() {
    let mut q = PQReceiver::new();
    q.insert(5);
    assert_eq!(q.pop_min(vec![3, 9]), Some(3));
    assert_eq!(q.pop_min(vec![]), Some(5));
    assert_eq!(q.pop_min(vec![]), Some(9));
    assert_eq!(q.pop_min(vec![]), None);
}

#[test]
fn commit_moves_pending_changes_to_the_input_buffer() {
    let mut c = Context::new(1);
    let (j, node, _) = c.add_input();
    let input = Input_ { context: 1, index: j, node };
    input.push_all(&mut c, vec![(num(1), 1), (num(2), 1)]).unwrap();
    assert_eq!(c.inputs[j].pending.len(), 2);
    c.commit();
    assert!(c.inputs[j].pending.is_empty());
    let bad = Input_ { context: 1, index: 9, node };
    assert_eq!(bad.push_all(&mut c, vec![]), Err(Error::ContextMismatch));
}

#[test]
fn failed_contexts_refuse_further_work() {
    let mut ctx = CreationContext::new();
    let (inp, rel) = ctx.new_input();
    let mut out = rel.into_output(&mut ctx).unwrap();
    let mut ctx = ctx.begin();
    inp.send(&mut ctx, (num(1), isize::MAX)).unwrap();
    inp.send(&mut ctx, (num(1), 1)).unwrap();
    ctx.commit().unwrap();
    assert_eq!(out.get(&mut ctx).err(), Some(Error::CountOverflow));
    assert_eq!(ctx.commit(), Err(Error::Failed));
    assert_eq!(inp.send(&mut ctx, (num(2), 1)), Err(Error::Failed));
}

#[test]
fn a_node_is_read_by_one_relation_only() {
    let mut c = Context::new(1);
    let (_, node, send) = c.add_input();
    let mut stray: Output<Counts> = Output::new(1, node, send);
    assert_eq!(stray.refresh(&mut c).err(), Some(Error::ContextMismatch));
    let first = Relation::from_op(RelOp::Existing { context: 1, node, source: send });
    let (n, d) = c.connect(first).unwrap();
    assert_eq!(n, node);
    let again = Relation::from_op(RelOp::Existing { context: 1, node, source: send });
    assert_eq!(c.connect(again).err(), Some(Error::ContextMismatch));
    let mut out: Output<Counts> = Output::new(1, n, d);
    assert_eq!(out.refresh(&mut c), Ok(None));
}

#[test]
fn commit_leaves_outputs_alone_until_they_are_read() {
    let mut ctx = CreationContext::new();
    let (inp, rel) = ctx.new_input();
    let mut out = rel.into_output(&mut ctx).unwrap();
    let mut ctx = ctx.begin();
    inp.send(&mut ctx, (num(4), 2)).unwrap();
    ctx.commit().unwrap();
    assert!(out.data.entries.is_empty());
    assert_eq!(out.get(&mut ctx).unwrap().get(&num(4)), 2);
}

#[test]
fn an_input_relation_must_name_its_own_dirty_node() {
    let mut c = Context::new(1);
    let (_, node, send) = c.add_input();
    let (_, _, other_send) = c.add_input();
    assert_ne!(send, other_send);
    let forged = Relation::from_op(RelOp::Existing { context: 1, node, source: other_send });
    assert_eq!(c.connect(forged).err(), Some(Error::ContextMismatch));
    let genuine = Relation::from_op(RelOp::Existing { context: 1, node, source: send });
    assert!(c.connect(genuine).is_ok());
}

#[test]
fn to_receive_is_into_receive() {
    let mut g = DirtyGraph::new();
    let (send, builder) = dirty::new(&mut g);
    let recv = builder.to_receive(&mut g);
    assert_eq!(recv.id, 1);
    send.set_dirty(&mut g);
    assert!(recv.take_status(&mut g));
    assert!(!recv.take_status(&mut g));
}

#[test]
fn a_saved_relation_copies_as_a_handle() {
    let mut ctx = CreationContext::new();
    let (inp, rel) = ctx.new_input();
    let saved = rel.save(&mut ctx).unwrap();
    let copy = saved.clone();
    assert_eq!(copy.node, saved.node);
    assert_eq!(copy.source, saved.source);
    let mut a = saved.get().into_output(&mut ctx).unwrap();
    let mut b = copy.get().into_output(&mut ctx).unwrap();
    let mut ctx = ctx.begin();
    inp.send(&mut ctx, (num(3), 2)).unwrap();
    ctx.commit().unwrap();
    assert_eq!(a.get(&mut ctx).unwrap().get(&num(3)), 2);
    assert_eq!(b.get(&mut ctx).unwrap().get(&num(3)), 2);
}

#[test]
fn a_read_that_only_passes_changes_on_fails_only_when_the_output_overflows() {
    let mut ctx = CreationContext::new();
    let (a, ra) = ctx.new_input();
    let (b, rb) = ctx.new_input();
    let saved = ra.save(&mut ctx).unwrap();
    let mut out = saved.get().concat(rb).into_output(&mut ctx).unwrap();
    let mut ctx = ctx.begin();
    a.send(&mut ctx, (num(1), isize::MAX)).unwrap();
    b.send(&mut ctx, (num(2), isize::MAX)).unwrap();
    ctx.commit().unwrap();
    let m = out.get(&mut ctx).unwrap();
    assert_eq!(m.get(&num(1)), isize::MAX);
    assert_eq!(m.get(&num(2)), isize::MAX);
    b.send(&mut ctx, (num(1), 1)).unwrap();
    ctx.commit().unwrap();
    assert_eq!(out.get(&mut ctx).err(), Some(Error::CountOverflow));
    assert_eq!(out.get(&mut ctx).err(), Some(Error::Failed));
}

#[test]
fn a_clean_output_reads_without_failing() {
    let mut ctx = CreationContext::new();
    let (a, ra) = ctx.new_input();
    let mut out = ra.into_output(&mut ctx).unwrap();
    let mut ctx = ctx.begin();
    a.send(&mut ctx, (num(3), isize::MAX)).unwrap();
    ctx.commit().unwrap();
    assert_eq!(out.get(&mut ctx).unwrap().get(&num(3)), isize::MAX);
    assert_eq!(out.get(&mut ctx).unwrap().get(&num(3)), isize::MAX);
}
