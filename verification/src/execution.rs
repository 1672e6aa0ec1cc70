use vstd::prelude::*;
use std::collections::hash_map::RandomState;
use std::hash::BuildHasher;
use crate::datum::{Datum, Delta};
use crate::counts::Counts;
use crate::context::{Context, InputState, committed, grown, lemma_grown_trans, lemma_grown_refl, attachable, first_announces};
use crate::graph::{Node, safe_pull, pulled_shape, same_kind, emitted, inputs_drained, flags_kept_but};
use crate::relation::{Relation, RelOp, plain};
use crate::tracking::{ContextTracker, TrackIndex};
use crate::count_map::{CountMap, Pipe, KvCounts};
use crate::ordered_pipe::OrderedPipe;
use crate::output::{Output, pulled_from, lemma_emitted, ready_at, lemma_ready_committed, lemma_ready_notified, lemma_ready_kept_trans};
use crate::feedback::{Feeder, Feedback, FeedbackOrdered, FeedbackWhile, FeedbackWithCommitIdWhile, Interrupter, InterruptFn, Instruct, PQReceiver, feeders_ok};
use crate::value_map::{ValueMap, OutputMap};
use crate::dirty::{DirtyReceive, turned_dirty, listeners_of};
use crate::error::Error;

verus! {

/// `RandomState::new`: a hasher state whose keys are drawn at random. Nothing
/// is claimed of the result.
#[verifier::external_body]
fn random_state() -> (r: RandomState) {
    RandomState::new()
}

/// `BuildHasher::hash_one` on a `RandomState`: the hash of `x` under the
/// state's random keys. Nothing is claimed of the result.
#[verifier::external_body]
fn hash_under(s: &RandomState, x: u64) -> (r: u64) {
    s.hash_one(x)
}

/// A number that tells this context apart from others: the hash of 0 under
/// fresh random keys.
fn fresh_context_id() -> u64 {
    let s = random_state();
    hash_under(&s, 0)
}

/// An input of a context: changes sent to it reach its relation at the next commit.
#[derive(Clone, Copy)]
pub struct Input_ {
    pub context: u64,
    pub index: usize,
    pub node: usize,
}

/// An input of a context, whose changes are pairs of an element and a count.
pub type Input = Input_;

impl Input_ {
    /// Appends `data` to what was sent to the input, and queues the input
    /// for the next commit.
    ///
    /// Fails with `ContextMismatch`, changing nothing, when the context has
    /// no such input.
    pub fn push_all(&self, core: &mut Context, data: Vec<Delta>) -> (r: Result<(), Error>)
        requires
            old(core).wf(),
        ensures
            final(core).wf(),
            r is Ok <==> self.index < old(core).inputs@.len(),
            r is Err ==> r->Err_0 is ContextMismatch && *final(core) == *old(core),
            r is Ok ==> {
                &&& final(core).id == old(core).id
                &&& final(core).graph == old(core).graph
                &&& final(core).inputs@.len() == old(core).inputs@.len()
                &&& final(core).inputs@[self.index as int].pending@ == old(core).inputs@[self.index as int].pending@
                    + data@
                &&& final(core).inputs@[self.index as int].node == old(core).inputs@[self.index as int].node
                &&& final(core).inputs@[self.index as int].send == old(core).inputs@[self.index as int].send
                &&& forall|j: int| 0 <= j < old(core).inputs@.len() && j != self.index ==> #[trigger] final(core).inputs@[j]
                    == old(core).inputs@[j]
                &&& final(core).handlers.handlers@[self.index as int].is_queued
            },
    {
        if self.index >= core.inputs.len() {
            return Err(Error::ContextMismatch);
        }
        let ghost c0 = *core;
        let i = self.index;
        let mut data = data;
        let node = core.inputs[i].node;
        let send = core.inputs[i].send;
        let mut st = InputState { node, send, pending: Vec::new() };
        std::mem::swap(&mut st, &mut core.inputs[i]);
        st.pending.append(&mut data);
        std::mem::swap(&mut st, &mut core.inputs[i]);
        core.handlers.enqueue(i);
        proof {
            assert(core.handlers.inputs().len() == core.handlers.handlers@.len());
            assert(c0.handlers.inputs().len() == c0.handlers.handlers@.len());
            assert(core.handlers.handlers@[i as int].is_queued <==> core.handlers.queued_handler_inds@.contains(i));
            if !c0.handlers.queued_handler_inds@.contains(i) {
                assert(core.handlers.queued_handler_inds@.last() == i);
            }
            assert forall|j: int| 0 <= j < core.inputs@.len() implies #[trigger] core.input_ok(j) by {
                assert(c0.input_ok(j));
                if j != i {
                    assert(core.inputs@[j] == c0.inputs@[j]);
                    let ju = j as usize;
                    assert(c0.handlers.handlers@[ju as int].is_queued <==> c0.handlers.queued_handler_inds@.contains(ju));
                    assert(core.handlers.handlers@[ju as int].is_queued <==> core.handlers.queued_handler_inds@.contains(ju));
                    if c0.handlers.queued_handler_inds@.contains(ju) {
                        let k = choose|k: int| 0 <= k < c0.handlers.queued_handler_inds@.len() && c0.handlers.queued_handler_inds@[k] == ju;
                        assert(core.handlers.queued_handler_inds@[k] == ju);
                    }
                }
            }
            assert forall|j: int, k: int|
                #![trigger core.input_buffer(j), core.input_buffer(k)]
                0 <= j < core.inputs@.len() && 0 <= k < core.inputs@.len() && j != k implies core.input_buffer(j)
                    != core.input_buffer(k) by {
                assert(c0.input_buffer(j) != c0.input_buffer(k));
            }
        }
        Ok(())
    }

    /// Sends the change `x` (an element with a count) to the input.
    ///
    /// Fails, changing nothing, with `Failed` when an earlier operation left
    /// the context unusable, and with `ContextMismatch` when the context has
    /// no such input.
    pub fn send(&self, ctx: &mut ExecutionContext, x: Delta) -> (r: Result<(), Error>)
        requires
            old(ctx).wf(),
            self.context == old(ctx).core.id,
        ensures
            final(ctx).wf(),
            r is Ok <==> !old(ctx).failed && self.index < old(ctx).core.inputs@.len(),
            r is Err ==> *final(ctx) == *old(ctx),
            r is Ok ==> ctx_sent(*final(ctx), *old(ctx), self.index, seq![x]),
    {
        let mut v: Vec<Delta> = Vec::new();
        v.push(x);
        self.send_all(ctx, v)
    }

    /// Sends every change of `data`, in order, to the input.
    ///
    /// Fails as `send` does.
    pub fn send_all(&self, ctx: &mut ExecutionContext, data: Vec<Delta>) -> (r: Result<(), Error>)
        requires
            old(ctx).wf(),
            self.context == old(ctx).core.id,
        ensures
            final(ctx).wf(),
            r is Ok <==> !old(ctx).failed && self.index < old(ctx).core.inputs@.len(),
            r is Err ==> *final(ctx) == *old(ctx),
            r is Ok ==> ctx_sent(*final(ctx), *old(ctx), self.index, data@),
    {
        if ctx.failed {
            return Err(Error::Failed);
        }
        self.push_all(&mut ctx.core, data)
    }

    /// The index of the input's relation in the context's tracker.
    pub fn get_track_index(&self) -> (r: TrackIndex)
        ensures
            r.0 == self.node,
    {
        TrackIndex(self.node)
    }

    /// The same as `get_track_index`.
    pub fn tracking_index(&self) -> (r: usize)
        ensures
            r == self.node,
    {
        self.node
    }
}

/// The changes `(x, count)` for each `x` of `xs`, in order.
pub open spec fn with_each_count(xs: Seq<Datum>, count: isize) -> Seq<Delta> {
    xs.map_values(|x: Datum| (x, count))
}

fn counted(xs: Vec<Datum>, count: isize) -> (r: Vec<Delta>)
    ensures
        r@ == with_each_count(xs@, count),
{
    let mut out: Vec<Delta> = Vec::new();
    let mut i: usize = 0;
    while i < xs.len()
        invariant
            i <= xs@.len(),
            out@ == with_each_count(xs@.take(i as int), count),
        decreases xs@.len() - i,
    {
        out.push((xs[i].duplicate(), count));
        assert(with_each_count(xs@.take(i as int + 1), count) =~= with_each_count(xs@.take(i as int), count).push(
            (xs@[i as int], count),
        ));
        i = i + 1;
    }
    assert(xs@.take(xs@.len() as int) =~= xs@);
    out
}

impl Input {
    /// Sends `r` copies of `x` (removes them when `r` is negative).
    pub fn update(&mut self, ctx: &mut ExecutionContext, x: Datum, r: isize) -> (res: Result<(), Error>)
        requires
            old(ctx).wf(),
            old(self).context == old(ctx).core.id,
        ensures
            *final(self) == *old(self),
            final(ctx).wf(),
            res is Ok <==> !old(ctx).failed && old(self).index < old(ctx).core.inputs@.len(),
            res is Err ==> *final(ctx) == *old(ctx),
            res is Ok ==> ctx_sent(*final(ctx), *old(ctx), old(self).index, seq![(x, r)]),
    {
        self.send(ctx, (x, r))
    }

    /// Sends one copy of `x`.
    pub fn add(&mut self, ctx: &mut ExecutionContext, x: Datum) -> (res: Result<(), Error>)
        requires
            old(ctx).wf(),
            old(self).context == old(ctx).core.id,
        ensures
            *final(self) == *old(self),
            final(ctx).wf(),
            res is Ok <==> !old(ctx).failed && old(self).index < old(ctx).core.inputs@.len(),
            res is Err ==> *final(ctx) == *old(ctx),
            res is Ok ==> ctx_sent(*final(ctx), *old(ctx), old(self).index, seq![(x, 1isize)]),
    {
        self.update(ctx, x, 1)
    }

    /// Removes one copy of `x`.
    pub fn remove(&mut self, ctx: &mut ExecutionContext, x: Datum) -> (res: Result<(), Error>)
        requires
            old(ctx).wf(),
            old(self).context == old(ctx).core.id,
        ensures
            *final(self) == *old(self),
            final(ctx).wf(),
            res is Ok <==> !old(ctx).failed && old(self).index < old(ctx).core.inputs@.len(),
            res is Err ==> *final(ctx) == *old(ctx),
            res is Ok ==> ctx_sent(*final(ctx), *old(ctx), old(self).index, seq![(x, -1isize)]),
    {
        self.update(ctx, x, -1)
    }

    /// Sends one copy of each element of `data`, in order.
    pub fn add_all(&mut self, ctx: &mut ExecutionContext, data: Vec<Datum>) -> (res: Result<(), Error>)
        requires
            old(ctx).wf(),
            old(self).context == old(ctx).core.id,
        ensures
            *final(self) == *old(self),
            final(ctx).wf(),
            res is Ok <==> !old(ctx).failed && old(self).index < old(ctx).core.inputs@.len(),
            res is Err ==> *final(ctx) == *old(ctx),
            res is Ok ==> ctx_sent(*final(ctx), *old(ctx), old(self).index, with_each_count(data@, 1isize)),
    {
        let v = counted(data, 1);
        self.send_all(ctx, v)
    }

    /// Removes one copy of each element of `data`, in order.
    pub fn remove_all(&mut self, ctx: &mut ExecutionContext, data: Vec<Datum>) -> (res: Result<(), Error>)
        requires
            old(ctx).wf(),
            old(self).context == old(ctx).core.id,
        ensures
            *final(self) == *old(self),
            final(ctx).wf(),
            res is Ok <==> !old(ctx).failed && old(self).index < old(ctx).core.inputs@.len(),
            res is Err ==> *final(ctx) == *old(ctx),
            res is Ok ==> ctx_sent(*final(ctx), *old(ctx), old(self).index, with_each_count(data@, -1isize)),
    {
        let v = counted(data, -1);
        self.send_all(ctx, v)
    }
}

/// `c` is `prev` with `data` appended to what was sent to input `idx`, which
/// is queued; everything else is as it was.
pub open spec fn ctx_sent(c: ExecutionContext, prev: ExecutionContext, idx: usize, data: Seq<Delta>) -> bool {
    &&& c.core.id == prev.core.id
    &&& c.failed == prev.failed
    &&& c.feeders == prev.feeders
    &&& c.core.graph == prev.core.graph
    &&& c.core.inputs@.len() == prev.core.inputs@.len()
    &&& c.core.inputs@[idx as int].pending@ == prev.core.inputs@[idx as int].pending@ + data
    &&& c.core.inputs@[idx as int].node == prev.core.inputs@[idx as int].node
    &&& c.core.inputs@[idx as int].send == prev.core.inputs@[idx as int].send
    &&& forall|j: int| 0 <= j < prev.core.inputs@.len() && j != idx ==> #[trigger] c.core.inputs@[j] == prev.core.inputs@[j]
    &&& c.core.handlers.handlers@[idx as int].is_queued
}

/// A context while its relations are being set up.
pub struct CreationContext {
    pub core: Context,
    pub feeders: Vec<Feeder>,
    /// Edges from the relation a feeder reads to the input it feeds, for display.
    pub extra_edges: Vec<(usize, usize)>,
    /// The listeners registered on outputs; listener `t` is reported to the
    /// dirty graph as `usize::MAX - t`.
    pub user_listeners: Vec<usize>,
}

/// A context whose relations are set up: inputs take changes, commits
/// propagate them, outputs read the results.
pub struct ExecutionContext {
    pub core: Context,
    pub feeders: Vec<Feeder>,
    pub extra_edges: Vec<(usize, usize)>,
    /// The feeders whose outputs changed.
    pub dirty: PQReceiver,
    /// An earlier operation failed and left the context unusable.
    pub failed: bool,
    /// The number of commits so far.
    pub commits: i64,
    pub user_listeners: Vec<usize>,
    /// The listeners of the outputs that commits changed, in order, not yet taken.
    pub notifications: Vec<usize>,
    /// Each visit of a feeder by a commit so far: the feeder visited, the
    /// feeders pending then (left over from earlier visits, or whose
    /// outputs had just changed), and whether the visit reported a change.
    pub visits: Ghost<Seq<(usize, Seq<usize>, bool)>>,
}

/// The visits of `vs` from `from` on, each taking the least feeder pending,
/// where a feeder whose visit reported a change is pending again at the
/// next visit.
pub open spec fn visits_ok(vs: Seq<(usize, Seq<usize>, bool)>, from: int) -> bool {
    &&& forall|k: int| from <= k < vs.len() ==> #[trigger] least_first(vs[k])
    &&& forall|k: int| from <= k < vs.len() - 1 && (#[trigger] vs[k]).2 ==> vs[k + 1].1.contains(vs[k].0)
}

/// Visit `v` of a feeder took the least of the feeders pending then.
pub open spec fn least_first(v: (usize, Seq<usize>, bool)) -> bool {
    &&& v.1.contains(v.0)
    &&& forall|j: int| 0 <= j < v.1.len() ==> v.0 <= #[trigger] v.1[j]
}

/// `c` is `prev` with one more input, `r.0`, whose node is a new input node
/// (the next node, so also the next relation of the tracker, with no
/// dependencies) that nothing reads yet, has emitted nothing and has nothing
/// waiting or sent to it, and whose first input is `r.0`, with nothing
/// pending; `r.1` is the relation of what is committed to it.
pub open spec fn input_made(c: CreationContext, prev: CreationContext, r: (Input_, Relation)) -> bool {
    &&& c.wf()
    &&& c.core.id == prev.core.id
    &&& c.feeders == prev.feeders
    &&& grown(c.core, prev.core)
    &&& r.0.context == c.core.id
    &&& r.0.index == prev.core.inputs@.len()
    &&& c.core.inputs@.len() == prev.core.inputs@.len() + 1
    &&& r.0.node == c.core.inputs@[r.0.index as int].node
    &&& c.core.graph.nodes@[r.0.node as int] is Input
    &&& r.0.node == prev.core.graph.nodes@.len()
    &&& c.core.graph.nodes@.len() == prev.core.graph.nodes@.len() + 1
    &&& c.core.inputs@[r.0.index as int].pending@.len() == 0
    &&& c.core.graph.pipes.pending(c.core.input_buffer(r.0.index as int)).len() == 0
    &&& c.core.graph.pipes.sent@[c.core.input_buffer(r.0.index as int) as int].len() == 0
    &&& c.core.graph.hist@[r.0.node as int].len() == 0
    &&& c.core.graph.tracker.infos@[r.0.node as int].deps@.len() == 0
    &&& c.core.graph.owner@[r.0.node as int] is Free
    &&& first_announces(c.core, r.0.node, c.core.inputs@[r.0.index as int].send)
    &&& r.1 == plain(
        RelOp::Existing { context: c.core.id, node: r.0.node, source: c.core.inputs@[r.0.index as int].send },
    )
}

impl CreationContext {
    pub open spec fn wf(&self) -> bool {
        &&& self.core.wf()
        &&& forall|i: int| 0 <= i < self.feeders@.len() ==> (#[trigger] self.feeders@[i]).wf()
    }

    /// A context with no relations, told apart from others by a random number.
    pub fn new() -> (r: CreationContext)
        ensures
            r.wf(),
            r.core.graph.nodes@.len() == 0,
            r.core.inputs@.len() == 0,
            r.feeders@.len() == 0,
    {
        CreationContext::new_()
    }

    /// The same as `new`.
    pub fn new_() -> (r: CreationContext)
        ensures
            r.wf(),
            r.core.graph.nodes@.len() == 0,
            r.core.inputs@.len() == 0,
            r.feeders@.len() == 0,
    {
        CreationContext {
            core: Context::new(fresh_context_id()),
            feeders: Vec::new(),
            extra_edges: Vec::new(),
            user_listeners: Vec::new(),
        }
    }

    /// A new input and the relation of what was committed to it.
    pub fn new_input_(&mut self) -> (r: (Input_, Relation))
        requires
            old(self).wf(),
        ensures
            input_made(*final(self), *old(self), r),
    {
        let (index, node, send) = self.core.add_input();
        let id = self.core.id;
        (Input_ { context: id, index, node }, Relation::from_op(RelOp::Existing { context: id, node, source: send }))
    }

    /// The same as `new_input_`.
    pub fn new_input(&mut self) -> (r: (Input_, Relation))
        requires
            old(self).wf(),
        ensures
            input_made(*final(self), *old(self), r),
    {
        self.new_input_()
    }

    /// The same as `new_input_`.
    pub fn new_trackable_input(&mut self) -> (r: (Input_, Relation))
        requires
            old(self).wf(),
        ensures
            input_made(*final(self), *old(self), r),
    {
        self.new_input_()
    }

    /// The context, ready to run: no feeder has work yet.
    pub fn begin(self) -> (r: ExecutionContext)
        requires
            self.wf(),
        ensures
            r.wf(),
            r.core == self.core,
            r.feeders == self.feeders,
            !r.failed,
            r.commits == 0,
            r.dirty.pending@.len() == 0,
    {
        ExecutionContext {
            core: self.core,
            feeders: self.feeders,
            extra_edges: self.extra_edges,
            dirty: PQReceiver::new(),
            failed: false,
            commits: 0,
            user_listeners: self.user_listeners,
            notifications: Vec::new(),
            visits: Ghost(Seq::empty()),
        }
    }

    /// The context's relations, for display.
    pub fn tracker(&self) -> (r: &ContextTracker)
        ensures
            *r == self.core.graph.tracker,
    {
        &self.core.graph.tracker
    }

    /// The same as `tracker`.
    pub fn get_tracker(&self) -> (r: &ContextTracker)
        ensures
            *r == self.core.graph.tracker,
    {
        &self.core.graph.tracker
    }

    /// Registers `feeder`, to be visited when the dirty node `d` of its
    /// output becomes dirty.
    fn add_feeder(&mut self, feeder: Feeder, d: usize, edge: Option<(usize, usize)>) -> (r: Result<(), Error>)
        requires
            old(self).wf(),
            feeder.wf(),
        ensures
            final(self).wf(),
            final(self).core.id == old(self).core.id,
            r is Ok <==> d < old(self).core.graph.dirty.nodes@.len(),
            r is Ok ==> final(self).feeders@.len() == old(self).feeders@.len() + 1,
            r is Ok ==> final(self).feeders@ == old(self).feeders@.push(feeder),
            r is Err ==> r->Err_0 is ContextMismatch && *final(self) == *old(self),
            grown(final(self).core, old(self).core),
    {
        proof {
            lemma_grown_refl(self.core);
        }
        if d >= self.core.graph.dirty.nodes.len() {
            return Err(Error::ContextMismatch);
        }
        let ghost c0 = self.core;
        DirtyReceive { id: d }.add_listener(&mut self.core.graph.dirty, self.feeders.len());
        proof {
            self.core.graph.lemma_wf_grow(c0.graph);
            self.core.lemma_wf_extend(c0);
            self.core.lemma_grown_listeners(c0);
        }
        self.feeders.push(feeder);
        match edge {
            Some(e) => self.extra_edges.push(e),
            None => {},
        }
        Ok(())
    }

    /// Feeds the changes of `rel` back into `input` on each commit, until
    /// they stop.
    ///
    /// Fails with `ContextMismatch` when `rel` cannot be made into nodes of
    /// the context (see `Context::attach`).
    pub fn feed(&mut self, rel: Relation, input: Input_) -> (r: Result<(), Error>)
        requires
            old(self).wf(),
            input.context == old(self).core.id,
        ensures
            final(self).wf(),
            final(self).core.id == old(self).core.id,
            r is Ok ==> final(self).feeders@.len() == old(self).feeders@.len() + 1,
            r is Ok ==> final(self).feeders@.last() is Feed && final(self).feeders@.last()->Feed_0.input == input
                && final(self).feeders@.last()->Feed_0.output.context == final(self).core.id,
            grown(final(self).core, old(self).core),
            r is Ok <==> attachable(old(self).core, rel),
    {
        let ghost c0 = self.core;
        let (node, d) = self.core.connect(rel)?;
        let ghost c1 = self.core;
        let output: Output<Pipe> = Output::new(self.core.id, node, d);
        let r = self.add_feeder(Feeder::Feed(Feedback { output, input }), d, Some((node, input.node)));
        proof {
            lemma_grown_trans(c0, c1, self.core);
        }
        r
    }

    /// The same as `feed`.
    pub fn feed_once(&mut self, rel: Relation, input: Input_) -> (r: Result<(), Error>)
        requires
            old(self).wf(),
            input.context == old(self).core.id,
        ensures
            final(self).wf(),
            final(self).core.id == old(self).core.id,
            r is Ok ==> final(self).feeders@.len() == old(self).feeders@.len() + 1,
            r is Ok ==> final(self).feeders@.last() is Feed && final(self).feeders@.last()->Feed_0.input == input
                && final(self).feeders@.last()->Feed_0.output.context == final(self).core.id,
            grown(final(self).core, old(self).core),
            r is Ok <==> attachable(old(self).core, rel),
    {
        self.feed(rel, input)
    }

    /// Feeds back, on each visit, the values of the least key of `rel` (a
    /// relation of pairs) whose changes do not cancel out.
    ///
    /// Fails as `feed` does.
    pub fn feed_ordered(&mut self, rel: Relation, input: Input_) -> (r: Result<(), Error>)
        requires
            old(self).wf(),
            input.context == old(self).core.id,
        ensures
            final(self).wf(),
            final(self).core.id == old(self).core.id,
            r is Ok ==> final(self).feeders@.len() == old(self).feeders@.len() + 1,
            r is Ok ==> final(self).feeders@.last() is Ordered && final(self).feeders@.last()->Ordered_0.input == input
                && final(self).feeders@.last()->Ordered_0.output.context == final(self).core.id,
            grown(final(self).core, old(self).core),
            r is Ok <==> attachable(old(self).core, rel),
    {
        let ghost c0 = self.core;
        let (node, d) = self.core.connect(rel)?;
        let ghost c1 = self.core;
        let output: Output<OrderedPipe> = Output::new(self.core.id, node, d);
        let r = self.add_feeder(Feeder::Ordered(FeedbackOrdered { output, input }), d, Some((node, input.node)));
        proof {
            lemma_grown_trans(c0, c1, self.core);
        }
        r
    }

    /// Interrupts a commit with `f` of the contents of `output` whenever
    /// they are not empty.
    pub fn interrupt(&mut self, output: Output<Counts>, f: Box<dyn InterruptFn>) -> (r: Result<(), Error>)
        requires
            old(self).wf(),
            output.context == old(self).core.id,
            output.data.wf(),
        ensures
            final(self).wf(),
            final(self).core.id == old(self).core.id,
            r is Ok <==> output.dirty < old(self).core.graph.dirty.nodes@.len(),
            r is Ok ==> final(self).feeders@.len() == old(self).feeders@.len() + 1,
            r is Ok ==> final(self).feeders@ == old(self).feeders@.push(Feeder::Interrupt(Interrupter { output, f })),
            grown(final(self).core, old(self).core),
    {
        let d = output.dirty;
        self.add_feeder(Feeder::Interrupt(Interrupter { output, f }), d, None)
    }

    /// Feeds the whole contents of `output` into `input` on every visit,
    /// while they are not empty.
    pub fn feed_while(&mut self, output: Output<Counts>, input: Input_) -> (r: Result<(), Error>)
        requires
            old(self).wf(),
            output.context == old(self).core.id,
            input.context == old(self).core.id,
            output.data.wf(),
        ensures
            final(self).wf(),
            final(self).core.id == old(self).core.id,
            r is Ok <==> output.dirty < old(self).core.graph.dirty.nodes@.len(),
            r is Ok ==> final(self).feeders@.len() == old(self).feeders@.len() + 1,
            r is Ok ==> final(self).feeders@ == old(self).feeders@.push(Feeder::While(FeedbackWhile { output, input })),
            grown(final(self).core, old(self).core),
    {
        let edge = (output.node, input.node);
        let d = output.dirty;
        self.add_feeder(Feeder::While(FeedbackWhile { output, input }), d, Some(edge))
    }

    /// As `feed_while`, each element paired with the number of the commit.
    pub fn feed_with_commit_id_while(&mut self, output: Output<Counts>, input: Input_) -> (r: Result<(), Error>)
        requires
            old(self).wf(),
            output.context == old(self).core.id,
            input.context == old(self).core.id,
            output.data.wf(),
        ensures
            final(self).wf(),
            final(self).core.id == old(self).core.id,
            r is Ok <==> output.dirty < old(self).core.graph.dirty.nodes@.len(),
            r is Ok ==> final(self).feeders@.len() == old(self).feeders@.len() + 1,
            r is Ok ==> final(self).feeders@ == old(self).feeders@.push(
                Feeder::WithCommitId(FeedbackWithCommitIdWhile { output, input }),
            ),
            grown(final(self).core, old(self).core),
    {
        let edge = (output.node, input.node);
        let d = output.dirty;
        self.add_feeder(Feeder::WithCommitId(FeedbackWithCommitIdWhile { output, input }), d, Some(edge))
    }
}

/// The entries of `s` that are indices of feeders (below `n`), in order.
pub open spec fn feeders_notified(s: Seq<usize>, n: int) -> Seq<usize>
    decreases s.len(),
{
    if s.len() == 0 {
        Seq::empty()
    } else {
        feeders_notified(s.drop_last(), n) + if s.last() < n {
            seq![s.last()]
        } else {
            Seq::empty()
        }
    }
}

/// The user listeners that the entries of `s` at or above `n` name, in
/// order: entry `usize::MAX - t` names listener `t` of `ls`.
pub open spec fn listeners_notified(s: Seq<usize>, n: int, ls: Seq<usize>) -> Seq<usize>
    decreases s.len(),
{
    if s.len() == 0 {
        Seq::empty()
    } else {
        listeners_notified(s.drop_last(), n, ls) + if s.last() >= n && usize::MAX - s.last() < ls.len() {
            seq![ls[usize::MAX - s.last()]]
        } else {
            Seq::empty()
        }
    }
}

/// No feeder of `fs` reads an output with receive node `d`.
pub open spec fn unfed(fs: Seq<Feeder>, d: usize) -> bool {
    forall|i: int| 0 <= i < fs.len() ==> (#[trigger] fs[i]).dirty_node() != d
}

/// No feeder of `fs` reads node `k`.
pub open spec fn unread_by_feeders(fs: Seq<Feeder>, k: int) -> bool {
    forall|i: int| 0 <= i < fs.len() ==> (#[trigger] fs[i]).node() != k
}

/// `e` keeps the consumers of `prev`'s nodes, and every node consumed from
/// outside the graph that no feeder reads (the node of an output) has
/// emitted what it had: outputs read nothing new until they are read.
pub open spec fn outputs_kept(e: ExecutionContext, prev: ExecutionContext) -> bool {
    &&& e.core.graph.owner == prev.core.graph.owner
    &&& e.core.graph.nodes@.len() == prev.core.graph.nodes@.len()
    &&& forall|k: int|
        0 <= k < prev.core.graph.nodes@.len() && prev.core.graph.owner@[k] is Outside && unread_by_feeders(
            prev.feeders@,
            k,
        ) ==> #[trigger] e.core.graph.hist@[k] == prev.core.graph.hist@[k]
}

/// What is left of a collection of feeder indices below `n` after one is
/// taken out stays below `n`.
proof fn lemma_taken_out_bounded(before: Seq<usize>, after: Seq<usize>, x: usize, n: int)
    requires
        forall|k: int| 0 <= k < before.len() ==> #[trigger] before[k] < n,
        after.to_multiset() == before.to_multiset().remove(x),
    ensures
        forall|k: int| 0 <= k < after.len() ==> #[trigger] after[k] < n,
{
    broadcast use vstd::seq_lib::to_multiset_contains;
    broadcast use vstd::multiset::group_multiset_axioms;

    assert forall|k: int| 0 <= k < after.len() implies #[trigger] after[k] < n by {
        let e = after[k];
        assert(after.contains(e));
        assert(after.to_multiset().count(e) > 0);
        assert(before.to_multiset().count(e) > 0);
        assert(before.contains(e));
    }
}

impl ExecutionContext {
    /// The core is well formed unless an operation failed, every feeder is,
    /// and the feeders waiting for a visit are feeders of the context.
    pub open spec fn wf(&self) -> bool {
        &&& !self.failed ==> self.core.wf()
        &&& forall|i: int| 0 <= i < self.feeders@.len() ==> (#[trigger] self.feeders@[i]).wf()
        &&& forall|k: int| 0 <= k < self.dirty.pending@.len() ==> #[trigger] self.dirty.pending@[k] < self.feeders@.len()
    }

    /// The context's relations, for display.
    pub fn tracker(&self) -> (r: &ContextTracker)
        ensures
            *r == self.core.graph.tracker,
    {
        &self.core.graph.tracker
    }

    /// The same as `tracker`.
    pub fn get_tracker(&self) -> (r: &ContextTracker)
        ensures
            *r == self.core.graph.tracker,
    {
        &self.core.graph.tracker
    }

    /// Splits what the dirty graph reported into feeders to visit, which it
    /// returns, and listeners of outputs, which it adds to the notifications.
    fn sort_notified(&mut self, incoming: Vec<usize>) -> (r: Vec<usize>)
        ensures
            final(self).core == old(self).core,
            final(self).feeders == old(self).feeders,
            final(self).failed == old(self).failed,
            final(self).dirty == old(self).dirty,
            final(self).commits == old(self).commits,
            final(self).user_listeners == old(self).user_listeners,
            final(self).visits == old(self).visits,
            forall|i: int| 0 <= i < r@.len() ==> #[trigger] r@[i] < old(self).feeders@.len(),
            r@ == feeders_notified(incoming@, old(self).feeders@.len() as int),
            final(self).notifications@ == old(self).notifications@ + listeners_notified(
                incoming@,
                old(self).feeders@.len() as int,
                old(self).user_listeners@,
            ),
    {
        let mut out: Vec<usize> = Vec::new();
        let mut i: usize = 0;
        let ghost n = self.feeders@.len() as int;
        let ghost ls = self.user_listeners@;
        proof {
            assert(incoming@.take(0) =~= Seq::<usize>::empty());
            assert(self.notifications@ + Seq::<usize>::empty() =~= self.notifications@);
        }
        while i < incoming.len()
            invariant
                i <= incoming@.len(),
                self.visits == old(self).visits,
                n == old(self).feeders@.len(),
                ls == old(self).user_listeners@,
                self.core == old(self).core,
                self.feeders == old(self).feeders,
                self.failed == old(self).failed,
                self.dirty == old(self).dirty,
                self.commits == old(self).commits,
                self.user_listeners == old(self).user_listeners,
                forall|k: int| 0 <= k < out@.len() ==> #[trigger] out@[k] < old(self).feeders@.len(),
                out@ == feeders_notified(incoming@.take(i as int), n),
                self.notifications@ == old(self).notifications@ + listeners_notified(incoming@.take(i as int), n, ls),
            decreases incoming@.len() - i,
        {
            let ghost t1 = incoming@.take(i as int + 1);
            assert(t1.drop_last() =~= incoming@.take(i as int));
            assert(t1.last() == incoming@[i as int]);
            let x = incoming[i];
            if x < self.feeders.len() {
                out.push(x);
                proof {
                    assert(out@ =~= feeders_notified(t1, n));
                    assert(self.notifications@ =~= old(self).notifications@ + listeners_notified(t1, n, ls));
                }
            } else {
                let t = usize::MAX - x;
                if t < self.user_listeners.len() {
                    let l = self.user_listeners[t];
                    self.notifications.push(l);
                    proof {
                        assert(self.notifications@ =~= old(self).notifications@ + listeners_notified(t1, n, ls));
                    }
                } else {
                    proof {
                        assert(self.notifications@ =~= old(self).notifications@ + listeners_notified(t1, n, ls));
                    }
                }
                proof {
                    assert(out@ =~= feeders_notified(t1, n));
                }
            }
            i = i + 1;
        }
        proof {
            assert(incoming@.take(incoming@.len() as int) =~= incoming@);
        }
        out
    }

    /// Takes the listeners of the outputs that commits changed, in order.
    pub fn take_notifications(&mut self) -> (r: Vec<usize>)
        ensures
            r@ == old(self).notifications@,
            final(self).notifications@.len() == 0,
            final(self).core == old(self).core,
            final(self).feeders == old(self).feeders,
            final(self).failed == old(self).failed,
    {
        let mut r: Vec<usize> = Vec::new();
        std::mem::swap(&mut r, &mut self.notifications);
        r
    }

    /// Commits what was sent to the inputs, then visits the feeders whose
    /// outputs changed, least first, committing again after each, until none
    /// has work or one interrupts, whose value is returned.
    ///
    /// Fails with `Failed` when an earlier operation left the context
    /// unusable; a visit that fails leaves it so.
    pub fn commit(&mut self) -> (r: Result<Option<Datum>, Error>)
        requires
            old(self).wf(),
        ensures
            final(self).wf(),
            final(self).core.id == old(self).core.id,
            old(self).failed ==> r is Err && *final(self) == *old(self),
            r is Ok ==> !final(self).failed,
            r is Ok ==> final(self).feeders@.len() == old(self).feeders@.len(),
            r matches Ok(None) ==> final(self).dirty.pending@.len() == 0,
            r matches Ok(None) ==> forall|j: int| 0 <= j < final(self).core.inputs@.len() ==> (
            #[trigger] final(self).core.inputs@[j]).pending@.len() == 0,
            r is Ok ==> outputs_kept(*final(self), *old(self)),
            r matches Ok(Some(_)) ==> exists|i: int| 0 <= i < old(self).feeders@.len() && (#[trigger] old(self).feeders@[i]) is Interrupt,
            r matches Ok(Some(v)) ==> exists|i: int|
                0 <= i < final(self).feeders@.len() && (#[trigger] final(self).feeders@[i]) is Interrupt && v
                    == final(self).feeders@[i]->Interrupt_0.f.spec_call(final(self).feeders@[i]->Interrupt_0.output.data)
                    && final(self).feeders@[i]->Interrupt_0.output.data.entries@.len() > 0,
            !old(self).failed && old(self).feeders@.len() == 0 ==> (r matches Ok(None) && committed(final(self).core, old(self).core)),
            !old(self).failed && old(self).feeders@.len() == 0 ==> exists|vs: Seq<int>|
                {
                    &&& turned_dirty(final(self).core.graph.dirty, old(self).core.graph.dirty, vs)
                    &&& final(self).notifications@ == old(self).notifications@ + listeners_notified(
                        old(self).core.graph.dirty.notified@ + listeners_of(old(self).core.graph.dirty, vs),
                        0,
                        old(self).user_listeners@,
                    )
                },
            r is Ok ==> grown(final(self).core, old(self).core),
            r is Ok ==> forall|n: int, d: usize| #[trigger] ready_at(old(self).core, n, d) && unfed(old(self).feeders@, d)
                ==> ready_at(final(self).core, n, d),
            !old(self).failed && feeders_ok(old(self).core, old(self).feeders@) ==> (r is Err ==> (r->Err_0 is CountOverflow
                || r->Err_0 is NoFixpoint)),
            old(self).visits@.len() <= final(self).visits@.len(),
            forall|k: int| 0 <= k < old(self).visits@.len() ==> #[trigger] final(self).visits@[k] == old(self).visits@[k],
            visits_ok(final(self).visits@, old(self).visits@.len() as int),
            r matches Ok(None) && old(self).visits@.len() < final(self).visits@.len() ==> !final(self).visits@.last().2,
    {
        if self.failed {
            return Err(Error::Failed);
        }
        proof {
            lemma_grown_refl(self.core);
        }
        let id = self.commits;
        if self.commits < i64::MAX {
            self.commits = self.commits + 1;
        }
        let ghost id0 = self.core.id;
        let ghost n_feeders = self.feeders@.len();
        proof {
            if n_feeders == 0 && self.dirty.pending@.len() > 0 {
                assert(self.dirty.pending@[0] < 0);
            }
        }
        let mut fuel: u64 = u64::MAX;
        loop
            invariant
                self.wf(),
                !self.failed,
                !old(self).failed,
                old(self).wf(),
                id0 == old(self).core.id,
                n_feeders == old(self).feeders@.len(),
                self.core.id == id0,
                self.feeders@.len() == n_feeders,
                forall|i: int| 0 <= i < n_feeders ==> (#[trigger] self.feeders@[i]).node() == old(self).feeders@[i].node()
                    && self.feeders@[i].target() == old(self).feeders@[i].target(),
                outputs_kept(*self, *old(self)),
                n_feeders == 0 ==> self.core == old(self).core && self.dirty.pending@.len() == 0,
                n_feeders == 0 ==> self.notifications == old(self).notifications && self.user_listeners
                    == old(self).user_listeners,
                feeders_ok(old(self).core, old(self).feeders@) ==> feeders_ok(self.core, self.feeders@),
                old(self).visits@.len() <= self.visits@.len(),
                forall|k: int| 0 <= k < old(self).visits@.len() ==> #[trigger] self.visits@[k] == old(self).visits@[k],
                visits_ok(self.visits@, old(self).visits@.len() as int),
                old(self).visits@.len() < self.visits@.len() && self.visits@.last().2 ==> self.dirty.pending@.contains(
                    self.visits@.last().0,
                ),
                grown(self.core, old(self).core),
                forall|i: int| 0 <= i < n_feeders ==> (#[trigger] self.feeders@[i]).dirty_node() == old(self).feeders@[i].dirty_node(),
                forall|n: int, d: usize| #[trigger] ready_at(old(self).core, n, d) && unfed(old(self).feeders@, d)
                    ==> ready_at(self.core, n, d),
            decreases fuel,
        {
            let ghost cs = self.core;
            self.core.commit();
            let ghost c0 = self.core;
            let ghost vs0 = choose|vs: Seq<int>| crate::dirty::reported(c0.graph.dirty, cs.graph.dirty, vs);
            let mut incoming: Vec<usize> = Vec::new();
            std::mem::swap(&mut incoming, &mut self.core.graph.dirty.notified);
            proof {
                self.core.graph.lemma_wf_grow(c0.graph);
                self.core.lemma_wf_extend(c0);
                crate::context::lemma_committed_grown(c0, cs);
                self.core.lemma_grown_listeners(c0);
                lemma_grown_trans(cs, c0, self.core);
                lemma_grown_trans(old(self).core, cs, self.core);
                lemma_ready_committed(cs, c0);
                lemma_ready_notified(c0, self.core);
                lemma_ready_kept_trans(cs, c0, self.core, -1, -1, -1);
                assert forall|n: int, d: usize| #[trigger] ready_at(old(self).core, n, d) && unfed(old(self).feeders@, d)
                    implies ready_at(self.core, n, d) by {
                    assert(ready_at(cs, n, d));
                }
            }
            let to_visit = self.sort_notified(incoming);
            let ghost pend0 = self.dirty.pending@;
            let ghost queued = self.dirty.pending@ + to_visit@;
            proof {
                assert forall|k: int| 0 <= k < queued.len() implies #[trigger] queued[k] < self.feeders@.len() by {
                    if k >= self.dirty.pending@.len() {
                        assert(queued[k] == to_visit@[k - self.dirty.pending@.len()]);
                    }
                }
            }
            match self.dirty.pop_min(to_visit) {
                None => {
                    proof {
                        if n_feeders == 0 {
                            assert(turned_dirty(self.core.graph.dirty, old(self).core.graph.dirty, vs0));
                        }
                    }
                    return Ok(None);
                },
                Some(i) => {
                    proof {
                        lemma_taken_out_bounded(queued, self.dirty.pending@, i, self.feeders@.len() as int);
                        assert(least_first((i, queued, false)));
                        if old(self).visits@.len() < self.visits@.len() && self.visits@.last().2 {
                            let w = choose|w: int| 0 <= w < pend0.len() && pend0[w] == self.visits@.last().0;
                            assert(queued[w] == self.visits@.last().0);
                        }
                        self.visits@ = self.visits@.push((i, queued, false));
                    }
                    if i < self.feeders.len() {
                        assert(self.feeders@[i as int].wf());
                        let ghost cf = self.core;
                        let res = self.feeders[i].feed(&mut self.core, id);
                        proof {
                            if res is Ok {
                                lemma_grown_trans(old(self).core, cf, self.core);
                                let x = old(self).feeders@[i as int].dirty_node();
                                assert forall|n: int, d: usize| #[trigger] ready_at(old(self).core, n, d) && unfed(old(self).feeders@, d)
                                    implies ready_at(self.core, n, d) by {
                                    assert(ready_at(cf, n, d));
                                    assert(old(self).feeders@[i as int].dirty_node() != d);
                                }
                            }
                        }
                        match res {
                            Err(e) => {
                                self.failed = true;
                                return Err(e);
                            },
                            Ok(Instruct::Unchanged) => {},
                            Ok(Instruct::Changed) => {
                                self.dirty.insert(i);
                                proof {
                                    let last = self.visits@.len() - 1;
                                    self.visits@ = self.visits@.update(last, (i, queued, true));
                                    assert(self.dirty.pending@[self.dirty.pending@.len() - 1] == i);
                                }
                            },
                            Ok(Instruct::Interrupt(x)) => {
                                assert(old(self).feeders@[i as int] is Interrupt);
                                assert(self.feeders@[i as int] is Interrupt);
                                return Ok(Some(x));
                            },
                        }
                    }
                },
            }
            if fuel == 0 {
                self.failed = true;
                return Err(Error::NoFixpoint);
            }
            fuel = fuel - 1;
        }
    }
}

} // verus!

verus! {

/// `o` and `e` are `prev_o` and `prev_e` after a successful read of the
/// output: only the output's node was pulled for it; when a commit changed
/// the output's relation since it was last read, the changes that its node
/// emitted meanwhile (for an input node, what waited in its buffer) were
/// added to its map; otherwise nothing changed.
pub open spec fn got<M: CountMap>(o: Output<M>, e: ExecutionContext, prev_o: Output<M>, prev_e: ExecutionContext) -> bool {
    let n = prev_o.node as int;
    let g0 = prev_e.core.graph;
    &&& !e.failed
    &&& o.context == prev_o.context
    &&& o.node == prev_o.node
    &&& o.dirty == prev_o.dirty
    &&& pulled_from(e.core, prev_e.core)
    &&& e.core.graph.pulled_by_owners(g0, n)
    &&& !e.core.graph.dirty.nodes@[prev_o.dirty as int].dirty
    &&& flags_kept_but(e.core.graph, g0, prev_o.dirty as int)
    &&& e.core.graph.inputs_taken(g0)
    &&& (g0.dirty.nodes@[prev_o.dirty as int].dirty ==> {
        let v = emitted(e.core.graph, g0, n);
        &&& prev_o.data.spec_fits(v)
        &&& M::spec_added_all(prev_o.data, v, o.data)
        &&& e.core.graph.hist@[n] == g0.hist@[n] + v
        &&& pulled_shape(g0.nodes@[n], e.core.graph, g0, v)
        &&& (g0.nodes@[n] is Input ==> v == g0.pipes.pending(g0.nodes@[n]->Input_buffer))
        &&& inputs_drained(e.core.graph, n)
    })
    &&& (!g0.dirty.nodes@[prev_o.dirty as int].dirty ==> o.data == prev_o.data && e.core.graph.hist == g0.hist)
}

impl<M: CountMap> Output<M> {
    /// Brings the output up to date and returns what it holds: when a
    /// commit changed its relation since it was last read, the changes are
    /// added to its map.
    ///
    /// Fails, changing nothing, with `Failed` when an earlier operation left
    /// the context unusable and with `ContextMismatch` when the context does
    /// not have the output's nodes or its node is not read from outside the
    /// graph; with `CountOverflow` when a count leaves the range of `isize`,
    /// which leaves the context unusable. That happens only when the
    /// relation changed since the last read; and where nothing between the
    /// output and the inputs computes on counts (inputs, concatenations,
    /// saves, splits and their reads), only when adding the changes to the
    /// output's map overflows it.
    pub fn get(&mut self, ctx: &mut ExecutionContext) -> (r: Result<&M, Error>)
        requires
            old(ctx).wf(),
            old(self).data.cm_wf(),
            old(self).context == old(ctx).core.id,
        ensures
            final(ctx).wf(),
            final(self).data.cm_wf(),
            final(self).context == old(self).context,
            final(self).node == old(self).node,
            final(self).dirty == old(self).dirty,
            final(ctx).core.id == old(ctx).core.id,
            final(ctx).feeders == old(ctx).feeders,
            old(ctx).failed ==> r is Err && r->Err_0 is Failed && *final(ctx) == *old(ctx) && *final(self) == *old(self),
            !old(ctx).failed ==> ((r is Err && r->Err_0 is ContextMismatch) <==> (old(self).node >= old(
                ctx,
            ).core.graph.nodes@.len() || old(self).dirty >= old(ctx).core.graph.dirty.nodes@.len() || !(old(
                ctx,
            ).core.graph.owner@[old(self).node as int] is Outside))),
            r is Err && r->Err_0 is ContextMismatch ==> *final(ctx) == *old(ctx) && *final(self) == *old(self),
            r is Err ==> r->Err_0 is Failed || r->Err_0 is ContextMismatch || r->Err_0 is CountOverflow,
            r is Err && r->Err_0 is Failed ==> old(ctx).failed,
            r is Err && r->Err_0 is CountOverflow ==> {
                &&& old(ctx).core.graph.dirty.nodes@[old(self).dirty as int].dirty
                &&& (safe_pull(old(ctx).core.graph, old(self).node as int) ==> !old(self).data.spec_fits(
                    emitted(final(ctx).core.graph, old(ctx).core.graph, old(self).node as int),
                ))
            },
            r matches Ok(m) ==> *m == final(self).data && got(*final(self), *final(ctx), *old(self), *old(ctx)),
    {
        if ctx.failed {
            return Err(Error::Failed);
        }
        let ghost c0 = ctx.core;
        let res = self.refresh(&mut ctx.core);
        proof {
            lemma_emitted(res, c0, ctx.core, self.node as int);
        }
        match res {
            Ok(_) => Ok(&self.data),
            Err(Error::ContextMismatch) => Err(Error::ContextMismatch),
            Err(e) => {
                ctx.failed = true;
                Err(e)
            },
        }
    }

    /// Has `listener` reported among the context's notifications each time
    /// a commit changes the output's relation.
    ///
    /// Fails with `ContextMismatch`, changing nothing, when the context does
    /// not have the output's receive node.
    pub fn add_listener(&self, ctx: &mut CreationContext, listener: usize) -> (r: Result<(), Error>)
        requires
            old(ctx).wf(),
            self.context == old(ctx).core.id,
        ensures
            final(ctx).wf(),
            final(ctx).core.id == old(ctx).core.id,
            final(ctx).feeders == old(ctx).feeders,
            r is Ok <==> self.dirty < old(ctx).core.graph.dirty.nodes@.len(),
            r is Err ==> *final(ctx) == *old(ctx),
            r is Ok ==> final(ctx).user_listeners@ == old(ctx).user_listeners@.push(listener),
            grown(final(ctx).core, old(ctx).core),
    {
        proof {
            lemma_grown_refl(ctx.core);
        }
        if self.dirty >= ctx.core.graph.dirty.nodes.len() {
            return Err(Error::ContextMismatch);
        }
        let ghost c0 = ctx.core;
        let tag = ctx.user_listeners.len();
        DirtyReceive { id: self.dirty }.add_listener(&mut ctx.core.graph.dirty, usize::MAX - tag);
        proof {
            ctx.core.graph.lemma_wf_grow(c0.graph);
            ctx.core.lemma_wf_extend(c0);
            ctx.core.lemma_grown_listeners(c0);
        }
        ctx.user_listeners.push(listener);
        Ok(())
    }

    /// The index of the output's relation in the context's tracker.
    pub fn tracking_index(&self) -> (r: usize)
        ensures
            r == self.node,
    {
        self.node
    }
}

} // verus!
