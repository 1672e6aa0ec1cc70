use vstd::prelude::*;
use crate::datum::{Datum, Delta, mk_pair, datum_lt};
use crate::count::count_in;
use crate::counts::Counts;
use crate::context::{Context, grown, lemma_grown_trans};
use crate::count_map::{CountMap, Pipe};
use crate::ordered_pipe::{OrderedPipe, cancels, keyed, receive_fails, after_key};
use crate::output::{Output, pulled_from, lemma_emitted, lemma_pulled_grown, ready_kept, lemma_ready_pulled, lemma_ready_sent, lemma_ready_kept_trans};
use crate::graph::emitted;
use crate::execution::Input_;
use crate::error::{Error, overflow_error};

verus! {

/// What a feeder did on its visit.
#[derive(Debug)]
pub enum Instruct {
    /// It sent nothing.
    Unchanged,
    /// It sent changes to its input.
    Changed,
    /// It asks the commit to stop and hand out this value.
    Interrupt(Datum),
}

/// A function from the contents of an output to the value that interrupts
/// a commit, as given to `interrupt`: a function of the contents alone,
/// `spec_call`.
pub trait InterruptFn {
    spec fn spec_call(&self, m: Counts) -> Datum;

    fn call(&self, m: &Counts) -> (r: Datum)
        ensures
            r == self.spec_call(*m),
    ;
}

/// Feeds the changes of a relation back into an input.
pub struct Feedback {
    pub output: Output<Pipe>,
    pub input: Input_,
}

/// The same as `Feedback`: each change is fed once.
pub type FeedbackOnce = Feedback;

/// Feeds back the changes of the least key of a relation of pairs.
pub struct FeedbackOrdered {
    pub output: Output<OrderedPipe>,
    pub input: Input_,
}

/// Feeds the whole contents of an output back into an input on every visit.
pub struct FeedbackWhile {
    pub output: Output<Counts>,
    pub input: Input_,
}

/// Feeds the whole contents of an output back into an input on every
/// visit, each element paired with the number of the commit.
pub struct FeedbackWithCommitIdWhile {
    pub output: Output<Counts>,
    pub input: Input_,
}

/// Interrupts a commit when an output is not empty.
pub struct Interrupter {
    pub output: Output<Counts>,
    pub f: Box<dyn InterruptFn>,
}

/// One of the feeders of a context.
pub enum Feeder {
    Feed(Feedback),
    Ordered(FeedbackOrdered),
    While(FeedbackWhile),
    WithCommitId(FeedbackWithCommitIdWhile),
    Interrupt(Interrupter),
}

/// The changes `((x, id), count)` for each entry `(x, count)` of `s`.
pub open spec fn with_id(s: Seq<Delta>, id: i64) -> Seq<Delta> {
    s.map_values(|e: Delta| (mk_pair(e.0, Datum::Int(id)), e.1))
}

/// What a visit of a feeder leaves of the context, when it succeeds: the
/// same graph shape, and every input but `idx` as it was.
pub open spec fn fed(c: Context, prev: Context, idx: usize) -> bool {
    &&& c.wf()
    &&& c.id == prev.id
    &&& c.graph.nodes@.len() == prev.graph.nodes@.len()
    &&& c.inputs@.len() == prev.inputs@.len()
    &&& forall|j: int| 0 <= j < prev.inputs@.len() && j != idx ==> #[trigger] c.inputs@[j] == prev.inputs@[j]
    &&& forall|j: int| 0 <= j < prev.inputs@.len() ==> #[trigger] c.inputs@[j].node == prev.inputs@[j].node
}

/// What a visit of the feeder `x` that returned `i` sent: the changes its
/// output kept and those its node emitted meanwhile, in order, appended to
/// the pending changes of its input; `Changed` exactly when there were any.
pub open spec fn feed_sent(i: Instruct, x: Feedback, c: Context, prev: Context) -> bool {
    let changes = x.output.data.items@ + emitted(c.graph, prev.graph, x.output.node as int);
    &&& (i is Changed <==> changes.len() > 0)
    &&& (i is Changed ==> c.inputs@[x.input.index as int].pending@ == prev.inputs@[x.input.index as int].pending@
        + changes)
}

/// What an ordered feeder, `x` before its visit and `y` after it, did on a
/// visit that reported `i`, going from `prev` to `c`: with the changes it
/// kept before and those its node emitted meanwhile, `Unchanged` when every
/// key's changes cancel out, after which it keeps nothing; otherwise
/// `Changed`, having sent to its input the net changes of the least key
/// whose changes do not cancel out, and keeping the changes of every
/// greater key, in order.
pub open spec fn ordered_sent(i: Instruct, x: FeedbackOrdered, y: FeedbackOrdered, c: Context, prev: Context) -> bool {
    let items = x.output.data.items@ + emitted(c.graph, prev.graph, x.output.node as int);
    &&& (i is Unchanged <==> forall|k: Datum| #[trigger] cancels(items, k))
    &&& (i is Unchanged ==> y.output.data.items@.len() == 0)
    &&& (i is Changed ==> exists|k: Datum, s: Seq<Delta>|
        {
            &&& !cancels(items, k)
            &&& (forall|k2: Datum| #[trigger] datum_lt(k2, k) ==> cancels(items, k2))
            &&& c.inputs@[x.input.index as int].pending@ == prev.inputs@[x.input.index as int].pending@ + s
            &&& forall|v: Datum| #[trigger] count_in(s, v) == count_in(keyed(items, k), v)
            &&& y.output.data.items@ == after_key(items, k)
        })
}

/// Copies the entries of `m`, each as `((x, id), count)` when `id` is given.
fn entries_of(m: &Counts, id: Option<i64>) -> (r: Vec<Delta>)
    ensures
        id is None ==> r@ == m.entries@,
        id matches Some(c) ==> r@ == with_id(m.entries@, c),
{
    let mut out: Vec<Delta> = Vec::new();
    let mut i: usize = 0;
    while i < m.entries.len()
        invariant
            i <= m.entries@.len(),
            id is None ==> out@ == m.entries@.take(i as int),
            id matches Some(c) ==> out@ == with_id(m.entries@.take(i as int), c),
        decreases m.entries@.len() - i,
    {
        let x = m.entries[i].0.duplicate();
        match id {
            None => out.push((x, m.entries[i].1)),
            Some(c) => out.push((Datum::pair(x, Datum::Int(c)), m.entries[i].1)),
        }
        proof {
            assert(m.entries@.take(i as int + 1) =~= m.entries@.take(i as int).push(m.entries@[i as int]));
            match id {
                None => {},
                Some(c) => {
                    assert(with_id(m.entries@.take(i as int + 1), c) =~= with_id(m.entries@.take(i as int), c).push(
                        (mk_pair(m.entries@[i as int].0, Datum::Int(c)), m.entries@[i as int].1),
                    ));
                },
            }
        }
        i = i + 1;
    }
    assert(m.entries@.take(m.entries@.len() as int) =~= m.entries@);
    out
}

/// Every feeder of `fs` reads an existing output of `core`, consumed from
/// outside the graph, and sends to an existing input, if it sends.
pub open spec fn feeders_ok(core: Context, fs: Seq<Feeder>) -> bool {
    forall|i: int|
        0 <= i < fs.len() ==> (#[trigger] fs[i]).output_ok(core) && (fs[i].target() matches Some(t) ==> t.index
            < core.inputs@.len())
}

impl Feeder {
    /// The feeder's output reads what it needs of its map.
    pub open spec fn wf(&self) -> bool {
        match self {
            Feeder::Feed(x) => x.output.data.cm_wf(),
            Feeder::Ordered(x) => x.output.data.cm_wf(),
            Feeder::While(x) => x.output.data.cm_wf(),
            Feeder::WithCommitId(x) => x.output.data.cm_wf(),
            Feeder::Interrupt(x) => x.output.data.cm_wf(),
        }
    }

    /// The dirty node that tells when the feeder has work.
    pub open spec fn dirty_node(&self) -> usize {
        match self {
            Feeder::Feed(x) => x.output.dirty,
            Feeder::Ordered(x) => x.output.dirty,
            Feeder::While(x) => x.output.dirty,
            Feeder::WithCommitId(x) => x.output.dirty,
            Feeder::Interrupt(x) => x.output.dirty,
        }
    }

    /// The node of the output the feeder reads.
    pub open spec fn node(&self) -> usize {
        match self {
            Feeder::Feed(x) => x.output.node,
            Feeder::Ordered(x) => x.output.node,
            Feeder::While(x) => x.output.node,
            Feeder::WithCommitId(x) => x.output.node,
            Feeder::Interrupt(x) => x.output.node,
        }
    }

    /// The input the feeder sends to, if any.
    pub open spec fn target(&self) -> Option<Input_> {
        match self {
            Feeder::Feed(x) => Some(x.input),
            Feeder::Ordered(x) => Some(x.input),
            Feeder::While(x) => Some(x.input),
            Feeder::WithCommitId(x) => Some(x.input),
            Feeder::Interrupt(_) => None,
        }
    }

    /// The feeder's output reads an existing node of `core`, consumed from
    /// outside the graph, and an existing receive node.
    pub open spec fn output_ok(&self, core: Context) -> bool {
        &&& self.node() < core.graph.nodes@.len()
        &&& self.dirty_node() < core.graph.dirty.nodes@.len()
        &&& core.graph.owner@[self.node() as int] is Outside
    }

    /// Nothing new waits for the feeder's output, which exists, its input
    /// exists, and what an ordered feeder keeps can be consolidated.
    pub open spec fn quiet(&self, core: Context) -> bool {
        &&& self.output_ok(core)
        &&& !core.graph.dirty.nodes@[self.dirty_node() as int].dirty
        &&& (self.target() matches Some(t) ==> t.index < core.inputs@.len())
        &&& (self matches Feeder::Ordered(x) ==> !receive_fails(x.output.data.items@))
    }

    /// Visits the feeder: brings its output up to date and, depending on
    /// the kind of feeder, sends changes to its input or interrupts.
    ///
    /// - `Feed`: sends every change kept by its output and empties it;
    ///   `Changed` when there was any.
    /// - `Ordered`: sends the values, with their net counts, of the least
    ///   key whose changes do not cancel out; `Unchanged` when there is none.
    /// - `While`: sends the whole contents of its output; `Unchanged` when
    ///   it is empty.
    /// - `WithCommitId`: the same, each element paired with `commit_id`.
    /// - `Interrupt`: interrupts with the value of its function on the
    ///   contents of its output, unless that is empty.
    pub fn feed(&mut self, core: &mut Context, commit_id: i64) -> (r: Result<Instruct, Error>)
        requires
            old(core).wf(),
            old(self).wf(),
        ensures
            final(self).wf(),
            final(self).dirty_node() == old(self).dirty_node(),
            final(self).target() == old(self).target(),
            final(self).node() == old(self).node(),
            final(core).id == old(core).id,
            r is Ok ==> final(core).graph.pulled_by_owners(old(core).graph, old(self).node() as int),
            r is Ok ==> (old(self).target() matches Some(t) ==> fed(*final(core), *old(core), t.index)),
            r is Ok && (*old(self)) is Interrupt ==> final(core).wf() && pulled_from(*final(core), *old(core)),
            r is Ok ==> grown(*final(core), *old(core)),
            r is Ok ==> ready_kept(*final(core), *old(core), old(self).dirty_node() as int),
            r matches Ok(Instruct::Interrupt(_)) ==> (*old(self)) is Interrupt,
            r matches Ok(Instruct::Unchanged) ==> final(core).inputs == old(core).inputs,
            (*old(self)) is While ==> (r is Ok ==> (r->Ok_0 is Changed <==> (*final(self))->While_0.output.data.entries@.len() > 0)),
            (*old(self)) matches Feeder::While(x) ==> (r matches Ok(Instruct::Changed) ==> final(core).inputs@[x.input.index as int].pending@
                == old(core).inputs@[x.input.index as int].pending@ + (*final(self))->While_0.output.data.entries@),
            (*old(self)) matches Feeder::WithCommitId(x) ==> (r matches Ok(Instruct::Changed) ==> final(core).inputs@[x.input.index as int].pending@
                == old(core).inputs@[x.input.index as int].pending@ + with_id((*final(self))->WithCommitId_0.output.data.entries@, commit_id)),
            (*old(self)) matches Feeder::Interrupt(x) ==> (r matches Ok(i) ==> (i is Interrupt <==> (*final(self))->Interrupt_0.output.data.entries@.len() > 0)),
            (*old(self)) matches Feeder::Feed(x) ==> (r is Ok ==> (*final(self))->Feed_0.output.data.items@.len() == 0),
            (*old(self)) matches Feeder::Feed(x) ==> (r matches Ok(i) ==> feed_sent(i, x, *final(core), *old(core))),
            (*old(self)) matches Feeder::Ordered(x) ==> (r matches Ok(i) ==> ordered_sent(
                i,
                x,
                (*final(self))->Ordered_0,
                *final(core),
                *old(core),
            )),
            (*old(self)) is WithCommitId ==> (r is Ok ==> (r->Ok_0 is Changed <==> (*final(self))->WithCommitId_0.output.data.entries@.len() > 0)),
            (*old(self)) is Interrupt ==> (r matches Ok(Instruct::Interrupt(v)) ==> v == (*final(self))->Interrupt_0.f.spec_call(
                (*final(self))->Interrupt_0.output.data,
            )),
            (*old(self)) matches Feeder::While(x) ==> (r is Ok ==> Counts::spec_added_all(
                x.output.data,
                emitted(final(core).graph, old(core).graph, x.output.node as int),
                (*final(self))->While_0.output.data,
            )),
            (*old(self)) matches Feeder::WithCommitId(x) ==> (r is Ok ==> Counts::spec_added_all(
                x.output.data,
                emitted(final(core).graph, old(core).graph, x.output.node as int),
                (*final(self))->WithCommitId_0.output.data,
            )),
            (*old(self)) matches Feeder::Interrupt(x) ==> (r is Ok ==> Counts::spec_added_all(
                x.output.data,
                emitted(final(core).graph, old(core).graph, x.output.node as int),
                (*final(self))->Interrupt_0.output.data,
            )),
            r is Err ==> r->Err_0 is ContextMismatch || r->Err_0 is CountOverflow,
            !old(self).output_ok(*old(core)) ==> (r matches Err(e) && e is ContextMismatch),
            old(self).quiet(*old(core)) ==> r is Ok,
            old(self).output_ok(*old(core)) && (old(self).target() matches Some(t) ==> t.index < old(core).inputs@.len())
                ==> (r is Err ==> r->Err_0 is CountOverflow),
    {
        match self {
            Feeder::Feed(x) => {
                let ghost c0 = *core;
                let ghost d0 = x.output.data;
                let res = x.output.refresh(core);
                proof {
                    lemma_emitted(res, c0, *core, x.output.node as int);
                    if res is Ok {
                        lemma_pulled_grown(*core, c0);
                        lemma_ready_pulled(c0, *core, x.output.dirty as int);
                    }
                }
                res?;
                let changes = x.output.data.receive();
                if changes.len() == 0 {
                    return Ok(Instruct::Unchanged);
                }
                let ghost c1 = *core;
                x.input.push_all(core, changes)?;
                proof {
                    core.lemma_grown_sent(c1, x.input.index as int);
                    lemma_grown_trans(c0, c1, *core);
                    lemma_ready_sent(c1, *core);
                    lemma_ready_kept_trans(c0, c1, *core, x.output.dirty as int, -1, x.output.dirty as int);
                }
                Ok(Instruct::Changed)
            },
            Feeder::Ordered(x) => {
                let ghost c0 = *core;
                let ghost d0 = x.output.data.items@;
                let res = x.output.refresh(core);
                proof {
                    lemma_emitted(res, c0, *core, x.output.node as int);
                    if res is Ok {
                        lemma_pulled_grown(*core, c0);
                        lemma_ready_pulled(c0, *core, x.output.dirty as int);
                    }
                }
                res?;
                let ghost items = x.output.data.items@;
                proof {
                    assert(items =~= d0 + emitted(core.graph, c0.graph, x.output.node as int));
                }
                match x.output.data.receive() {
                    Err(e) => Err(overflow_error(e)),
                    Ok(None) => Ok(Instruct::Unchanged),
                    Ok(Some((k, m))) => {
                        let changes = entries_of(&m, None);
                        let ghost c1 = *core;
                        x.input.push_all(core, changes)?;
                        proof {
                            core.lemma_grown_sent(c1, x.input.index as int);
                            lemma_grown_trans(c0, c1, *core);
                            lemma_ready_sent(c1, *core);
                            lemma_ready_kept_trans(c0, c1, *core, x.output.dirty as int, -1, x.output.dirty as int);
                            let sent = m.entries@;
                            assert forall|v: Datum| #[trigger] count_in(sent, v) == count_in(keyed(items, k), v) by {
                                assert(m.count(v) == count_in(keyed(items, k), v));
                            }
                            assert(c1.inputs == c0.inputs);
                            assert(core.inputs@[x.input.index as int].pending@ == c0.inputs@[x.input.index as int].pending@
                                + sent);
                            assert(!cancels(items, k));
                            assert(exists|k1: Datum, s1: Seq<Delta>|
                                {
                                    &&& !cancels(items, k1)
                                    &&& (forall|k2: Datum| #[trigger] datum_lt(k2, k1) ==> cancels(items, k2))
                                    &&& core.inputs@[x.input.index as int].pending@ == c0.inputs@[x.input.index as int].pending@
                                        + s1
                                    &&& forall|v: Datum| #[trigger] count_in(s1, v) == count_in(keyed(items, k1), v)
                                    &&& x.output.data.items@ == after_key(items, k1)
                                }) by {
                                assert(forall|k2: Datum| #[trigger] datum_lt(k2, k) ==> cancels(items, k2));
                            }
                        }
                        Ok(Instruct::Changed)
                    },
                }
            },
            Feeder::While(x) => {
                let ghost c0 = *core;
                let res = x.output.refresh(core);
                proof {
                    lemma_emitted(res, c0, *core, x.output.node as int);
                    if res is Ok {
                        lemma_pulled_grown(*core, c0);
                        lemma_ready_pulled(c0, *core, x.output.dirty as int);
                    }
                }
                res?;
                if x.output.data.is_empty() {
                    return Ok(Instruct::Unchanged);
                }
                let changes = entries_of(&x.output.data, None);
                let ghost c1 = *core;
                x.input.push_all(core, changes)?;
                proof {
                    core.lemma_grown_sent(c1, x.input.index as int);
                    lemma_grown_trans(c0, c1, *core);
                    lemma_ready_sent(c1, *core);
                    lemma_ready_kept_trans(c0, c1, *core, x.output.dirty as int, -1, x.output.dirty as int);
                }
                Ok(Instruct::Changed)
            },
            Feeder::WithCommitId(x) => {
                let ghost c0 = *core;
                let res = x.output.refresh(core);
                proof {
                    lemma_emitted(res, c0, *core, x.output.node as int);
                    if res is Ok {
                        lemma_pulled_grown(*core, c0);
                        lemma_ready_pulled(c0, *core, x.output.dirty as int);
                    }
                }
                res?;
                if x.output.data.is_empty() {
                    return Ok(Instruct::Unchanged);
                }
                let changes = entries_of(&x.output.data, Some(commit_id));
                let ghost c1 = *core;
                x.input.push_all(core, changes)?;
                proof {
                    core.lemma_grown_sent(c1, x.input.index as int);
                    lemma_grown_trans(c0, c1, *core);
                    lemma_ready_sent(c1, *core);
                    lemma_ready_kept_trans(c0, c1, *core, x.output.dirty as int, -1, x.output.dirty as int);
                }
                Ok(Instruct::Changed)
            },
            Feeder::Interrupt(x) => {
                let ghost c0 = *core;
                let res = x.output.refresh(core);
                proof {
                    lemma_emitted(res, c0, *core, x.output.node as int);
                    if res is Ok {
                        lemma_pulled_grown(*core, c0);
                        lemma_ready_pulled(c0, *core, x.output.dirty as int);
                    }
                }
                res?;
                if x.output.data.is_empty() {
                    return Ok(Instruct::Unchanged);
                }
                Ok(Instruct::Interrupt(x.f.call(&x.output.data)))
            },
        }
    }
}

/// The feeders that have work, handed out least first.
pub struct PQReceiver {
    pub pending: Vec<usize>,
}

impl PQReceiver {
    pub fn new() -> (r: PQReceiver)
        ensures
            r.pending@.len() == 0,
    {
        PQReceiver { pending: Vec::new() }
    }

    pub fn insert(&mut self, x: usize)
        ensures
            final(self).pending@ == old(self).pending@.push(x),
    {
        self.pending.push(x);
    }

    /// Takes in `incoming`, then takes out a least element, if there is one.
    pub fn pop_min(&mut self, incoming: Vec<usize>) -> (r: Option<usize>)
        ensures
            r is None <==> old(self).pending@.len() + incoming@.len() == 0,
            r is None ==> final(self).pending@.len() == 0,
            r matches Some(x) ==> {
                &&& (old(self).pending@ + incoming@).contains(x)
                &&& forall|i: int| 0 <= i < old(self).pending@.len() + incoming@.len() ==> x <= #[trigger] (old(
                    self,
                ).pending@ + incoming@)[i]
                &&& final(self).pending@.to_multiset() == (old(self).pending@ + incoming@).to_multiset().remove(x)
            },
    {
        let mut incoming = incoming;
        self.pending.append(&mut incoming);
        let ghost all = self.pending@;
        if self.pending.len() == 0 {
            return None;
        }
        let mut best: usize = 0;
        let mut i: usize = 1;
        while i < self.pending.len()
            invariant
                all == self.pending@,
                1 <= i <= all.len(),
                best < i,
                forall|j: int| 0 <= j < i ==> all[best as int] <= #[trigger] all[j],
            decreases all.len() - i,
        {
            if self.pending[i] < self.pending[best] {
                best = i;
            }
            i = i + 1;
        }
        let x = self.pending.remove(best);
        proof {
            vstd::seq_lib::to_multiset_remove(all, best as int);
        }
        Some(x)
    }
}

} // verus!
