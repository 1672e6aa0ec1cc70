use vstd::prelude::*;
use crate::counts::Counts;
use crate::relation_model::left_join_shape;
use crate::graph::{Graph, Node, is_source, flags_kept_but, propagated, flag_of, safe_pull};
use crate::relation::{Relation, RelOp, plain, hidden_map, kinded, context_of};
use crate::fns::{MapFn, DeltaOp};
use crate::count_map::{CountMap, KvCounts};
use crate::output::{Output, pulled_from, tracks, ready_kept, lemma_ready_pulled};
use crate::datum::{Datum, Delta};
use crate::count::count_in;
use crate::execution::{CreationContext, ExecutionContext};
use crate::context::{Context, announced, grown, own_flag, lemma_grown_trans, attachable, existing_of, leaves_ok};
use crate::value_map::{ValueMap, OutputMap};
use crate::reduce::agrees;
use crate::error::Error;

verus! {

/// A saved relation: any number of relations can read it, each getting
/// every change of it.
#[derive(Clone, Copy)]
pub struct Saved {
    pub context: u64,
    pub node: usize,
    pub source: usize,
}

impl Saved {
    /// The node this saved relation names is a save node of `g`.
    pub open spec fn names_save(&self, g: Graph) -> bool {
        self.node < g.nodes@.len() && g.nodes@[self.node as int] is Save
    }

    /// Saves `rel`.
    ///
    /// Fails with `ContextMismatch`, leaving the context well formed, when
    /// `rel` reads a node of another context, one this context does not
    /// have, or one that something already reads (see `Context::attach`).
    pub fn new(rel: Relation, ctx: &mut CreationContext) -> (r: Result<Saved, Error>)
        requires
            old(ctx).wf(),
        ensures
            final(ctx).wf(),
            final(ctx).core.id == old(ctx).core.id,
            final(ctx).feeders == old(ctx).feeders,
            r is Err ==> r->Err_0 is ContextMismatch,
            r matches Ok(s) ==> {
                &&& s.context == final(ctx).core.id
                &&& s.node < final(ctx).core.graph.nodes@.len()
                &&& final(ctx).core.graph.nodes@[s.node as int] is Save
                &&& s.source < final(ctx).core.graph.dirty.nodes@.len()
                &&& s.source == final(ctx).core.graph.nodes@[s.node as int]->Save_dirty
                &&& (rel.op is Dynamic ==> final(ctx).core.graph.nodes@[final(ctx).core.graph.nodes@[s.node as int]->Save_src as int] is Dynamic)
            },
            grown(final(ctx).core, old(ctx).core),
            r is Ok <==> attachable(old(ctx).core, rel),
    {
        let (node, source, _) = ctx.core.save_node(rel)?;
        proof {
            assert forall|i: int| 0 <= i < ctx.feeders@.len() implies (#[trigger] ctx.feeders@[i]).wf() by {
                assert(ctx.feeders@[i] == old(ctx).feeders@[i]);
            }
        }
        Ok(Saved { context: ctx.core.id, node, source })
    }

    /// A new reader of the saved relation, shown on its own.
    pub fn get_shown(&self) -> (r: Relation)
        ensures
            r == plain(RelOp::SavedRead { context: self.context, node: self.node, source: self.source }),
    {
        Relation::from_op(RelOp::SavedRead { context: self.context, node: self.node, source: self.source })
    }

    /// A new reader of the saved relation, hidden from display.
    pub fn get(&self) -> (r: Relation)
        ensures
            r == (Relation {
                hidden: true,
                ..plain(RelOp::SavedRead { context: self.context, node: self.node, source: self.source })
            }),
    {
        self.get_shown().hidden()
    }

    /// Passes what changed in the saved relation to its readers, if anything did.
    ///
    /// Fails, changing nothing, with `Failed` when an earlier operation left
    /// the context unusable and with `ContextMismatch` when the context has
    /// no such save node; with `CountOverflow` when a count leaves the range
    /// of `isize`, which leaves the context unusable. That happens only when
    /// the saved relation changed and computing its changes does arithmetic
    /// on counts (see `node_safe`).
    pub fn propagate(&self, ctx: &mut ExecutionContext) -> (r: Result<(), Error>)
        requires
            old(ctx).wf(),
            self.context == old(ctx).core.id,
        ensures
            final(ctx).wf(),
            final(ctx).core.id == old(ctx).core.id,
            final(ctx).feeders == old(ctx).feeders,
            (r is Err && (r->Err_0 is Failed || r->Err_0 is ContextMismatch)) ==> *final(ctx) == *old(ctx),
            r is Ok ==> !final(ctx).failed && pulled_from(final(ctx).core, old(ctx).core),
            r is Ok ==> final(ctx).core.graph.owner == old(ctx).core.graph.owner,
            r is Ok ==> forall|k: int|
                0 <= k < old(ctx).core.graph.nodes@.len() && old(ctx).core.graph.owner@[k] is Outside
                    ==> #[trigger] final(ctx).core.graph.hist@[k] == old(ctx).core.graph.hist@[k],
            r is Ok ==> ready_kept(final(ctx).core, old(ctx).core, -1),
            (r matches Err(e) && e is Failed) <==> old(ctx).failed,
            (r matches Err(e) && e is ContextMismatch) <==> !old(ctx).failed && !self.names_save(old(ctx).core.graph),
            (r matches Err(e) && e is CountOverflow) ==> final(ctx).failed,
            (r matches Err(e) && e is CountOverflow) ==> old(ctx).core.graph.dirty.nodes@[flag_of(
                old(ctx).core.graph.nodes@[self.node as int],
            )].dirty && !safe_pull(old(ctx).core.graph, self.node as int),
            r is Ok ==> propagated(
                final(ctx).core.graph,
                old(ctx).core.graph,
                old(ctx).core.graph.nodes@[self.node as int],
            ),
    {
        if ctx.failed {
            return Err(Error::Failed);
        }
        if self.node >= ctx.core.graph.nodes.len() {
            return Err(Error::ContextMismatch);
        }
        let is_save = match &ctx.core.graph.nodes[self.node] {
            Node::Save { .. } => true,
            _ => false,
        };
        if !is_save {
            return Err(Error::ContextMismatch);
        }
        let ghost c0 = ctx.core;
        match ctx.core.graph.propagate_node(self.node) {
            Ok(()) => {
                proof {
                    ctx.core.lemma_wf_extend(c0);
                    assert forall|k: int|
                        0 <= k < c0.graph.nodes@.len() && c0.graph.owner@[k] is Outside implies #[trigger] ctx.core.graph.hist@[k]
                            == c0.graph.hist@[k] by {
                        assert(is_source(c0.graph.nodes@[self.node as int]));
                        assert(c0.graph.owner@[self.node as int] is Free);
                        ctx.core.graph.lemma_outside_unpulled(c0.graph, self.node as int, k);
                    }
                    assert(flags_kept_but(ctx.core.graph, c0.graph, -1));
                    lemma_ready_pulled(c0, ctx.core, -1);
                }
                Ok(())
            },
            Err(e) => {
                ctx.failed = true;
                Err(e)
            },
        }
    }
}

/// A watch on the results of a reduce, read without a relation of their own.
#[derive(Clone, Copy)]
pub struct ReduceProbe {
    pub saved: Saved,
    pub reduce: usize,
}

impl ReduceProbe {
    /// The node this probe watches is a reduce node of `g`.
    pub open spec fn names_reduce(&self, g: Graph) -> bool {
        self.reduce < g.nodes@.len() && g.nodes@[self.reduce as int] is Reduce
    }

    /// A new reader of the reduce's relation.
    pub fn get_relation(&self) -> (r: Relation)
        ensures
            r == (Relation {
                hidden: true,
                ..plain(
                    RelOp::SavedRead { context: self.saved.context, node: self.saved.node, source: self.saved.source },
                )
            }),
    {
        self.saved.get()
    }

    /// Brings the reduce up to date and returns its result for each key:
    /// the function of the key and of its values with their counts, for each
    /// key that has values.
    ///
    /// Fails as `Saved::propagate` does, and with `ContextMismatch` when the
    /// context has no such reduce node.
    pub fn inspect(&self, ctx: &mut ExecutionContext) -> (r: Result<ValueMap, Error>)
        requires
            old(ctx).wf(),
            self.saved.context == old(ctx).core.id,
        ensures
            final(ctx).wf(),
            final(ctx).core.id == old(ctx).core.id,
            final(ctx).feeders == old(ctx).feeders,
            r is Ok ==> final(ctx).core.graph.owner == old(ctx).core.graph.owner,
            r is Ok ==> forall|k: int|
                0 <= k < old(ctx).core.graph.nodes@.len() && old(ctx).core.graph.owner@[k] is Outside
                    ==> #[trigger] final(ctx).core.graph.hist@[k] == old(ctx).core.graph.hist@[k],
            r is Ok ==> grown(final(ctx).core, old(ctx).core),
            r is Ok ==> ready_kept(final(ctx).core, old(ctx).core, -1),
            (r matches Err(e) && e is Failed) <==> old(ctx).failed,
            (!old(ctx).failed && !self.saved.names_save(old(ctx).core.graph)) ==> (r matches Err(e) && e is ContextMismatch),
            (r matches Err(e) && e is ContextMismatch) ==> !old(ctx).failed && !(self.saved.names_save(old(ctx).core.graph)
                && self.names_reduce(old(ctx).core.graph)),
            (!old(ctx).failed && self.saved.names_save(old(ctx).core.graph) && !self.names_reduce(old(ctx).core.graph))
                ==> r is Err,
            (r matches Err(e) && e is CountOverflow) ==> final(ctx).failed,
            (r matches Err(e) && e is CountOverflow) ==> old(ctx).core.graph.dirty.nodes@[flag_of(
                old(ctx).core.graph.nodes@[self.saved.node as int],
            )].dirty && !safe_pull(old(ctx).core.graph, self.saved.node as int),
            r is Ok ==> propagated(
                final(ctx).core.graph,
                old(ctx).core.graph,
                old(ctx).core.graph.nodes@[self.saved.node as int],
            ),
            r matches Ok(m) ==> {
                &&& self.reduce < final(ctx).core.graph.nodes@.len()
                &&& final(ctx).core.graph.nodes@[self.reduce as int] is Reduce
                &&& m.inv()
                &&& forall|k| #[trigger] agrees(
                    final(ctx).core.graph.nodes@[self.reduce as int]->Reduce_state.f,
                    final(ctx).core.graph.nodes@[self.reduce as int]->Reduce_state.in_map,
                    k,
                    m.lookup_spec(k),
                )
            },
    {
        let ghost c0 = ctx.core;
        self.saved.propagate(ctx)?;
        proof {
            crate::output::lemma_pulled_grown(ctx.core, c0);
        }
        if self.reduce >= ctx.core.graph.nodes.len() {
            return Err(Error::ContextMismatch);
        }
        assert(ctx.core.graph.node_wf(self.reduce as int));
        match &ctx.core.graph.nodes[self.reduce] {
            Node::Reduce { state, .. } => {
                let m = state.out_map.copy();
                proof {
                    assert(state.wf());
                    assert(m.entries@ == state.out_map.entries@);
                    assert forall|k| #[trigger] m.lookup_spec(k) == state.out_map.lookup_spec(k) by {}
                }
                Ok(m)
            },
            _ => Err(Error::ContextMismatch),
        }
    }
}

/// `a` and `b` are the two sides of a split node of `c`: relations of `c`
/// on two read nodes of the same split node, `a` reading its left buffer
/// (the first components) and `b` its right buffer (the second ones).
pub open spec fn split_pair(c: Context, a: Relation, b: Relation) -> bool {
    let na = a.op->Existing_node as int;
    let nb = b.op->Existing_node as int;
    let sp = c.graph.nodes@[na]->Read_from as int;
    &&& a.op is Existing
    &&& b.op is Existing
    &&& a.op->Existing_context == c.id
    &&& b.op->Existing_context == c.id
    &&& na < c.graph.nodes@.len()
    &&& nb < c.graph.nodes@.len()
    &&& c.graph.nodes@[na] is Read
    &&& c.graph.nodes@[nb] is Read
    &&& c.graph.nodes@[nb]->Read_from as int == sp
    &&& c.graph.nodes@[sp] is Split
    &&& c.graph.nodes@[na]->Read_buffer == c.graph.nodes@[sp]->Split_left_buffer
    &&& c.graph.nodes@[nb]->Read_buffer == c.graph.nodes@[sp]->Split_right_buffer
}

impl Relation {
    /// An output that keeps the relation up to date in a map of the
    /// caller's choice.
    ///
    /// Fails with `ContextMismatch`, leaving the context well formed, when
    /// the relation reads a node this context does not have, or one that
    /// something already reads (see `Context::attach`).
    pub fn into_output_<M: CountMap>(self, ctx: &mut CreationContext) -> (r: Result<Output<M>, Error>)
        requires
            old(ctx).wf(),
            context_of(self) == Some(old(ctx).core.id),
        ensures
            final(ctx).wf(),
            final(ctx).core.id == old(ctx).core.id,
            final(ctx).feeders == old(ctx).feeders,
            r is Err ==> r->Err_0 is ContextMismatch,
            r matches Ok(o) ==> {
                &&& o.context == final(ctx).core.id
                &&& o.node < final(ctx).core.graph.nodes@.len()
                &&& o.dirty < final(ctx).core.graph.dirty.nodes@.len()
                &&& o.data.cm_wf()
                &&& o.data.cm_empty()
                &&& final(ctx).core.graph.owner@[o.node as int] is Outside
                &&& final(ctx).core.graph.hist@[o.node as int].len() == 0
                &&& announced(final(ctx).core, o.node as int, o.dirty)
                &&& own_flag(final(ctx).core, o.dirty)
            },
            forall|j: int| 0 <= j < old(ctx).core.graph.nodes@.len() ==> #[trigger] final(ctx).core.graph.hist@[j]
                == old(ctx).core.graph.hist@[j],
            forall|j: int| 0 <= j < old(ctx).core.graph.nodes@.len() && old(ctx).core.graph.owner@[j] is Outside
                ==> #[trigger] final(ctx).core.graph.owner@[j] is Outside,
            grown(final(ctx).core, old(ctx).core),
            r is Ok <==> attachable(old(ctx).core, self),
    {
        let (node, dirty) = ctx.core.connect(self)?;
        proof {
            assert forall|i: int| 0 <= i < ctx.feeders@.len() implies (#[trigger] ctx.feeders@[i]).wf() by {
                assert(ctx.feeders@[i] == old(ctx).feeders@[i]);
            }
        }
        Ok(Output::new(ctx.core.id, node, dirty))
    }

    /// An output that keeps the count of each element of the relation.
    pub fn into_output(self, ctx: &mut CreationContext) -> (r: Result<Output<Counts>, Error>)
        requires
            old(ctx).wf(),
            context_of(self) == Some(old(ctx).core.id),
        ensures
            final(ctx).wf(),
            final(ctx).core.id == old(ctx).core.id,
            final(ctx).feeders == old(ctx).feeders,
            r is Err ==> r->Err_0 is ContextMismatch,
            r matches Ok(o) ==> {
                &&& o.context == final(ctx).core.id
                &&& o.node < final(ctx).core.graph.nodes@.len()
                &&& o.dirty < final(ctx).core.graph.dirty.nodes@.len()
                &&& o.data.wf()
                &&& forall|d| #[trigger] o.data.count(d) == 0
                &&& tracks(o, final(ctx).core)
                &&& announced(final(ctx).core, o.node as int, o.dirty)
                &&& own_flag(final(ctx).core, o.dirty)
            },
            forall|j: int| 0 <= j < old(ctx).core.graph.nodes@.len() ==> #[trigger] final(ctx).core.graph.hist@[j]
                == old(ctx).core.graph.hist@[j],
            forall|j: int| 0 <= j < old(ctx).core.graph.nodes@.len() && old(ctx).core.graph.owner@[j] is Outside
                ==> #[trigger] final(ctx).core.graph.owner@[j] is Outside,
            grown(final(ctx).core, old(ctx).core),
            r is Ok <==> attachable(old(ctx).core, self),
    {
        let r = self.into_output_::<Counts>(ctx);
        proof {
            if r is Ok {
                let o = r->Ok_0;
                assert forall|d: Datum| #[trigger] o.data.count(d) == count_in(ctx.core.graph.hist@[o.node as int], d) by {
                    assert(ctx.core.graph.hist@[o.node as int] =~= Seq::<Delta>::empty());
                }
            }
        }
        r
    }

    /// An output that keeps, for each key of the relation's pairs `(k, v)`,
    /// the count of each value.
    pub fn into_kv_output(self, ctx: &mut CreationContext) -> (r: Result<Output<KvCounts>, Error>)
        requires
            old(ctx).wf(),
            context_of(self) == Some(old(ctx).core.id),
        ensures
            final(ctx).wf(),
            final(ctx).core.id == old(ctx).core.id,
            final(ctx).feeders == old(ctx).feeders,
            r is Err ==> r->Err_0 is ContextMismatch,
            r matches Ok(o) ==> {
                &&& o.context == final(ctx).core.id
                &&& o.node < final(ctx).core.graph.nodes@.len()
                &&& o.dirty < final(ctx).core.graph.dirty.nodes@.len()
                &&& o.data.pairs.wf()
                &&& forall|d| #[trigger] o.data.pairs.count(d) == 0
                &&& announced(final(ctx).core, o.node as int, o.dirty)
                &&& own_flag(final(ctx).core, o.dirty)
            },
            grown(final(ctx).core, old(ctx).core),
            r is Ok <==> attachable(old(ctx).core, self),
    {
        self.into_output_(ctx)
    }

    /// Saves the relation, so that any number of relations can read it.
    pub fn save(self, ctx: &mut CreationContext) -> (r: Result<Saved, Error>)
        requires
            old(ctx).wf(),
        ensures
            final(ctx).wf(),
            final(ctx).core.id == old(ctx).core.id,
            final(ctx).feeders == old(ctx).feeders,
            r is Err ==> r->Err_0 is ContextMismatch,
            r matches Ok(s) ==> {
                &&& s.context == final(ctx).core.id
                &&& s.node < final(ctx).core.graph.nodes@.len()
                &&& final(ctx).core.graph.nodes@[s.node as int] is Save
                &&& s.source < final(ctx).core.graph.dirty.nodes@.len()
                &&& s.source == final(ctx).core.graph.nodes@[s.node as int]->Save_dirty
                &&& (self.op is Dynamic ==> final(ctx).core.graph.nodes@[final(ctx).core.graph.nodes@[s.node as int]->Save_src as int] is Dynamic)
            },
            grown(final(ctx).core, old(ctx).core),
            r is Ok <==> attachable(old(ctx).core, self),
    {
        Saved::new(self, ctx)
    }

    /// Splits a relation of pairs `(l, r)` into the relation of the `l` and
    /// the relation of the `r`, each with the count of its pair.
    ///
    /// Fails with `ContextMismatch` when the relation cannot be made into
    /// nodes of the context (see `Context::attach`).
    pub fn split_(self, ctx: &mut CreationContext) -> (r: Result<(Relation, Relation), Error>)
        requires
            old(ctx).wf(),
        ensures
            final(ctx).wf(),
            final(ctx).core.id == old(ctx).core.id,
            final(ctx).feeders == old(ctx).feeders,
            r is Err ==> r->Err_0 is ContextMismatch,
            r matches Ok((a, b)) ==> split_pair(final(ctx).core, a, b),
            grown(final(ctx).core, old(ctx).core),
            r is Ok <==> attachable(old(ctx).core, self),
    {
        let (a, b, d) = ctx.core.split_node(self)?;
        let id = ctx.core.id;
        proof {
            assert forall|i: int| 0 <= i < ctx.feeders@.len() implies (#[trigger] ctx.feeders@[i]).wf() by {
                assert(ctx.feeders@[i] == old(ctx).feeders@[i]);
            }
        }
        Ok(
            (
                Relation::from_op(RelOp::Existing { context: id, node: a, source: d }),
                Relation::from_op(RelOp::Existing { context: id, node: b, source: d }),
            ),
        )
    }

    /// The same as `split_`.
    pub fn split(self, ctx: &mut CreationContext) -> (r: Result<(Relation, Relation), Error>)
        requires
            old(ctx).wf(),
        ensures
            final(ctx).wf(),
            final(ctx).core.id == old(ctx).core.id,
            final(ctx).feeders == old(ctx).feeders,
            r is Err ==> r->Err_0 is ContextMismatch,
            r matches Ok((a, b)) ==> split_pair(final(ctx).core, a, b),
            grown(final(ctx).core, old(ctx).core),
            r is Ok <==> attachable(old(ctx).core, self),
    {
        self.split_(ctx)
    }

    /// The relation behind a dynamic node, saved.
    ///
    /// Fails as `save` does.
    pub fn collect(self, ctx: &mut CreationContext) -> (r: Result<Saved, Error>)
        requires
            old(ctx).wf(),
        ensures
            final(ctx).wf(),
            final(ctx).core.id == old(ctx).core.id,
            final(ctx).feeders == old(ctx).feeders,
            r is Err ==> r->Err_0 is ContextMismatch,
            r matches Ok(s) ==> {
                &&& s.context == final(ctx).core.id
                &&& s.node < final(ctx).core.graph.nodes@.len()
                &&& final(ctx).core.graph.nodes@[s.node as int] is Save
                &&& s.source == final(ctx).core.graph.nodes@[s.node as int]->Save_dirty
                &&& final(ctx).core.graph.nodes@[final(ctx).core.graph.nodes@[s.node as int]->Save_src as int] is Dynamic
            },
            grown(final(ctx).core, old(ctx).core),
            r is Ok <==> attachable(old(ctx).core, self),
    {
        let ghost me = self;
        let d = self.dynamic();
        proof {
            assert(existing_of(d) == existing_of(me));
            assert(leaves_ok(old(ctx).core, d) == leaves_ok(old(ctx).core, me));
        }
        d.save(ctx)
    }

    /// For pairs `(k, l)` here and `(k, r)` in `other`, the triples
    /// `(k, l, Some(r))` counted by the product of the counts, and for pairs
    /// `(k, l)` whose key has count 0 in `other`, `(k, l, None)`.
    pub fn left_join(self, other: Relation, ctx: &mut CreationContext) -> (r: Result<Relation, Error>)
        requires
            old(ctx).wf(),
        ensures
            final(ctx).wf(),
            final(ctx).core.id == old(ctx).core.id,
            final(ctx).feeders == old(ctx).feeders,
            r is Err ==> r->Err_0 is ContextMismatch,
            r matches Ok(j) ==> j.op is Concat,
            r matches Ok(j) ==> exists|na: usize, nb: usize| #[trigger] left_join_shape(j, na, nb),
            grown(final(ctx).core, old(ctx).core),
    {
        let ghost c0 = ctx.core;
        let s = self.save(ctx)?;
        let ghost c1 = ctx.core;
        let o = match other.save(ctx) {
            Ok(o) => o,
            Err(e) => {
                proof {
                    lemma_grown_trans(c0, c1, ctx.core);
                }
                return Err(e);
            },
        };
        proof {
            lemma_grown_trans(c0, c1, ctx.core);
        }
        let j = s.get().join(o.get());
        let matched = j.apply_h(MapFn::SomeThird);
        let of = o.get().apply(MapFn::Fst, "map");
        let aj = s.get().antijoin(of);
        let unmatched = aj.apply(MapFn::NoneThird, "map");
        assert(context_of(j) == Some(s.context));
        assert(context_of(matched) == Some(s.context));
        assert(context_of(aj) == Some(s.context));
        assert(context_of(unmatched) == Some(s.context));
        let res = matched.concat(unmatched);
        assert(left_join_shape(res, s.node, o.node));
        Ok(res)
    }

    /// A probe on the results of this reduce.
    pub fn probe(self, ctx: &mut CreationContext) -> (r: Result<ReduceProbe, Error>)
        requires
            old(ctx).wf(),
            self.op is Reduce,
        ensures
            final(ctx).wf(),
            final(ctx).core.id == old(ctx).core.id,
            final(ctx).feeders == old(ctx).feeders,
            r is Err ==> r->Err_0 is ContextMismatch,
            r matches Ok(p) ==> {
                &&& p.saved.context == final(ctx).core.id
                &&& p.reduce < final(ctx).core.graph.nodes@.len()
                &&& final(ctx).core.graph.nodes@[p.reduce as int] is Reduce
            },
            grown(final(ctx).core, old(ctx).core),
    {
        let (node, source, src) = ctx.core.save_node(self)?;
        proof {
            assert forall|i: int| 0 <= i < ctx.feeders@.len() implies (#[trigger] ctx.feeders@[i]).wf() by {
                assert(ctx.feeders@[i] == old(ctx).feeders@[i]);
            }
        }
        Ok(ReduceProbe { saved: Saved { context: ctx.core.id, node, source }, reduce: src })
    }

    /// The pairs `(k, v)` of this relation that were new when they came:
    /// kept in an input, fed on each commit with the pairs whose key it does
    /// not hold yet.
    pub fn first_occurences(self, ctx: &mut CreationContext) -> (r: Result<Relation, Error>)
        requires
            old(ctx).wf(),
            context_of(self) == Some(old(ctx).core.id),
        ensures
            final(ctx).wf(),
            final(ctx).core.id == old(ctx).core.id,
            r is Err ==> r->Err_0 is ContextMismatch,
            r matches Ok(x) ==> x.op is SavedRead && x.hidden,
            grown(final(ctx).core, old(ctx).core),
    {
        let ghost c0 = ctx.core;
        let (input, input_rel) = ctx.new_trackable_input();
        let ghost c1 = ctx.core;
        let saved = match input_rel.save(ctx) {
            Ok(s) => s,
            Err(e) => {
                proof {
                    lemma_grown_trans(c0, c1, ctx.core);
                }
                return Err(e);
            },
        };
        let ghost c2 = ctx.core;
        proof {
            lemma_grown_trans(c0, c1, c2);
        }
        let g = saved.get();
        assert(context_of(g) == Some(saved.context));
        let f = g.fsts();
        assert(context_of(f) == Some(saved.context));
        let aj = self.antijoin(f);
        assert(context_of(aj) == Some(old(ctx).core.id));
        let new_ones = match aj.into_output(ctx) {
            Ok(o) => o,
            Err(e) => {
                proof {
                    lemma_grown_trans(c0, c2, ctx.core);
                }
                return Err(e);
            },
        };
        let ghost c3 = ctx.core;
        proof {
            lemma_grown_trans(c0, c2, c3);
        }
        let r = ctx.feed_while(new_ones, input);
        proof {
            lemma_grown_trans(c0, c3, ctx.core);
        }
        match r {
            Ok(()) => Ok(saved.get()),
            Err(e) => Err(e),
        }
    }
}

} // verus!
