use vstd::prelude::*;
use crate::datum::{Datum, Delta};
use crate::counts::Counts;
use crate::count::count_in;
use crate::graph::{safe_pull, lemma_node_safe_stable, same_links, lemma_same_links_refl, pulled_shape, Owner, same_reads, emitted, inputs_drained, flags_kept_but, lemma_flags_kept_but_trans, reads_input, lemma_drained_reads, lemma_drained_again};
use crate::dirty::same_structure;
use crate::dirty::DirtyReceive;
use crate::context::{Context, grown, committed, announced, own_flag, lemma_committed_grown, lemma_announced_grown, lemma_own_flag_grown, lemma_grown_refl};
use crate::count_map::CountMap;
use crate::error::{Error, overflow_error};

verus! {

/// A relation that the context keeps up to date: its node, the receive node
/// that says when it changed, and what was read of it so far.
pub struct Output<M> {
    pub context: u64,
    pub node: usize,
    pub dirty: usize,
    pub data: M,
}

/// What a pull leaves of a context: the same inputs, handlers and nodes (of
/// the same kinds), and a graph of the same size.
pub open spec fn pulled_from(c: Context, prev: Context) -> bool {
    &&& c.id == prev.id
    &&& c.inputs == prev.inputs
    &&& c.handlers == prev.handlers
    &&& c.graph.nodes@.len() == prev.graph.nodes@.len()
    &&& c.graph.pipes.buffers@.len() == prev.graph.pipes.buffers@.len()
    &&& c.graph.dirty.nodes@.len() == prev.graph.dirty.nodes@.len()
    &&& c.graph.tracker == prev.graph.tracker
    &&& forall|j: int| 0 <= j < prev.graph.nodes@.len() ==> same_reads(#[trigger] c.graph.nodes@[j], prev.graph.nodes@[j])
    &&& same_structure(c.graph.dirty, prev.graph.dirty)
}

/// A pull keeps what the context had.
pub proof fn lemma_pulled_grown(c: Context, prev: Context)
    requires
        pulled_from(c, prev),
    ensures
        grown(c, prev),
{
    assert forall|i: int, t: usize| 0 <= i < prev.graph.dirty.nodes@.len() && #[trigger] prev.graph.dirty.nodes@[i].targets@.contains(t)
        implies c.graph.dirty.nodes@[i].targets@.contains(t) by {
        assert(c.graph.dirty.nodes@[i].targets == prev.graph.dirty.nodes@[i].targets);
    }
}

/// An output on node `n` with receive node `d` will read everything
/// committed to the input nodes that `n` reads (not through saved or split
/// relations): those inputs announce their changes to `d`, no save or split
/// uses `d`, and either `d` is set dirty or nothing waits for `n`.
pub open spec fn ready_at(c: Context, n: int, d: usize) -> bool {
    &&& 0 <= n < c.graph.nodes@.len()
    &&& announced(c, n, d)
    &&& own_flag(c, d)
    &&& (c.graph.dirty.nodes@[d as int].dirty || inputs_drained(c.graph, n))
}

/// Every output that was ready in `prev`, but the one with receive node
/// `x`, is still ready in `c`.
pub open spec fn ready_kept(c: Context, prev: Context, x: int) -> bool {
    forall|n: int, d: usize| #[trigger] ready_at(prev, n, d) && d != x ==> ready_at(c, n, d)
}

/// A commit keeps every output ready.
pub proof fn lemma_ready_committed(c0: Context, c1: Context)
    requires
        c0.wf(),
        committed(c1, c0),
    ensures
        ready_kept(c1, c0, -1),
{
    lemma_committed_grown(c1, c0);
    assert forall|n: int, d: usize| #[trigger] ready_at(c0, n, d) && d != -1 implies ready_at(c1, n, d) by {
        lemma_announced_grown(c0, c1, n, d);
        lemma_own_flag_grown(c0, c1, d);
        let g0 = c0.graph;
        let g1 = c1.graph;
        if !g1.dirty.nodes@[d as int].dirty {
            assert(!g0.dirty.nodes@[d as int].dirty);
            lemma_grown_refl(c0);
            assert forall|j: int| 0 <= j < g0.nodes@.len() implies #[trigger] same_reads(g1.nodes@[j], g0.nodes@[j]) by {
                assert(same_reads(c0.graph.nodes@[j], c0.graph.nodes@[j]));
            }
            assert forall|m: int| #[trigger] reads_input(g0, n, m) implies g1.pipes.pending(g0.nodes@[m]->Input_buffer).len() == 0 by {
                lemma_drained_reads(g0, n, m);
                let j = choose|j: int| 0 <= j < c0.inputs@.len() && c0.inputs@[j].node == m
                    && #[trigger] g0.dirty.nodes@[c0.inputs@[j].send as int].targets@.contains(d);
                assert(c0.input_ok(j));
                if c0.handlers.handlers@[j].is_queued {
                    let send = c0.inputs@[j].send;
                    let t = choose|t: int| 0 <= t < g0.dirty.nodes@[send as int].targets@.len()
                        && g0.dirty.nodes@[send as int].targets@[t] == d;
                    assert(g1.dirty.nodes@[g0.dirty.nodes@[send as int].targets@[t] as int].dirty);
                }
                assert(c1.inputs@[j].pending@.len() == 0);
                let b = c0.input_buffer(j);
                assert(g1.pipes.pending(b) == g0.pipes.pending(b) + c0.inputs@[j].pending@);
                assert(g1.pipes.pending(b) =~= g0.pipes.pending(b));
            }
            lemma_drained_again(g0, g1, n);
        }
    }
}

/// A pull for another output, which set clean only its receive node `x`
/// and receive nodes of saves and splits, keeps every other output ready.
pub proof fn lemma_ready_pulled(c0: Context, c1: Context, x: int)
    requires
        c0.wf(),
        pulled_from(c1, c0),
        flags_kept_but(c1.graph, c0.graph, x),
        c1.graph.inputs_taken(c0.graph),
    ensures
        ready_kept(c1, c0, x),
{
    lemma_pulled_grown(c1, c0);
    assert forall|n: int, d: usize| #[trigger] ready_at(c0, n, d) && d != x implies ready_at(c1, n, d) by {
        lemma_announced_grown(c0, c1, n, d);
        lemma_own_flag_grown(c0, c1, d);
        let g0 = c0.graph;
        let g1 = c1.graph;
        if g0.dirty.nodes@[d as int].dirty {
            assert(g1.dirty.nodes@[d as int].dirty);
        } else {
            assert(g0.inputs_ok());
            assert forall|m: int| #[trigger] reads_input(g0, n, m) implies g1.pipes.pending(g0.nodes@[m]->Input_buffer).len() == 0 by {
                lemma_drained_reads(g0, n, m);
                assert(g0.input_bufs@.contains(g0.nodes@[m]->Input_buffer));
            }
            lemma_drained_again(g0, g1, n);
        }
    }
}

/// Sending to inputs, which keeps the graph and what the context had,
/// keeps every output ready.
pub proof fn lemma_ready_sent(c0: Context, c1: Context)
    requires
        c0.wf(),
        c1.graph == c0.graph,
        grown(c1, c0),
    ensures
        ready_kept(c1, c0, -1),
{
    assert forall|n: int, d: usize| #[trigger] ready_at(c0, n, d) && d != -1 implies ready_at(c1, n, d) by {
        lemma_announced_grown(c0, c1, n, d);
        lemma_own_flag_grown(c0, c1, d);
    }
}

/// Taking the notifications of the dirty graph keeps every output ready.
pub proof fn lemma_ready_notified(c0: Context, c1: Context)
    requires
        c0.wf(),
        c1.inputs == c0.inputs,
        c1.graph.nodes == c0.graph.nodes,
        c1.graph.pipes == c0.graph.pipes,
        c1.graph.dirty.nodes == c0.graph.dirty.nodes,
    ensures
        ready_kept(c1, c0, -1),
{
    lemma_grown_refl(c0);
    assert(grown(c1, c0)) by {
        assert forall|j: int| 0 <= j < c0.graph.nodes@.len() implies #[trigger] same_reads(c1.graph.nodes@[j], c0.graph.nodes@[j]) by {
            assert(same_reads(c0.graph.nodes@[j], c0.graph.nodes@[j]));
        }
    }
    assert forall|n: int, d: usize| #[trigger] ready_at(c0, n, d) && d != -1 implies ready_at(c1, n, d) by {
        lemma_announced_grown(c0, c1, n, d);
        lemma_own_flag_grown(c0, c1, d);
        if !c0.graph.dirty.nodes@[d as int].dirty {
            assert forall|m: int| #[trigger] reads_input(c0.graph, n, m) implies c1.graph.pipes.pending(c0.graph.nodes@[m]->Input_buffer).len() == 0 by {
                lemma_drained_reads(c0.graph, n, m);
            }
            lemma_drained_again(c0.graph, c1.graph, n);
        }
    }
}

/// Keeping every output ready but one composes.
pub proof fn lemma_ready_kept_trans(a: Context, b: Context, c: Context, x: int, y: int, z: int)
    requires
        ready_kept(b, a, x),
        ready_kept(c, b, y),
        x == z || x == -1,
        y == z || y == -1,
    ensures
        ready_kept(c, a, z),
{
    assert forall|n: int, d: usize| #[trigger] ready_at(a, n, d) && d != z implies ready_at(c, n, d) by {
        assert(ready_at(b, n, d));
    }
}

/// `o` and `c` are `prev_o` and `prev_c` after a refresh of the output that
/// returned `r`.
pub open spec fn refreshed<M: CountMap>(
    o: Output<M>,
    c: Context,
    r: Result<Option<Vec<Delta>>, Error>,
    prev_o: Output<M>,
    prev_c: Context,
) -> bool {
    &&& o.data.cm_wf()
    &&& o.context == prev_o.context
    &&& o.node == prev_o.node
    &&& o.dirty == prev_o.dirty
    &&& c.id == prev_c.id
    &&& ((r is Err && r->Err_0 is ContextMismatch) <==> (prev_o.node >= prev_c.graph.nodes@.len() || prev_o.dirty
        >= prev_c.graph.dirty.nodes@.len() || !(prev_c.graph.owner@[prev_o.node as int] is Outside)))
    &&& (r is Err ==> r->Err_0 is ContextMismatch || r->Err_0 is CountOverflow)
    &&& (r is Err && r->Err_0 is CountOverflow ==> {
        &&& prev_c.graph.dirty.nodes@[prev_o.dirty as int].dirty
        &&& (safe_pull(prev_c.graph, prev_o.node as int) ==> !prev_o.data.spec_fits(
            emitted(c.graph, prev_c.graph, prev_o.node as int),
        ))
    })
    &&& (r is Err && r->Err_0 is ContextMismatch ==> c == prev_c && o == prev_o)
    &&& ((prev_o.node < prev_c.graph.nodes@.len() && prev_o.dirty < prev_c.graph.dirty.nodes@.len()
        && prev_c.graph.owner@[prev_o.node as int] is Outside && !prev_c.graph.dirty.nodes@[prev_o.dirty as int].dirty)
        ==> r matches Ok(None))
    &&& (r is Ok ==> c.wf() && pulled_from(c, prev_c))
    &&& (r is Ok ==> c.graph.pulled_by_owners(prev_c.graph, prev_o.node as int))
    &&& (r is Ok ==> !c.graph.dirty.nodes@[prev_o.dirty as int].dirty)
    &&& (r is Ok ==> flags_kept_but(c.graph, prev_c.graph, prev_o.dirty as int))
    &&& (r is Ok ==> c.graph.inputs_taken(prev_c.graph))
    &&& (r matches Ok(None) ==> o.data == prev_o.data && !prev_c.graph.dirty.nodes@[prev_o.dirty as int].dirty
        && c.graph.hist == prev_c.graph.hist)
    &&& (r matches Ok(Some(v)) ==> {
        &&& prev_c.graph.dirty.nodes@[prev_o.dirty as int].dirty
        &&& prev_o.data.spec_fits(v@)
        &&& M::spec_added_all(prev_o.data, v@, o.data)
        &&& c.graph.hist@[prev_o.node as int] == prev_c.graph.hist@[prev_o.node as int] + v@
        &&& pulled_shape(prev_c.graph.nodes@[prev_o.node as int], c.graph, prev_c.graph, v@)
        &&& inputs_drained(c.graph, prev_o.node as int)
        &&& (prev_c.graph.nodes@[prev_o.node as int] is Input ==> v@ == prev_c.graph.pipes.pending(
            prev_c.graph.nodes@[prev_o.node as int]->Input_buffer,
        ))
    })
}

/// `o` reads a node of `c` that nothing else in the graph consumes, and
/// holds, for each value, the net count of everything that node has emitted.
pub open spec fn tracks(o: Output<Counts>, c: Context) -> bool {
    &&& o.node < c.graph.nodes@.len()
    &&& c.graph.owner@[o.node as int] is Outside
    &&& forall|d: Datum| #[trigger] o.data.count(d) == count_in(c.graph.hist@[o.node as int], d)
}

/// What a refresh that returned `r` says its node emitted.
pub proof fn lemma_emitted(r: Result<Option<Vec<Delta>>, Error>, c0: Context, c1: Context, n: int)
    requires
        r matches Ok(Some(v)) ==> c1.graph.hist@[n] == c0.graph.hist@[n] + v@,
        r matches Ok(None) ==> c1.graph.hist == c0.graph.hist,
    ensures
        r matches Ok(Some(v)) ==> emitted(c1.graph, c0.graph, n) == v@,
        r matches Ok(None) ==> emitted(c1.graph, c0.graph, n) == Seq::<Delta>::empty(),
{
    if let Ok(Some(v)) = r {
        assert(emitted(c1.graph, c0.graph, n) =~= v@);
    }
    if let Ok(None) = r {
        assert(emitted(c1.graph, c0.graph, n) =~= Seq::<Delta>::empty());
    }
}

impl<M: CountMap> Output<M> {
    /// An output that reads node `node` when the receive node `dirty` says it changed.
    pub fn new(context: u64, node: usize, dirty: usize) -> (r: Output<M>)
        ensures
            r.context == context,
            r.node == node,
            r.dirty == dirty,
            r.data.cm_wf(),
            r.data.cm_empty(),
    {
        Output { context, node, dirty, data: M::empty() }
    }

    /// Brings the data up to date: when the receive node is dirty, clears it,
    /// pulls the node and adds the changes that come out, which it returns.
    ///
    /// Fails with `ContextMismatch`, changing nothing, when the context has no
    /// such node or receive node, or the node is not one that an output
    /// reads; with `CountOverflow` when a count leaves the range of `isize`,
    /// after which the context may be unusable. That happens only when the
    /// receive node was dirty, and, where the pull cannot fail (see
    /// `node_safe`), only when the changes do not fit in the data.
    pub fn refresh(&mut self, ctx: &mut Context) -> (r: Result<Option<Vec<Delta>>, Error>)
        requires
            old(ctx).wf(),
            old(self).data.cm_wf(),
        ensures
            refreshed(*final(self), *final(ctx), r, *old(self), *old(ctx)),
    {
        if self.node >= ctx.graph.nodes.len() || self.dirty >= ctx.graph.dirty.nodes.len() {
            return Err(Error::ContextMismatch);
        }
        match ctx.graph.owner[self.node] {
            Owner::Outside => {},
            _ => {
                return Err(Error::ContextMismatch);
            },
        }
        let ghost c0 = *ctx;
        let is_dirty = DirtyReceive { id: self.dirty }.take_status(&mut ctx.graph.dirty);
        proof {
            ctx.graph.lemma_wf_grow(c0.graph);
            ctx.lemma_wf_extend(c0);
        }
        if !is_dirty {
            return Ok(None);
        }
        let ghost c1 = *ctx;
        proof {
            assert forall|j: int| 0 <= j < self.node as int implies #[trigger] same_links(c1.graph.nodes@[j], c0.graph.nodes@[j]) by {
                lemma_same_links_refl(c0.graph.nodes@[j]);
            }
            lemma_same_links_refl(c0.graph.nodes@[self.node as int]);
            lemma_node_safe_stable(c0.graph, c1.graph, c0.graph.nodes@[self.node as int], c1.graph.nodes@[self.node as int], self.node as int);
        }
        let data = match ctx.graph.pull_node(self.node) {
            Ok(v) => v,
            Err(e) => {
                return Err(e);
            },
        };
        proof {
            ctx.lemma_wf_extend(c1);
            lemma_flags_kept_but_trans(c0.graph, c1.graph, ctx.graph, self.dirty as int);
        }
        proof {
            assert(emitted(ctx.graph, c0.graph, self.node as int) =~= data@);
        }
        match self.data.add_all(&data) {
            Ok(()) => Ok(Some(data)),
            Err(e) => Err(overflow_error(e)),
        }
    }
}

} // verus!
