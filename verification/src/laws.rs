use vstd::prelude::*;
use crate::datum::{Datum, Delta};
use crate::count::{count_in, lemma_count_concat};
use crate::counts::Counts;
use crate::context::{Context, committed, announced, own_flag, lemma_committed_grown, lemma_announced_grown, lemma_own_flag_grown, lemma_grown_refl};
use crate::output::{Output, refreshed, tracks, lemma_pulled_grown, ready_at, lemma_ready_pulled, lemma_ready_sent};
use crate::count_map::CountMap;
use crate::graph::{sem_of, pulled_more, emitted, inputs_complete, inputs_drained, lemma_drained_complete, lemma_drained_reads, lemma_drained_again, lemma_drained_of_reads, reads_input, same_reads};
use crate::execution::{ExecutionContext, got, outputs_kept, unread_by_feeders, ctx_sent};
use crate::error::Error;

verus! {

/// What is sent to an input comes back from an output that reads it: when
/// the input has something to commit, a commit followed by a refresh of an
/// output on the input's relation adds to the output's counts exactly what
/// waited in the input's buffer and what was sent since the last commit.
pub proof fn law_commit_then_read(
    c0: Context,
    c1: Context,
    o0: Output<Counts>,
    o1: Output<Counts>,
    c2: Context,
    r: Result<Option<Vec<Delta>>, Error>,
    j: int,
)
    requires
        c0.wf(),
        0 <= j < c0.inputs@.len(),
        c0.handlers.handlers@[j].is_queued,
        o0.node == c0.inputs@[j].node,
        o0.dirty < c0.graph.dirty.nodes@.len(),
        announced(c0, o0.node as int, o0.dirty),
        committed(c1, c0),
        refreshed(o1, c2, r, o0, c1),
        r is Ok,
    ensures
        r matches Ok(Some(v)) && v@ == c0.graph.pipes.pending(c0.input_buffer(j)) + c0.inputs@[j].pending@,
        forall|d: Datum|
            #[trigger] o1.data.count(d) == o0.data.count(d) + count_in(c0.graph.pipes.pending(c0.input_buffer(j)), d)
                + count_in(c0.inputs@[j].pending@, d),
{
    assert(c0.input_ok(j));
    assert(reads_input(c0.graph, o0.node as int, o0.node as int));
    let j1 = choose|j1: int| 0 <= j1 < c0.inputs@.len() && c0.inputs@[j1].node == o0.node
        && #[trigger] c0.graph.dirty.nodes@[c0.inputs@[j1].send as int].targets@.contains(o0.dirty);
    if j1 != j {
        assert(c0.input_buffer(j1) != c0.input_buffer(j));
    }
    let send = c0.inputs@[j].send;
    let t = choose|t: int| 0 <= t < c0.graph.dirty.nodes@[send as int].targets@.len()
        && c0.graph.dirty.nodes@[send as int].targets@[t] == o0.dirty;
    assert(c1.graph.dirty.nodes@[c0.graph.dirty.nodes@[send as int].targets@[t] as int].dirty);
    assert(c1.graph.nodes@[o0.node as int] is Input);
    assert(c1.graph.dirty.nodes@[o0.dirty as int].dirty);
    assert(r->Ok_0 is Some);
    let v = r->Ok_0->Some_0;
    assert(c1.inputs@[j].pending@.len() == 0);
    assert(c1.graph.nodes@[o0.node as int]->Input_buffer == c0.input_buffer(j));
    assert(v@ == c1.graph.pipes.pending(c0.input_buffer(j)));
    assert(v@ == c0.graph.pipes.pending(c0.input_buffer(j)) + c0.inputs@[j].pending@);
    assert forall|d: Datum| #[trigger] o1.data.count(d) == o0.data.count(d) + count_in(
        c0.graph.pipes.pending(c0.input_buffer(j)),
        d,
    ) + count_in(c0.inputs@[j].pending@, d) by {
        assert(o1.data.count(d) == o0.data.count(d) + count_in(v@, d));
        lemma_count_concat(c0.graph.pipes.pending(c0.input_buffer(j)), c0.inputs@[j].pending@, d);
    }
}


/// A refresh keeps an output in step with its node: after a successful
/// refresh the output still holds, for each value, the net count of
/// everything its node has emitted.
pub proof fn law_refresh_keeps_track(
    o0: Output<Counts>,
    c0: Context,
    o1: Output<Counts>,
    c1: Context,
    r: Result<Option<Vec<Delta>>, Error>,
)
    requires
        c0.wf(),
        tracks(o0, c0),
        refreshed(o1, c1, r, o0, c0),
        r is Ok,
    ensures
        tracks(o1, c1),
{
    assert(c1.graph.owner == c0.graph.owner);
    if let Ok(Some(v)) = r {
        assert forall|d: Datum| #[trigger] o1.data.count(d) == count_in(c1.graph.hist@[o1.node as int], d) by {
            lemma_count_concat(c0.graph.hist@[o0.node as int], v@, d);
        }
    }
}

/// Refreshing one output leaves the node of every other output alone: an
/// output in step with its node stays so while another one is refreshed.
pub proof fn law_refresh_spares_others<M: CountMap>(
    o: Output<Counts>,
    c0: Context,
    p0: Output<M>,
    p1: Output<M>,
    c1: Context,
    r: Result<Option<Vec<Delta>>, Error>,
)
    requires
        c0.wf(),
        tracks(o, c0),
        p0.node != o.node,
        refreshed(p1, c1, r, p0, c0),
        r is Ok,
    ensures
        tracks(o, c1),
{
    let n = o.node as int;
    assert(c1.graph.pulled_by_owners(c0.graph, p0.node as int));
    assert(c0.graph.owner@[n] is Outside);
    if pulled_more(c1.graph.pulls@, c0.graph.pulls@, n) {
        assert(c0.graph.owner@[n] is Free || c0.graph.owner@[n] is Node);
    }
    assert(c1.graph.hist@[n] == c0.graph.hist@[n]);
}

/// A commit changes what no node has emitted, so it keeps every output in
/// step with its node.
pub proof fn law_commit_keeps_track(o: Output<Counts>, c0: Context, c1: Context)
    requires
        tracks(o, c0),
        committed(c1, c0),
    ensures
        tracks(o, c1),
{
}

/// What an output holds is its relation computed from what its operands
/// have emitted, and so on down to the inputs: the output holds the net
/// count of each value its node has emitted, and that node, like every node
/// of the graph, has emitted what its operator makes of what its own
/// operands emitted (see `sem_of`).
pub proof fn law_output_is_operator(o: Output<Counts>, c: Context)
    requires
        c.wf(),
        tracks(o, c),
    ensures
        forall|d: Datum| #[trigger] o.data.count(d) == count_in(c.graph.hist@[o.node as int], d),
        sem_of(c.graph.nodes@[o.node as int], c.graph.hist@, c.graph.hist@[o.node as int]),
        forall|k: int| 0 <= k < c.graph.nodes@.len() ==> #[trigger] sem_of(c.graph.nodes@[k], c.graph.hist@, c.graph.hist@[k]),
{
}


/// Reading an output keeps it in step with its node: after a successful
/// read it holds, for each value, the net count of everything its node has
/// emitted.
pub proof fn law_get_keeps_track(o0: Output<Counts>, e0: ExecutionContext, o1: Output<Counts>, e1: ExecutionContext)
    requires
        e0.wf(),
        !e0.failed,
        tracks(o0, e0.core),
        got(o1, e1, o0, e0),
    ensures
        tracks(o1, e1.core),
{
    let n = o0.node as int;
    if e0.core.graph.dirty.nodes@[o0.dirty as int].dirty {
        let v = emitted(e1.core.graph, e0.core.graph, n);
        assert forall|d: Datum| #[trigger] o1.data.count(d) == count_in(e1.core.graph.hist@[n], d) by {
            lemma_count_concat(e0.core.graph.hist@[n], v, d);
        }
    }
}

/// Reading one output leaves the node of every other output alone.
pub proof fn law_get_spares_others<M: CountMap>(
    o: Output<Counts>,
    e0: ExecutionContext,
    p0: Output<M>,
    p1: Output<M>,
    e1: ExecutionContext,
)
    requires
        e0.wf(),
        !e0.failed,
        tracks(o, e0.core),
        p0.node != o.node,
        got(p1, e1, p0, e0),
    ensures
        tracks(o, e1.core),
{
    e1.core.graph.lemma_outside_unpulled(e0.core.graph, p0.node as int, o.node as int);
}

/// A commit of an execution context, with all the feeding it does, leaves
/// alone every output that no feeder reads: such an output stays in step
/// with its node until it is read.
pub proof fn law_commit_spares_outputs(o: Output<Counts>, e0: ExecutionContext, e1: ExecutionContext)
    requires
        tracks(o, e0.core),
        unread_by_feeders(e0.feeders@, o.node as int),
        outputs_kept(e1, e0),
    ensures
        tracks(o, e1.core),
{
    assert(e1.core.graph.hist@[o.node as int] == e0.core.graph.hist@[o.node as int]);
}

/// What is written is read back: in a context without feeders, an output
/// in step with the node of an input, read after a commit, holds what it
/// held plus what waited in the input's buffer and what was sent to the
/// input since the last commit, and stays in step with the node.
pub proof fn law_read_after_write(
    o0: Output<Counts>,
    e0: ExecutionContext,
    e1: ExecutionContext,
    o2: Output<Counts>,
    e2: ExecutionContext,
    j: int,
)
    requires
        e0.wf(),
        !e0.failed,
        0 <= j < e0.core.inputs@.len(),
        e0.core.handlers.handlers@[j].is_queued,
        tracks(o0, e0.core),
        o0.node == e0.core.inputs@[j].node,
        o0.dirty < e0.core.graph.dirty.nodes@.len(),
        announced(e0.core, o0.node as int, o0.dirty),
        committed(e1.core, e0.core),
        !e1.failed,
        e1.wf(),
        got(o2, e2, o0, e1),
    ensures
        forall|d: Datum|
            #[trigger] o2.data.count(d) == o0.data.count(d) + count_in(e0.core.graph.pipes.pending(e0.core.input_buffer(j)), d)
                + count_in(e0.core.inputs@[j].pending@, d),
        tracks(o2, e2.core),
{
    let c0 = e0.core;
    let c1 = e1.core;
    assert(c0.input_ok(j));
    assert(reads_input(c0.graph, o0.node as int, o0.node as int));
    let j1 = choose|j1: int| 0 <= j1 < c0.inputs@.len() && c0.inputs@[j1].node == o0.node
        && #[trigger] c0.graph.dirty.nodes@[c0.inputs@[j1].send as int].targets@.contains(o0.dirty);
    if j1 != j {
        assert(c0.input_buffer(j1) != c0.input_buffer(j));
    }
    let send = c0.inputs@[j].send;
    let t = choose|t: int| 0 <= t < c0.graph.dirty.nodes@[send as int].targets@.len()
        && c0.graph.dirty.nodes@[send as int].targets@[t] == o0.dirty;
    assert(c1.graph.dirty.nodes@[c0.graph.dirty.nodes@[send as int].targets@[t] as int].dirty);
    assert(c1.graph.nodes@[o0.node as int] is Input);
    let n = o0.node as int;
    let b = c0.input_buffer(j);
    assert(c1.graph.nodes@[n]->Input_buffer == b);
    let v = emitted(e2.core.graph, c1.graph, n);
    assert(c1.inputs@[j].pending@.len() == 0);
    assert(c1.graph.pipes.pending(b) == c0.graph.pipes.pending(b) + c0.inputs@[j].pending@);
    assert(v == c0.graph.pipes.pending(b) + c0.inputs@[j].pending@);
    assert forall|d: Datum| #[trigger] o2.data.count(d) == o0.data.count(d) + count_in(c0.graph.pipes.pending(b), d)
        + count_in(c0.inputs@[j].pending@, d) by {
        lemma_count_concat(c0.graph.pipes.pending(b), c0.inputs@[j].pending@, d);
    }
    assert forall|d: Datum| #[trigger] o2.data.count(d) == count_in(e2.core.graph.hist@[n], d) by {
        lemma_count_concat(c1.graph.hist@[n], v, d);
    }
}


/// Reading an output twice with no commit in between gives the same
/// result: the first read leaves nothing for the second.
pub proof fn law_read_twice<M: CountMap>(
    o0: Output<M>,
    e0: ExecutionContext,
    o1: Output<M>,
    e1: ExecutionContext,
    o2: Output<M>,
    e2: ExecutionContext,
)
    requires
        got(o1, e1, o0, e0),
        got(o2, e2, o1, e1),
    ensures
        o2.data == o1.data,
{
}


/// An input's node has emitted, in order, everything sent to its buffer
/// except what still waits there.
pub proof fn law_input_emits_what_was_sent(c: Context, j: int)
    requires
        c.wf(),
        0 <= j < c.inputs@.len(),
    ensures
        c.graph.hist@[c.inputs@[j].node as int] + c.graph.pipes.pending(c.input_buffer(j)) == c.graph.pipes.sent@[c.input_buffer(
            j,
        ) as int],
{
    assert(c.input_ok(j));
    let k = c.inputs@[j].node as int;
    assert(match c.graph.nodes@[k] {
        crate::graph::Node::Input { buffer } => c.graph.input_bufs@.contains(buffer) && c.graph.hist@[k]
            + c.graph.pipes.pending(buffer) == c.graph.pipes.sent@[buffer as int],
        _ => true,
    });
}

/// A commit sends to each input's buffer exactly what was sent to the
/// input since the last commit.
pub proof fn law_commit_records_sends(c0: Context, c1: Context, j: int)
    requires
        committed(c1, c0),
        0 <= j < c0.inputs@.len(),
    ensures
        c1.graph.pipes.sent@[c0.input_buffer(j) as int] == c0.graph.pipes.sent@[c0.input_buffer(j) as int]
            + c0.inputs@[j].pending@,
{
    assert(c1.inputs@[j].pending@.len() == 0);
}

/// Reading an output sends nothing to any input: the buffers of input
/// nodes only ever receive what commits send.
pub proof fn law_reads_send_nothing<M: CountMap>(
    o0: Output<M>,
    e0: ExecutionContext,
    o1: Output<M>,
    e1: ExecutionContext,
    j: int,
)
    requires
        e0.wf(),
        !e0.failed,
        0 <= j < e0.core.inputs@.len(),
        got(o1, e1, o0, e0),
    ensures
        e1.core.graph.pipes.sent@[e0.core.input_buffer(j) as int] == e0.core.graph.pipes.sent@[e0.core.input_buffer(
            j,
        ) as int],
{
    assert(e0.core.input_ok(j));
    let k = e0.core.inputs@[j].node as int;
    assert(match e0.core.graph.nodes@[k] {
        crate::graph::Node::Input { buffer } => e0.core.graph.input_bufs@.contains(buffer),
        _ => true,
    });
}

/// What is written is read back, through any relation that reads no saved
/// or split relation: when a commit changed an output's relation since it
/// was last read, reading it brings the output in step with its node, every
/// input node under that node has emitted everything sent to it, and every
/// node has emitted what its operator makes of what its operands emitted.
pub proof fn law_read_is_complete(o0: Output<Counts>, e0: ExecutionContext, o1: Output<Counts>, e1: ExecutionContext)
    requires
        e0.wf(),
        !e0.failed,
        e1.wf(),
        tracks(o0, e0.core),
        e0.core.graph.dirty.nodes@[o0.dirty as int].dirty,
        got(o1, e1, o0, e0),
    ensures
        tracks(o1, e1.core),
        inputs_complete(e1.core.graph, o1.node as int),
        forall|k: int| 0 <= k < e1.core.graph.nodes@.len() ==> #[trigger] sem_of(e1.core.graph.nodes@[k], e1.core.graph.hist@, e1.core.graph.hist@[k]),
{
    law_get_keeps_track(o0, e0, o1, e1);
    lemma_drained_complete(e1.core.graph, o1.node as int);
}

/// What is written is read back at every read: in a context without
/// feeders, take an output that a read left complete, that is, every input
/// node that its relation reads (not through saved or split relations) has
/// nothing left waiting. After a commit and another read, whether or not
/// the commit touched the output, it is complete again: every such input
/// node has emitted everything ever sent to it, the output holds the net
/// count of everything its node emitted, and every node has emitted what
/// its operator makes of what its operands emitted.
pub proof fn law_read_stays_complete(
    o0: Output<Counts>,
    e0: ExecutionContext,
    e1: ExecutionContext,
    o2: Output<Counts>,
    e2: ExecutionContext,
)
    requires
        e0.wf(),
        !e0.failed,
        tracks(o0, e0.core),
        announced(e0.core, o0.node as int, o0.dirty),
        inputs_drained(e0.core.graph, o0.node as int),
        committed(e1.core, e0.core),
        e1.wf(),
        !e1.failed,
        got(o2, e2, o0, e1),
        e2.wf(),
    ensures
        tracks(o2, e2.core),
        announced(e2.core, o2.node as int, o2.dirty),
        inputs_drained(e2.core.graph, o2.node as int),
        inputs_complete(e2.core.graph, o2.node as int),
        forall|k: int| 0 <= k < e2.core.graph.nodes@.len() ==> #[trigger] sem_of(e2.core.graph.nodes@[k], e2.core.graph.hist@, e2.core.graph.hist@[k]),
{
    let n = o0.node as int;
    let d = o0.dirty;
    let c0 = e0.core;
    let c1 = e1.core;
    let g0 = c0.graph;
    let g1 = c1.graph;
    let g2 = e2.core.graph;
    lemma_committed_grown(c1, c0);
    lemma_announced_grown(c0, c1, n, d);
    law_commit_keeps_track(o0, c0, c1);
    if !g1.dirty.nodes@[d as int].dirty {
        lemma_grown_refl(c0);
        assert forall|j: int| 0 <= j < g0.nodes@.len() implies #[trigger] same_reads(g1.nodes@[j], g0.nodes@[j]) by {
            assert(same_reads(c0.graph.nodes@[j], c0.graph.nodes@[j]));
        }
        assert forall|m: int| #[trigger] reads_input(g0, n, m) implies g1.pipes.pending(g0.nodes@[m]->Input_buffer).len() == 0 by {
            lemma_drained_reads(g0, n, m);
            let j = choose|j: int| 0 <= j < c0.inputs@.len() && c0.inputs@[j].node == m
                && #[trigger] g0.dirty.nodes@[c0.inputs@[j].send as int].targets@.contains(d);
            assert(c0.input_ok(j));
            if c0.handlers.handlers@[j].is_queued {
                let send = c0.inputs@[j].send;
                let t = choose|t: int| 0 <= t < g0.dirty.nodes@[send as int].targets@.len()
                    && g0.dirty.nodes@[send as int].targets@[t] == d;
                assert(g1.dirty.nodes@[g0.dirty.nodes@[send as int].targets@[t] as int].dirty);
            }
            assert(c1.inputs@[j].pending@.len() == 0);
            let b = c0.input_buffer(j);
            assert(c1.graph.pipes.pending(b) == c0.graph.pipes.pending(b) + c0.inputs@[j].pending@);
            assert(c1.graph.pipes.pending(b) =~= c0.graph.pipes.pending(b));
        }
        lemma_drained_again(g0, g1, n);
        assert(g1.inputs_ok());
        assert forall|m: int| #[trigger] reads_input(g1, n, m) implies g2.pipes.pending(g1.nodes@[m]->Input_buffer).len() == 0 by {
            lemma_drained_reads(g1, n, m);
            assert(g1.input_bufs@.contains(g1.nodes@[m]->Input_buffer));
        }
        lemma_drained_again(g1, g2, n);
    }
    law_get_keeps_track(o0, e1, o2, e2);
    lemma_pulled_grown(e2.core, c1);
    lemma_announced_grown(c1, e2.core, n, d);
    lemma_drained_complete(g2, n);
}

/// An output starts ready to read everything: while nothing was ever
/// committed to the inputs, the input nodes that an output's relation
/// reads (not through saved or split relations) have nothing waiting, so
/// the output is ready (see `ready_at`) as soon as those inputs announce
/// their changes to its receive node and no save or split uses that node,
/// which is how `into_output` makes it.
pub proof fn law_ready_before_commits(o: Output<Counts>, c: Context)
    requires
        c.wf(),
        o.node < c.graph.nodes@.len(),
        announced(c, o.node as int, o.dirty),
        own_flag(c, o.dirty),
        forall|j: int| 0 <= j < c.inputs@.len() ==> c.graph.pipes.sent@[#[trigger] c.input_buffer(j) as int].len() == 0,
    ensures
        inputs_drained(c.graph, o.node as int),
        ready_at(c, o.node as int, o.dirty),
{
    let n = o.node as int;
    assert forall|m: int| #[trigger] reads_input(c.graph, n, m) implies c.graph.pipes.pending(c.graph.nodes@[m]->Input_buffer).len() == 0 by {
        let j = choose|j: int| 0 <= j < c.inputs@.len() && c.inputs@[j].node == m
            && #[trigger] c.graph.dirty.nodes@[c.inputs@[j].send as int].targets@.contains(o.dirty);
        assert(c.input_ok(j));
        let b = c.input_buffer(j);
        assert(c.graph.inputs_ok());
        assert(c.graph.nodes@[m] is Input);
        assert(c.graph.hist@[m] + c.graph.pipes.pending(b) == c.graph.pipes.sent@[b as int]);
        assert((c.graph.hist@[m] + c.graph.pipes.pending(b)).len() == 0);
    }
    lemma_drained_of_reads(c.graph, n);
}

/// Every read gives the whole relation: reading an output that is ready
/// (see `ready_at`; outputs start so, and commits and reads of other
/// outputs keep them so) leaves every input node that its relation reads
/// (not through saved or split relations) having emitted everything ever
/// sent to it, the output holding the net count of everything its node
/// emitted, every node having emitted what its operator makes of what its
/// operands emitted, and the output ready again.
pub proof fn law_read_is_whole(o0: Output<Counts>, e0: ExecutionContext, o1: Output<Counts>, e1: ExecutionContext)
    requires
        e0.wf(),
        !e0.failed,
        tracks(o0, e0.core),
        ready_at(e0.core, o0.node as int, o0.dirty),
        got(o1, e1, o0, e0),
        e1.wf(),
    ensures
        tracks(o1, e1.core),
        inputs_complete(e1.core.graph, o1.node as int),
        forall|k: int| 0 <= k < e1.core.graph.nodes@.len() ==> #[trigger] sem_of(e1.core.graph.nodes@[k], e1.core.graph.hist@, e1.core.graph.hist@[k]),
        ready_at(e1.core, o1.node as int, o1.dirty),
{
    let n = o0.node as int;
    let d = o0.dirty;
    let g0 = e0.core.graph;
    let g1 = e1.core.graph;
    law_get_keeps_track(o0, e0, o1, e1);
    lemma_pulled_grown(e1.core, e0.core);
    lemma_announced_grown(e0.core, e1.core, n, d);
    lemma_own_flag_grown(e0.core, e1.core, d);
    if !g0.dirty.nodes@[d as int].dirty {
        assert(g0.inputs_ok());
        assert forall|m: int| #[trigger] reads_input(g0, n, m) implies g1.pipes.pending(g0.nodes@[m]->Input_buffer).len() == 0 by {
            lemma_drained_reads(g0, n, m);
            assert(g0.input_bufs@.contains(g0.nodes@[m]->Input_buffer));
        }
        lemma_drained_again(g0, g1, n);
    }
    lemma_drained_complete(g1, n);
}

/// Reading one output keeps every other output (one with another receive
/// node) ready.
pub proof fn law_reads_keep_others_ready<M: CountMap>(
    e0: ExecutionContext,
    p0: Output<M>,
    p1: Output<M>,
    e1: ExecutionContext,
    n: int,
    d: usize,
)
    requires
        e0.wf(),
        !e0.failed,
        got(p1, e1, p0, e0),
        p0.dirty != d,
        ready_at(e0.core, n, d),
    ensures
        ready_at(e1.core, n, d),
{
    lemma_ready_pulled(e0.core, e1.core, p0.dirty as int);
}

/// Sending changes to an input keeps every output ready: they wait for
/// the next commit.
pub proof fn law_sending_keeps_ready(e0: ExecutionContext, e1: ExecutionContext, idx: usize, data: Seq<Delta>, n: int, d: usize)
    requires
        e0.wf(),
        !e0.failed,
        ctx_sent(e1, e0, idx, data),
        idx < e0.core.inputs@.len(),
        ready_at(e0.core, n, d),
    ensures
        ready_at(e1.core, n, d),
{
    e1.core.lemma_grown_sent(e0.core, idx as int);
    lemma_ready_sent(e0.core, e1.core);
}

} // verus!
