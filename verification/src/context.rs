use vstd::prelude::*;
use crate::datum::Delta;
use crate::graph::{Graph, Node, Owner, same_kind, same_reads, reads_input, lemma_reads_grown, flag_of, source_flag, is_child, owned_by};
use crate::handler_queue::HandlerQueue;
use crate::pipes::Sender;
use crate::dirty::{DirtySend, ReceiveBuilder};
use crate::relation::{Relation, RelOp, label};
use crate::tracking::{labelled, with_kind, with_name, with_hidden};
use crate::rc_collection::RcCollection;
use crate::join::Join;
use crate::antijoin::AntiJoin;
use crate::reduce::Reduce;
use crate::triangles::Triangles;
use crate::error::Error;

verus! {

/// An input of a context: its node, the dirty node that announces its
/// changes, and what was sent to it since the last commit.
pub struct InputState {
    pub node: usize,
    pub send: usize,
    pub pending: Vec<Delta>,
}

/// The state of a context: the graph of its relations, its inputs and the
/// queue of inputs with changes to commit. Input `j` has handler `j`.
pub struct Context {
    pub id: u64,
    pub graph: Graph,
    pub handlers: HandlerQueue,
    pub inputs: Vec<InputState>,
}

/// `c` is `prev` after a commit: every input's pending changes have moved
/// to the end of the buffer of its node, in order, and the dirty nodes that
/// each queued input announces to are dirty; the graph is otherwise as it was.
pub open spec fn committed(c: Context, prev: Context) -> bool {
    &&& c.wf()
    &&& c.id == prev.id
    &&& c.graph.nodes == prev.graph.nodes
    &&& c.graph.owner == prev.graph.owner
    &&& c.graph.hist == prev.graph.hist
    &&& c.graph.input_bufs == prev.graph.input_bufs
    &&& c.graph.tracker == prev.graph.tracker
    &&& c.graph.pipes.buffers@.len() == prev.graph.pipes.buffers@.len()
    &&& crate::dirty::same_structure(c.graph.dirty, prev.graph.dirty)
    &&& c.inputs@.len() == prev.inputs@.len()
    &&& c.handlers.queued_handler_inds@.len() == 0
    &&& forall|j: int| 0 <= j < prev.inputs@.len() ==> {
        &&& (#[trigger] c.inputs@[j]).pending@.len() == 0
        &&& c.inputs@[j].node == prev.inputs@[j].node
        &&& c.inputs@[j].send == prev.inputs@[j].send
        &&& c.graph.pipes.pending(prev.input_buffer(j)) == prev.graph.pipes.pending(prev.input_buffer(j))
            + prev.inputs@[j].pending@
        &&& c.graph.pipes.sent@[prev.input_buffer(j) as int] == prev.graph.pipes.sent@[prev.input_buffer(j) as int]
            + prev.inputs@[j].pending@
    }
    &&& forall|j: int, t: int|
        0 <= j < prev.inputs@.len() && #[trigger] prev.handlers.handlers@[j].is_queued && 0 <= t
            < prev.graph.dirty.nodes@[prev.inputs@[j].send as int].targets@.len() ==> c.graph.dirty.nodes@[
        #[trigger] prev.graph.dirty.nodes@[prev.inputs@[j].send as int].targets@[t] as int].dirty
    &&& forall|i: int| 0 <= i < prev.graph.dirty.nodes@.len() && #[trigger] prev.graph.dirty.nodes@[i].dirty
        ==> c.graph.dirty.nodes@[i].dirty
}

/// Every input node that node `n` of `c` reads is the node of an input
/// whose dirty node is one of `sources`.
pub open spec fn inputs_announce(c: Context, n: int, sources: Seq<usize>) -> bool {
    forall|m: int| #[trigger] reads_input(c.graph, n, m) ==> exists|j: int|
        0 <= j < c.inputs@.len() && c.inputs@[j].node == m && #[trigger] sources.contains(c.inputs@[j].send)
}

/// The first input of `c` whose node is `node` is announced by the dirty
/// node `source`.
pub open spec fn first_announces(c: Context, node: usize, source: usize) -> bool {
    exists|j: int|
        0 <= j < c.inputs@.len() && #[trigger] c.inputs@[j].node == node && c.inputs@[j].send == source && forall|j2: int|
            0 <= j2 < j ==> c.inputs@[j2].node != node
}

/// The nodes that the leaves of `rel` name as already held, in order.
pub open spec fn existing_of(rel: Relation) -> Seq<usize>
    decreases rel,
{
    match rel.op {
        RelOp::Existing { node, .. } => seq![node],
        RelOp::SavedRead { .. } => Seq::empty(),
        RelOp::FlatMap(s, _) => existing_of(*s),
        RelOp::Consolidate(s) => existing_of(*s),
        RelOp::Dynamic(s) => existing_of(*s),
        RelOp::Reduce(s, _) => existing_of(*s),
        RelOp::Concat(l, r) => existing_of(*l) + existing_of(*r),
        RelOp::Join(l, r) => existing_of(*l) + existing_of(*r),
        RelOp::AntiJoin(l, r) => existing_of(*l) + existing_of(*r),
        RelOp::Triangles(x, y, z) => existing_of(*x) + existing_of(*y) + existing_of(*z),
    }
}

/// Each leaf of `rel` names something of `c` that it may read: an unread
/// read node, an unread input node whose first input is announced by the
/// leaf's dirty node, or a save node to read anew.
pub open spec fn leaves_ok(c: Context, rel: Relation) -> bool
    decreases rel,
{
    match rel.op {
        RelOp::Existing { context, node, source } => {
            &&& context == c.id
            &&& node < c.graph.nodes@.len()
            &&& source < c.graph.dirty.nodes@.len()
            &&& c.graph.owner@[node as int] is Free
            &&& (c.graph.nodes@[node as int] is Read || (c.graph.nodes@[node as int] is Input && first_announces(
                c,
                node,
                source,
            )))
        },
        RelOp::SavedRead { context, node, source } => {
            &&& context == c.id
            &&& node < c.graph.nodes@.len()
            &&& source < c.graph.dirty.nodes@.len()
            &&& c.graph.nodes@[node as int] is Save
        },
        RelOp::FlatMap(s, _) => leaves_ok(c, *s),
        RelOp::Consolidate(s) => leaves_ok(c, *s),
        RelOp::Dynamic(s) => leaves_ok(c, *s),
        RelOp::Reduce(s, _) => leaves_ok(c, *s),
        RelOp::Concat(l, r) => leaves_ok(c, *l) && leaves_ok(c, *r),
        RelOp::Join(l, r) => leaves_ok(c, *l) && leaves_ok(c, *r),
        RelOp::AntiJoin(l, r) => leaves_ok(c, *l) && leaves_ok(c, *r),
        RelOp::Triangles(x, y, z) => leaves_ok(c, *x) && leaves_ok(c, *y) && leaves_ok(c, *z),
    }
}

/// `rel` can be made into nodes of `c`: each leaf names something it may
/// read, and no node already held is named twice.
pub open spec fn attachable(c: Context, rel: Relation) -> bool {
    leaves_ok(c, rel) && existing_of(rel).no_duplicates()
}

/// The nodes of `prev` below `bound` that `names` leaves out have the
/// consumers in `c` they had in `prev`.
pub open spec fn owners_kept(c: Context, prev: Context, names: Seq<usize>, bound: int) -> bool {
    forall|x: usize| x < bound && !names.contains(x) ==> #[trigger] c.graph.owner@[x as int] == prev.graph.owner@[x as int]
}

/// Between `prev` and `c` no node of `prev` with a consumer lost it, and
/// every node added, but `except`, has one.
pub open spec fn claimed_but(c: Context, prev: Context, except: int) -> bool {
    &&& prev.graph.nodes@.len() <= c.graph.nodes@.len()
    &&& forall|j: int|
        0 <= j < prev.graph.nodes@.len() && !(prev.graph.owner@[j] is Free) ==> !(#[trigger] c.graph.owner@[j] is Free)
    &&& forall|j: int|
        prev.graph.nodes@.len() <= j < c.graph.nodes@.len() && j != except ==> !(#[trigger] c.graph.owner@[j] is Free)
}

/// Two steps that each keep and give consumers keep and give them.
proof fn lemma_claimed_trans(a: Context, b: Context, c: Context)
    requires
        claimed_but(b, a, -1),
        claimed_but(c, b, -1),
    ensures
        claimed_but(c, a, -1),
{
    assert forall|j: int| a.graph.nodes@.len() <= j < c.graph.nodes@.len() && j != -1 implies !(
    #[trigger] c.graph.owner@[j] is Free) by {
        if j < b.graph.nodes@.len() {
            assert(!(b.graph.owner@[j] is Free));
        }
    }
}

/// Adding node `i`, which takes its children, after a step that kept and
/// gave consumers, keeps and gives them but to `i`.
proof fn lemma_add_claimed(c0: Context, cs: Context, c3: Context, i: int)
    requires
        claimed_but(cs, c0, -1),
        c3.graph.wf(),
        i == cs.graph.nodes@.len(),
        c3.graph.nodes@.len() == i + 1,
        forall|j: int| 0 <= j < i && !is_child(c3.graph.nodes@[i], j) ==> #[trigger] c3.graph.owner@[j] == cs.graph.owner@[j],
    ensures
        claimed_but(c3, c0, i),
        forall|j: int| 0 <= j < i && !(cs.graph.owner@[j] is Free) ==> !(#[trigger] c3.graph.owner@[j] is Free),
{
    assert(owned_by(c3.graph.owner@, c3.graph.nodes@[i], i));
    assert forall|j: int| 0 <= j < i && !(cs.graph.owner@[j] is Free) implies !(#[trigger] c3.graph.owner@[j] is Free) by {
        if is_child(c3.graph.nodes@[i], j) {
            assert(c3.graph.owner@[j] matches Owner::Node(p) && p as int == i);
        }
    }
    assert forall|j: int| c0.graph.nodes@.len() <= j < c3.graph.nodes@.len() && j != i implies !(
    #[trigger] c3.graph.owner@[j] is Free) by {
        assert(!(cs.graph.owner@[j] is Free));
    }
}

/// A node that a leaf of `rel` names as already held is a node of `c`
/// without a consumer, when the leaves are fit to read.
proof fn lemma_leaf_free(c: Context, rel: Relation, x: usize)
    requires
        leaves_ok(c, rel),
        existing_of(rel).contains(x),
    ensures
        x < c.graph.nodes@.len(),
        c.graph.owner@[x as int] is Free,
    decreases rel,
{
    match rel.op {
        RelOp::Existing { node, .. } => {
            assert(existing_of(rel) == seq![node]);
            assert(x == node);
        },
        RelOp::SavedRead { .. } => {
            assert(existing_of(rel) =~= Seq::<usize>::empty());
        },
        RelOp::FlatMap(s, _) => {
            assert(existing_of(rel) == existing_of(*s));
            lemma_leaf_free(c, *s, x);
        },
        RelOp::Consolidate(s) => {
            assert(existing_of(rel) == existing_of(*s));
            lemma_leaf_free(c, *s, x);
        },
        RelOp::Dynamic(s) => {
            assert(existing_of(rel) == existing_of(*s));
            lemma_leaf_free(c, *s, x);
        },
        RelOp::Reduce(s, _) => {
            assert(existing_of(rel) == existing_of(*s));
            lemma_leaf_free(c, *s, x);
        },
        RelOp::Concat(l, r) => {
            assert(existing_of(rel) == existing_of(*l) + existing_of(*r));
            lemma_concat_contains(existing_of(*l), existing_of(*r));
            if existing_of(*l).contains(x) {
                lemma_leaf_free(c, *l, x);
            } else {
                lemma_leaf_free(c, *r, x);
            }
        },
        RelOp::Join(l, r) => {
            assert(existing_of(rel) == existing_of(*l) + existing_of(*r));
            lemma_concat_contains(existing_of(*l), existing_of(*r));
            if existing_of(*l).contains(x) {
                lemma_leaf_free(c, *l, x);
            } else {
                lemma_leaf_free(c, *r, x);
            }
        },
        RelOp::AntiJoin(l, r) => {
            assert(existing_of(rel) == existing_of(*l) + existing_of(*r));
            lemma_concat_contains(existing_of(*l), existing_of(*r));
            if existing_of(*l).contains(x) {
                lemma_leaf_free(c, *l, x);
            } else {
                lemma_leaf_free(c, *r, x);
            }
        },
        RelOp::Triangles(a, b, d) => {
            assert(existing_of(rel) == existing_of(*a) + existing_of(*b) + existing_of(*d));
            lemma_concat_contains(existing_of(*a), existing_of(*b));
            lemma_concat_contains(existing_of(*a) + existing_of(*b), existing_of(*d));
            if existing_of(*a).contains(x) {
                lemma_leaf_free(c, *a, x);
            } else if existing_of(*b).contains(x) {
                lemma_leaf_free(c, *b, x);
            } else {
                lemma_leaf_free(c, *d, x);
            }
        },
    }
}

/// What the leaves of `rel` name fit to read in `c1` they named fit to
/// read in `c0`, when `c1` only gave consumers, added no save nodes, and
/// kept the inputs, dirty nodes and kinds of nodes of `c0`.
proof fn lemma_leaves_back(c0: Context, c1: Context, rel: Relation)
    requires
        leaves_ok(c1, rel),
        claimed_but(c1, c0, -1),
        c1.id == c0.id,
        c1.inputs == c0.inputs,
        c1.graph.dirty.nodes@.len() == c0.graph.dirty.nodes@.len(),
        forall|j: int| 0 <= j < c0.graph.nodes@.len() ==> #[trigger] same_reads(c1.graph.nodes@[j], c0.graph.nodes@[j]),
        forall|k: int| c0.graph.nodes@.len() <= k < c1.graph.nodes@.len() ==> #[trigger] flag_of(c1.graph.nodes@[k]) < 0,
    ensures
        leaves_ok(c0, rel),
    decreases rel,
{
    match rel.op {
        RelOp::Existing { context, node, source } => {
            if node >= c0.graph.nodes@.len() {
                assert(!(c1.graph.owner@[node as int] is Free));
            } else {
                assert(same_reads(c1.graph.nodes@[node as int], c0.graph.nodes@[node as int]));
                if !(c0.graph.owner@[node as int] is Free) {
                    assert(!(c1.graph.owner@[node as int] is Free));
                }
            }
        },
        RelOp::SavedRead { context, node, source } => {
            if node >= c0.graph.nodes@.len() {
                assert(flag_of(c1.graph.nodes@[node as int]) < 0);
            } else {
                assert(same_reads(c1.graph.nodes@[node as int], c0.graph.nodes@[node as int]));
            }
        },
        RelOp::FlatMap(s, _) => {
            lemma_leaves_back(c0, c1, *s);
        },
        RelOp::Consolidate(s) => {
            lemma_leaves_back(c0, c1, *s);
        },
        RelOp::Dynamic(s) => {
            lemma_leaves_back(c0, c1, *s);
        },
        RelOp::Reduce(s, _) => {
            lemma_leaves_back(c0, c1, *s);
        },
        RelOp::Concat(l, r) => {
            lemma_leaves_back(c0, c1, *l);
            lemma_leaves_back(c0, c1, *r);
        },
        RelOp::Join(l, r) => {
            lemma_leaves_back(c0, c1, *l);
            lemma_leaves_back(c0, c1, *r);
        },
        RelOp::AntiJoin(l, r) => {
            lemma_leaves_back(c0, c1, *l);
            lemma_leaves_back(c0, c1, *r);
        },
        RelOp::Triangles(a, b, d) => {
            lemma_leaves_back(c0, c1, *a);
            lemma_leaves_back(c0, c1, *b);
            lemma_leaves_back(c0, c1, *d);
        },
    }
}

/// Two sequences without repeats that share nothing make one without repeats.
proof fn lemma_no_dup_join(a: Seq<usize>, b: Seq<usize>)
    requires
        a.no_duplicates(),
        b.no_duplicates(),
        forall|x: usize| #[trigger] a.contains(x) ==> !b.contains(x),
    ensures
        (a + b).no_duplicates(),
{
    assert forall|i: int, j: int| 0 <= i < (a + b).len() && 0 <= j < (a + b).len() && i != j implies (a + b)[i] != (a
        + b)[j] by {
        if i < a.len() && j >= a.len() {
            assert(a.contains(a[i]));
            assert(b[j - a.len()] == (a + b)[j]);
        } else if j < a.len() && i >= a.len() {
            assert(a.contains(a[j]));
            assert(b[i - a.len()] == (a + b)[i]);
        }
    }
}

/// What a concatenation holds, one of its parts holds.
proof fn lemma_concat_contains(a: Seq<usize>, b: Seq<usize>)
    ensures
        forall|x: usize|
            #![trigger (a + b).contains(x)]
            #![trigger a.contains(x)]
            #![trigger b.contains(x)]
            (a + b).contains(x) <==> a.contains(x) || b.contains(x),
{
    assert forall|x: usize| #[trigger] (a + b).contains(x) <==> a.contains(x) || b.contains(x) by {
        if a.contains(x) {
            let i = choose|i: int| 0 <= i < a.len() && a[i] == x;
            assert((a + b)[i] == x);
        }
        if b.contains(x) {
            let i = choose|i: int| 0 <= i < b.len() && b[i] == x;
            assert((a + b)[a.len() + i] == x);
        }
        if (a + b).contains(x) {
            let i = choose|i: int| 0 <= i < (a + b).len() && (a + b)[i] == x;
            if i < a.len() {
                assert(a[i] == x);
            } else {
                assert(b[i - a.len()] == x);
            }
        }
    }
}

/// The parts of a concatenation without repeats have none, and share nothing.
proof fn lemma_no_dup_concat(a: Seq<usize>, b: Seq<usize>)
    requires
        (a + b).no_duplicates(),
    ensures
        a.no_duplicates(),
        b.no_duplicates(),
        forall|x: usize| #[trigger] a.contains(x) ==> !b.contains(x),
{
    assert forall|i: int, j: int| 0 <= i < a.len() && 0 <= j < a.len() && i != j implies a[i] != a[j] by {
        assert((a + b)[i] == a[i] && (a + b)[j] == a[j]);
    }
    assert forall|i: int, j: int| 0 <= i < b.len() && 0 <= j < b.len() && i != j implies b[i] != b[j] by {
        assert((a + b)[a.len() + i] == b[i] && (a + b)[a.len() + j] == b[j]);
    }
    assert forall|x: usize| #[trigger] a.contains(x) implies !b.contains(x) by {
        if b.contains(x) {
            let i = choose|i: int| 0 <= i < a.len() && a[i] == x;
            let j = choose|j: int| 0 <= j < b.len() && b[j] == x;
            assert((a + b)[i] == x && (a + b)[a.len() + j] == x);
        }
    }
}

/// What the leaves of `rel` name stays fit to read while the context keeps
/// its inputs, dirty nodes and kinds of nodes, and the consumers of the
/// nodes the leaves name as already held.
proof fn lemma_leaves_kept(c0: Context, c1: Context, rel: Relation)
    requires
        leaves_ok(c0, rel),
        c1.id == c0.id,
        c1.inputs == c0.inputs,
        c1.graph.dirty.nodes@.len() == c0.graph.dirty.nodes@.len(),
        c0.graph.nodes@.len() <= c1.graph.nodes@.len(),
        forall|j: int| 0 <= j < c0.graph.nodes@.len() ==> #[trigger] same_reads(c1.graph.nodes@[j], c0.graph.nodes@[j]),
        forall|x: usize| #[trigger] existing_of(rel).contains(x) && x < c0.graph.nodes@.len() ==> c1.graph.owner@[x as int]
            == c0.graph.owner@[x as int],
    ensures
        leaves_ok(c1, rel),
    decreases rel,
{
    match rel.op {
        RelOp::Existing { context, node, source } => {
            assert(existing_of(rel)[0] == node);
            assert(existing_of(rel).contains(node));
            assert(c1.graph.owner@[node as int] == c0.graph.owner@[node as int]);
            assert(same_reads(c1.graph.nodes@[node as int], c0.graph.nodes@[node as int]));
        },
        RelOp::SavedRead { context, node, source } => {
            assert(same_reads(c1.graph.nodes@[node as int], c0.graph.nodes@[node as int]));
        },
        RelOp::FlatMap(s, _) => {
            assert(existing_of(rel) == existing_of(*s));
            lemma_leaves_kept(c0, c1, *s);
        },
        RelOp::Consolidate(s) => {
            assert(existing_of(rel) == existing_of(*s));
            lemma_leaves_kept(c0, c1, *s);
        },
        RelOp::Dynamic(s) => {
            assert(existing_of(rel) == existing_of(*s));
            lemma_leaves_kept(c0, c1, *s);
        },
        RelOp::Reduce(s, _) => {
            assert(existing_of(rel) == existing_of(*s));
            lemma_leaves_kept(c0, c1, *s);
        },
        RelOp::Concat(l, r) => {
            assert(existing_of(rel) == existing_of(*l) + existing_of(*r));
            lemma_concat_contains(existing_of(*l), existing_of(*r));
            lemma_leaves_kept(c0, c1, *l);
            lemma_leaves_kept(c0, c1, *r);
        },
        RelOp::Join(l, r) => {
            assert(existing_of(rel) == existing_of(*l) + existing_of(*r));
            lemma_concat_contains(existing_of(*l), existing_of(*r));
            lemma_leaves_kept(c0, c1, *l);
            lemma_leaves_kept(c0, c1, *r);
        },
        RelOp::AntiJoin(l, r) => {
            assert(existing_of(rel) == existing_of(*l) + existing_of(*r));
            lemma_concat_contains(existing_of(*l), existing_of(*r));
            lemma_leaves_kept(c0, c1, *l);
            lemma_leaves_kept(c0, c1, *r);
        },
        RelOp::Triangles(x, y, z) => {
            assert(existing_of(rel) == existing_of(*x) + existing_of(*y) + existing_of(*z));
            lemma_concat_contains(existing_of(*x), existing_of(*y));
            lemma_concat_contains(existing_of(*x) + existing_of(*y), existing_of(*z));
            lemma_leaves_kept(c0, c1, *x);
            lemma_leaves_kept(c0, c1, *y);
            lemma_leaves_kept(c0, c1, *z);
        },
    }
}

/// Every input node that node `n` of `c` reads is the node of an input
/// whose dirty node sets receive node `d` dirty.
pub open spec fn announced(c: Context, n: int, d: usize) -> bool {
    forall|m: int| #[trigger] reads_input(c.graph, n, m) ==> exists|j: int|
        0 <= j < c.inputs@.len() && c.inputs@[j].node == m && #[trigger] c.graph.dirty.nodes@[c.inputs@[j].send as int].targets@.contains(d)
}

/// `c` keeps what `prev` had: its inputs, the kind and links of its nodes
/// (a save node may gain readers) and the edges between its dirty nodes.
pub open spec fn grown(c: Context, prev: Context) -> bool {
    &&& prev.inputs@.len() <= c.inputs@.len()
    &&& forall|j: int| 0 <= j < prev.inputs@.len() ==> (#[trigger] c.inputs@[j]).node == prev.inputs@[j].node
        && c.inputs@[j].send == prev.inputs@[j].send
    &&& prev.graph.nodes@.len() <= c.graph.nodes@.len()
    &&& forall|j: int| 0 <= j < prev.graph.nodes@.len() ==> #[trigger] same_reads(c.graph.nodes@[j], prev.graph.nodes@[j])
    &&& prev.graph.dirty.nodes@.len() <= c.graph.dirty.nodes@.len()
    &&& forall|i: int, t: usize| 0 <= i < prev.graph.dirty.nodes@.len() && #[trigger] prev.graph.dirty.nodes@[i].targets@.contains(t)
        ==> c.graph.dirty.nodes@[i].targets@.contains(t)
    &&& forall|k: int| prev.graph.nodes@.len() <= k < c.graph.nodes@.len() ==> #[trigger] flag_of(c.graph.nodes@[k]) < 0
        || flag_of(c.graph.nodes@[k]) >= prev.graph.dirty.nodes@.len()
}

/// Receive node `d` of `c` belongs to no save or split node.
pub open spec fn own_flag(c: Context, d: usize) -> bool {
    &&& d < c.graph.dirty.nodes@.len()
    &&& !source_flag(c.graph, d as int)
}

/// A receive node that belongs to no save or split node still does not in a
/// context that kept what it had.
pub proof fn lemma_own_flag_grown(c0: Context, c1: Context, d: usize)
    requires
        own_flag(c0, d),
        grown(c1, c0),
    ensures
        own_flag(c1, d),
{
    if source_flag(c1.graph, d as int) {
        let k = choose|k: int| 0 <= k < c1.graph.nodes@.len() && #[trigger] flag_of(c1.graph.nodes@[k]) == d as int;
        if k < c0.graph.nodes@.len() {
            assert(same_reads(c1.graph.nodes@[k], c0.graph.nodes@[k]));
            assert(flag_of(c0.graph.nodes@[k]) == d as int);
        }
    }
}

/// A context keeps what it has.
pub proof fn lemma_grown_refl(c: Context)
    ensures
        grown(c, c),
{
    assert forall|j: int| 0 <= j < c.graph.nodes@.len() implies #[trigger] same_reads(c.graph.nodes@[j], c.graph.nodes@[j]) by {
        crate::graph::lemma_same_links_refl(c.graph.nodes@[j]);
    }
}

/// Keeping what a context has composes.
pub proof fn lemma_grown_trans(a: Context, b: Context, c: Context)
    requires
        grown(b, a),
        grown(c, b),
    ensures
        grown(c, a),
{
    assert forall|j: int| 0 <= j < a.graph.nodes@.len() implies #[trigger] same_reads(c.graph.nodes@[j], a.graph.nodes@[j]) by {
        assert(same_reads(b.graph.nodes@[j], a.graph.nodes@[j]));
        assert(same_reads(c.graph.nodes@[j], b.graph.nodes@[j]));
        if !(c.graph.nodes@[j] is Save) {
            crate::graph::lemma_same_links_trans(c.graph.nodes@[j], b.graph.nodes@[j], a.graph.nodes@[j]);
        }
    }
    assert forall|j: int| 0 <= j < a.inputs@.len() implies (#[trigger] c.inputs@[j]).node == a.inputs@[j].node
        && c.inputs@[j].send == a.inputs@[j].send by {
        assert(b.inputs@[j].node == a.inputs@[j].node);
    }
    assert forall|i: int, t: usize| 0 <= i < a.graph.dirty.nodes@.len() && #[trigger] a.graph.dirty.nodes@[i].targets@.contains(t)
        implies c.graph.dirty.nodes@[i].targets@.contains(t) by {
        assert(b.graph.dirty.nodes@[i].targets@.contains(t));
    }
    assert forall|k: int| a.graph.nodes@.len() <= k < c.graph.nodes@.len() implies #[trigger] flag_of(c.graph.nodes@[k]) < 0
        || flag_of(c.graph.nodes@[k]) >= a.graph.dirty.nodes@.len() by {
        if k < b.graph.nodes@.len() {
            assert(same_reads(c.graph.nodes@[k], b.graph.nodes@[k]));
            assert(flag_of(b.graph.nodes@[k]) < 0 || flag_of(b.graph.nodes@[k]) >= a.graph.dirty.nodes@.len());
        }
    }
}

/// What announces a node to a receive node still does so in a context that
/// kept what it had.
pub proof fn lemma_announced_grown(c0: Context, c1: Context, n: int, d: usize)
    requires
        announced(c0, n, d),
        0 <= n < c0.graph.nodes@.len(),
        grown(c1, c0),
        c0.wf(),
    ensures
        announced(c1, n, d),
{
    assert forall|m: int| #[trigger] reads_input(c1.graph, n, m) implies exists|j: int|
        0 <= j < c1.inputs@.len() && c1.inputs@[j].node == m && #[trigger] c1.graph.dirty.nodes@[c1.inputs@[j].send as int].targets@.contains(d) by {
        lemma_reads_grown(c0.graph, c1.graph, n, m);
        let j = choose|j: int| 0 <= j < c0.inputs@.len() && c0.inputs@[j].node == m
            && #[trigger] c0.graph.dirty.nodes@[c0.inputs@[j].send as int].targets@.contains(d);
        assert(c0.input_ok(j));
        assert(c1.inputs@[j].node == c0.inputs@[j].node);
        assert(c1.graph.dirty.nodes@[c1.inputs@[j].send as int].targets@.contains(d));
    }
}

/// A commit keeps what the context had.
pub proof fn lemma_committed_grown(c: Context, prev: Context)
    requires
        committed(c, prev),
    ensures
        grown(c, prev),
{
    lemma_grown_refl(prev);
    assert forall|j: int| 0 <= j < prev.inputs@.len() implies (#[trigger] c.inputs@[j]).node == prev.inputs@[j].node
        && c.inputs@[j].send == prev.inputs@[j].send by {
        assert(c.inputs@[j].node == prev.inputs@[j].node);
    }
    assert forall|i: int, t: usize| 0 <= i < prev.graph.dirty.nodes@.len() && #[trigger] prev.graph.dirty.nodes@[i].targets@.contains(t)
        implies c.graph.dirty.nodes@[i].targets@.contains(t) by {
        assert(c.graph.dirty.nodes@[i].targets == prev.graph.dirty.nodes@[i].targets);
    }
}

impl Context {
    /// The buffer that the node of input `j` reads.
    pub open spec fn input_buffer(&self, j: int) -> usize {
        self.graph.nodes@[self.inputs@[j].node as int]->Input_buffer
    }

    /// Input `j` refers to an input node and a dirty node of the graph, and
    /// has nothing pending unless it is queued.
    pub open spec fn input_ok(&self, j: int) -> bool {
        &&& self.inputs@[j].node < self.graph.nodes@.len()
        &&& self.graph.nodes@[self.inputs@[j].node as int] is Input
        &&& self.inputs@[j].send < self.graph.dirty.nodes@.len()
        &&& (!self.handlers.handlers@[j].is_queued ==> self.inputs@[j].pending@.len() == 0)
    }

    pub open spec fn wf(&self) -> bool {
        &&& self.graph.wf()
        &&& self.handlers.wf()
        &&& self.handlers.handlers@.len() == self.inputs@.len()
        &&& forall|j: int| 0 <= j < self.inputs@.len() ==> #[trigger] self.input_ok(j)
        &&& forall|j: int, k: int|
            #![trigger self.input_buffer(j), self.input_buffer(k)]
            0 <= j < self.inputs@.len() && 0 <= k < self.inputs@.len() && j != k ==> self.input_buffer(j)
                != self.input_buffer(k)
    }

    /// A context with no relations and no inputs.
    pub fn new(id: u64) -> (r: Context)
        ensures
            r.wf(),
            r.id == id,
            r.graph.nodes@.len() == 0,
            r.inputs@.len() == 0,
    {
        Context { id, graph: Graph::new(), handlers: HandlerQueue::new(), inputs: Vec::new() }
    }

    /// Moves what was sent to input `j` into the buffer of its node and sets
    /// what depends on it dirty.
    fn dump(&mut self, j: usize)
        requires
            old(self).graph.wf(),
            j < old(self).inputs@.len(),
            old(self).inputs@[j as int].node < old(self).graph.nodes@.len(),
            old(self).graph.nodes@[old(self).inputs@[j as int].node as int] is Input,
            old(self).inputs@[j as int].send < old(self).graph.dirty.nodes@.len(),
        ensures
            final(self).graph.wf(),
            final(self).id == old(self).id,
            final(self).handlers == old(self).handlers,
            final(self).graph.nodes == old(self).graph.nodes,
            final(self).graph.owner == old(self).graph.owner,
            final(self).graph.hist == old(self).graph.hist,
            final(self).graph.tracker == old(self).graph.tracker,
            final(self).graph.pipes.buffers@.len() == old(self).graph.pipes.buffers@.len(),
            crate::dirty::same_structure(final(self).graph.dirty, old(self).graph.dirty),
            final(self).inputs@.len() == old(self).inputs@.len(),
            final(self).inputs@[j as int].pending@.len() == 0,
            final(self).inputs@[j as int].node == old(self).inputs@[j as int].node,
            final(self).inputs@[j as int].send == old(self).inputs@[j as int].send,
            forall|k: int| 0 <= k < old(self).inputs@.len() && k != j ==> #[trigger] final(self).inputs@[k]
                == old(self).inputs@[k],
            final(self).graph.pipes.pending(old(self).input_buffer(j as int)) == old(self).graph.pipes.pending(
                old(self).input_buffer(j as int),
            ) + old(self).inputs@[j as int].pending@,
            final(self).graph.pipes.sent@ == old(self).graph.pipes.sent@.update(
                old(self).input_buffer(j as int) as int,
                old(self).graph.pipes.sent@[old(self).input_buffer(j as int) as int] + old(self).inputs@[j as int].pending@,
            ),
            final(self).graph.input_bufs == old(self).graph.input_bufs,
            forall|b: usize| b != old(self).input_buffer(j as int) && b < old(self).graph.pipes.buffers@.len()
                ==> #[trigger] final(self).graph.pipes.pending(b) == old(self).graph.pipes.pending(b),
            forall|t: int| 0 <= t < old(self).graph.dirty.nodes@[old(self).inputs@[j as int].send as int].targets@.len()
                ==> final(self).graph.dirty.nodes@[#[trigger] old(self).graph.dirty.nodes@[old(self).inputs@[j as int].send as int].targets@[t] as int].dirty,
            forall|i: int| 0 <= i < old(self).graph.dirty.nodes@.len() && #[trigger] old(self).graph.dirty.nodes@[i].dirty
                ==> final(self).graph.dirty.nodes@[i].dirty,
            exists|vs: Seq<int>| crate::dirty::reported(final(self).graph.dirty, old(self).graph.dirty, vs),
    {
        let ghost g0 = self.graph;
        let node = self.inputs[j].node;
        let send = self.inputs[j].send;
        assert(self.graph.node_wf(node as int));
        let buffer = match &self.graph.nodes[node] {
            Node::Input { buffer } => *buffer,
            _ => {
                proof {
                    assert(false);
                }
                0
            },
        };
        let mut st = InputState { node, send, pending: Vec::new() };
        std::mem::swap(&mut st, &mut self.inputs[j]);
        let ghost d = st.pending@;
        Sender { id: buffer }.send_all(&mut self.graph.pipes, st.pending);
        proof {
            self.graph.lemma_inputs_after_feed(g0, node as int, d);
        }
        DirtySend { id: send }.set_dirty(&mut self.graph.dirty);
        proof {
            self.graph.lemma_wf_grow(g0);
        }
    }

    /// Commits what was sent to the inputs: for each input with changes, in
    /// the order in which they were first sent since the last commit, moves
    /// them to the buffer of its node and sets what depends on it dirty.
    pub fn commit(&mut self)
        requires
            old(self).wf(),
        ensures
            committed(*final(self), *old(self)),
            exists|vs: Seq<int>| crate::dirty::reported(final(self).graph.dirty, old(self).graph.dirty, vs),
    {
        let ghost c0 = *self;
        let q = self.handlers.take_queued();
        let ghost qs = q@;
        let mut k: usize = 0;
        assert(qs.take(0) =~= Seq::<usize>::empty());
        assert(qs.subrange(0, qs.len() as int) =~= qs);
        assert(self.handlers.inputs().len() == self.handlers.handlers@.len());
        assert(c0.handlers.inputs().len() == c0.handlers.handlers@.len());
        let n_inputs = self.inputs.len();
        assert(c0.inputs@.len() <= usize::MAX);
        let ghost mut vs: Seq<int> = Seq::empty();
        proof {
            crate::dirty::lemma_reported_refl(c0.graph.dirty);
        }
        proof {
            assert forall|j: int| 0 <= j < c0.inputs@.len() implies (if qs.contains(j as usize) {
                c0.inputs@[j].pending@
            } else {
                Seq::<Delta>::empty()
            }) == c0.inputs@[j].pending@ by {
                assert(c0.input_ok(j));
                let ju = j as usize;
                assert(c0.handlers.handlers@[ju as int].is_queued <==> c0.handlers.queued_handler_inds@.contains(ju));
                if !qs.contains(j as usize) {
                    assert(!c0.handlers.handlers@[j].is_queued);
                    assert(c0.inputs@[j].pending@ =~= Seq::<Delta>::empty());
                }
            }
            assert forall|j: int| 0 <= j < c0.inputs@.len() implies #[trigger] commit_progress(*self, c0, qs, 0, j) by {
                assert(!qs.take(0).contains(j as usize));
                assert(c0.graph.pipes.pending(c0.input_buffer(j)) + Seq::<Delta>::empty() =~= c0.graph.pipes.pending(
                    c0.input_buffer(j),
                ));
            }
        }
        while k < q.len()
            invariant
                qs == q@,
                qs == c0.handlers.queued_handler_inds@,
                k <= qs.len(),
                c0.inputs@.len() <= usize::MAX,
                c0.wf(),
                self.id == c0.id,
                self.graph.wf(),
                self.handlers.wf(),
                self.handlers.handlers@.len() == c0.inputs@.len(),
                self.handlers.queued_handler_inds@.len() == 0,
                self.graph.nodes == c0.graph.nodes,
                self.graph.owner == c0.graph.owner,
                self.graph.hist == c0.graph.hist,
                self.graph.input_bufs == c0.graph.input_bufs,
                self.graph.tracker == c0.graph.tracker,
                self.graph.pipes.buffers@.len() == c0.graph.pipes.buffers@.len(),
                crate::dirty::same_structure(self.graph.dirty, c0.graph.dirty),
                self.inputs@.len() == c0.inputs@.len(),
                forall|j: int| 0 <= j < c0.inputs@.len() ==> #[trigger] commit_progress(*self, c0, qs, k as int, j),
                forall|j: int, t: int|
                    0 <= j < c0.inputs@.len() && qs.take(k as int).contains(j as usize) && 0 <= t
                        < c0.graph.dirty.nodes@[c0.inputs@[j].send as int].targets@.len() ==> self.graph.dirty.nodes@[
                    #[trigger] c0.graph.dirty.nodes@[c0.inputs@[j].send as int].targets@[t] as int].dirty,
                forall|i: int| 0 <= i < c0.graph.dirty.nodes@.len() && #[trigger] c0.graph.dirty.nodes@[i].dirty
                    ==> self.graph.dirty.nodes@[i].dirty,
                crate::dirty::reported(self.graph.dirty, c0.graph.dirty, vs),
            decreases qs.len() - k,
        {
            let j = q[k];
            assert(c0.handlers.wf());
            assert(j < c0.inputs@.len());
            assert(c0.input_ok(j as int));
            let ghost before = *self;
            assert(commit_progress(*self, c0, qs, k as int, j as int));
            self.dump(j);
            proof {
                let vt = choose|vt: Seq<int>| crate::dirty::reported(self.graph.dirty, before.graph.dirty, vt);
                crate::dirty::lemma_reported_trans(c0.graph.dirty, before.graph.dirty, self.graph.dirty, vs, vt);
                vs = vs + vt;
            }
            proof {
                let t0 = qs.take(k as int);
                let t1 = qs.take(k as int + 1);
                assert(t1[k as int] == j);
                assert forall|a: int| 0 <= a < c0.inputs@.len() implies #[trigger] commit_progress(*self, c0, qs, k as int + 1, a) by {
                    assert(commit_progress(before, c0, qs, k as int, a));
                    assert(commit_progress(before, c0, qs, k as int, j as int));
                    Self::lemma_commit_step(c0, before, *self, qs, k as int, a);
                }
                assert forall|a: int, t: int|
                    0 <= a < c0.inputs@.len() && qs.take(k as int + 1).contains(a as usize) && 0 <= t
                        < c0.graph.dirty.nodes@[c0.inputs@[a].send as int].targets@.len() implies self.graph.dirty.nodes@[
                    #[trigger] c0.graph.dirty.nodes@[c0.inputs@[a].send as int].targets@[t] as int].dirty by {
                    let x = c0.graph.dirty.nodes@[c0.inputs@[a].send as int].targets@[t];
                    assert(c0.input_ok(a));
                    assert(c0.graph.dirty.wf());
                    assert(x < c0.graph.dirty.nodes@.len());
                    if a != j {
                        let b = choose|b: int| 0 <= b < k + 1 && t1[b] == a as usize;
                        assert(b != k);
                        assert(qs.take(k as int)[b] == a as usize);
                        assert(before.graph.dirty.nodes@[x as int].dirty);
                    } else {
                        assert(before.graph.dirty.nodes@[before.inputs@[a].send as int].targets
                            == c0.graph.dirty.nodes@[c0.inputs@[a].send as int].targets);
                    }
                }
            }
            k = k + 1;
        }
        proof {
            assert(qs.take(qs.len() as int) =~= qs);
            assert forall|j: int| 0 <= j < self.inputs@.len() implies #[trigger] self.input_ok(j) by {
                assert(commit_progress(*self, c0, qs, qs.len() as int, j));
                assert(c0.input_ok(j));
                assert(self.input_buffer(j) == c0.input_buffer(j));
            }
            assert forall|j: int, a: int|
                #![trigger self.input_buffer(j), self.input_buffer(a)]
                0 <= j < self.inputs@.len() && 0 <= a < self.inputs@.len() && j != a implies self.input_buffer(j)
                    != self.input_buffer(a) by {
                assert(commit_progress(*self, c0, qs, qs.len() as int, j));
                assert(commit_progress(*self, c0, qs, qs.len() as int, a));
                assert(c0.input_buffer(j) != c0.input_buffer(a));
            }
            assert forall|j: int| 0 <= j < c0.inputs@.len() implies {
                &&& (#[trigger] self.inputs@[j]).pending@.len() == 0
                &&& self.inputs@[j].node == c0.inputs@[j].node
                &&& self.inputs@[j].send == c0.inputs@[j].send
                &&& self.graph.pipes.pending(c0.input_buffer(j)) == c0.graph.pipes.pending(c0.input_buffer(j))
                    + c0.inputs@[j].pending@
                &&& self.graph.pipes.sent@[c0.input_buffer(j) as int] == c0.graph.pipes.sent@[c0.input_buffer(j) as int]
                    + c0.inputs@[j].pending@
            } by {
                assert(commit_progress(*self, c0, qs, qs.len() as int, j));
                assert(c0.input_ok(j));
                let ju = j as usize;
                let e = qs.subrange(qs.len() as int, qs.len() as int);
                assert(e =~= Seq::<usize>::empty());
                assert(!e.contains(ju));
                assert(self.inputs@[j].pending@ == Seq::<Delta>::empty());
                assert(c0.handlers.handlers@[ju as int].is_queued <==> c0.handlers.queued_handler_inds@.contains(ju));
                if !qs.contains(ju) {
                    assert(!c0.handlers.handlers@[j].is_queued);
                    assert(c0.inputs@[j].pending@ =~= Seq::<Delta>::empty());
                    assert(self.graph.pipes.pending(c0.input_buffer(j)) == c0.graph.pipes.pending(c0.input_buffer(j))
                        + Seq::<Delta>::empty());
                    assert(self.graph.pipes.sent@[c0.input_buffer(j) as int] == c0.graph.pipes.sent@[c0.input_buffer(j) as int]
                        + Seq::<Delta>::empty());
                } else {
                    assert(qs.take(qs.len() as int).contains(ju));
                }
            }
            assert forall|j: int, t: int|
                0 <= j < c0.inputs@.len() && #[trigger] c0.handlers.handlers@[j].is_queued && 0 <= t
                    < c0.graph.dirty.nodes@[c0.inputs@[j].send as int].targets@.len() implies self.graph.dirty.nodes@[
                #[trigger] c0.graph.dirty.nodes@[c0.inputs@[j].send as int].targets@[t] as int].dirty by {
                assert(qs.contains(j as usize));
            }
        }
    }
}

impl Context {
    /// The context stays well formed when its graph stays well formed, only
    /// grows, and keeps the kind of each node it had.
    pub proof fn lemma_wf_extend(&self, prev: Context)
        requires
            prev.wf(),
            self.graph.wf(),
            self.inputs == prev.inputs,
            self.handlers == prev.handlers,
            prev.graph.nodes@.len() <= self.graph.nodes@.len(),
            prev.graph.dirty.nodes@.len() <= self.graph.dirty.nodes@.len(),
            forall|j: int| 0 <= j < prev.graph.nodes@.len() ==> same_kind(#[trigger] self.graph.nodes@[j], prev.graph.nodes@[j]),
        ensures
            self.wf(),
            forall|j: int| 0 <= j < self.inputs@.len() ==> #[trigger] self.input_buffer(j) == prev.input_buffer(j),
    {
        assert forall|j: int| 0 <= j < self.inputs@.len() implies #[trigger] self.input_buffer(j) == prev.input_buffer(j) by {
            assert(prev.input_ok(j));
            assert(same_kind(self.graph.nodes@[self.inputs@[j].node as int], prev.graph.nodes@[prev.inputs@[j].node as int]));
        }
        assert forall|j: int| 0 <= j < self.inputs@.len() implies #[trigger] self.input_ok(j) by {
            assert(prev.input_ok(j));
            assert(same_kind(self.graph.nodes@[self.inputs@[j].node as int], prev.graph.nodes@[prev.inputs@[j].node as int]));
        }
        assert forall|j: int, k: int|
            #![trigger self.input_buffer(j), self.input_buffer(k)]
            0 <= j < self.inputs@.len() && 0 <= k < self.inputs@.len() && j != k implies self.input_buffer(j)
                != self.input_buffer(k) by {
            assert(prev.input_buffer(j) != prev.input_buffer(k));
        }
    }

    /// Adding nodes, buffers and names to `mid`, with the inputs and dirty
    /// nodes as they were, keeps what `prev` had, when `mid` kept it and the
    /// saves and splits added have receive nodes that `prev` did not have.
    pub proof fn lemma_grown_nodes(&self, prev: Context, mid: Context)
        requires
            grown(mid, prev),
            self.inputs == mid.inputs,
            self.graph.dirty == mid.graph.dirty,
            mid.graph.nodes@.len() <= self.graph.nodes@.len(),
            forall|j: int| 0 <= j < mid.graph.nodes@.len() ==> #[trigger] self.graph.nodes@[j] == mid.graph.nodes@[j],
            forall|k: int| mid.graph.nodes@.len() <= k < self.graph.nodes@.len() ==> #[trigger] flag_of(self.graph.nodes@[k]) < 0
                || flag_of(self.graph.nodes@[k]) >= prev.graph.dirty.nodes@.len(),
        ensures
            grown(*self, prev),
    {
        assert forall|j: int| 0 <= j < prev.graph.nodes@.len() implies #[trigger] same_reads(self.graph.nodes@[j], prev.graph.nodes@[j]) by {
            assert(same_reads(mid.graph.nodes@[j], prev.graph.nodes@[j]));
            assert(self.graph.nodes@[j] == mid.graph.nodes@[j]);
        }
        assert forall|k: int| prev.graph.nodes@.len() <= k < self.graph.nodes@.len() implies #[trigger] flag_of(self.graph.nodes@[k]) < 0
            || flag_of(self.graph.nodes@[k]) >= prev.graph.dirty.nodes@.len() by {
            if k < mid.graph.nodes@.len() {
                assert(self.graph.nodes@[k] == mid.graph.nodes@[k]);
            }
        }
    }

    /// Registering listeners on dirty nodes keeps what the context had.
    pub proof fn lemma_grown_listeners(&self, prev: Context)
        requires
            self.inputs == prev.inputs,
            self.graph.nodes == prev.graph.nodes,
            self.graph.dirty.nodes@.len() == prev.graph.dirty.nodes@.len(),
            forall|i: int| 0 <= i < prev.graph.dirty.nodes@.len() ==> #[trigger] self.graph.dirty.nodes@[i].targets
                == prev.graph.dirty.nodes@[i].targets,
        ensures
            grown(*self, prev),
    {
        assert forall|j: int| 0 <= j < prev.graph.nodes@.len() implies #[trigger] same_reads(self.graph.nodes@[j], prev.graph.nodes@[j]) by {
            crate::graph::lemma_same_links_refl(prev.graph.nodes@[j]);
        }
        assert forall|i: int, t: usize| 0 <= i < prev.graph.dirty.nodes@.len() && #[trigger] prev.graph.dirty.nodes@[i].targets@.contains(t)
            implies self.graph.dirty.nodes@[i].targets@.contains(t) by {
            assert(self.graph.dirty.nodes@[i].targets == prev.graph.dirty.nodes@[i].targets);
        }
    }

    /// Sending to input `i` keeps what the context had.
    pub proof fn lemma_grown_sent(&self, prev: Context, i: int)
        requires
            self.graph == prev.graph,
            self.inputs@.len() == prev.inputs@.len(),
            0 <= i < prev.inputs@.len(),
            self.inputs@[i].node == prev.inputs@[i].node,
            self.inputs@[i].send == prev.inputs@[i].send,
            forall|j: int| 0 <= j < prev.inputs@.len() && j != i ==> #[trigger] self.inputs@[j] == prev.inputs@[j],
        ensures
            grown(*self, prev),
    {
        lemma_grown_refl(prev);
        assert forall|j: int| 0 <= j < prev.inputs@.len() implies (#[trigger] self.inputs@[j]).node == prev.inputs@[j].node
            && self.inputs@[j].send == prev.inputs@[j].send by {
            if j != i {
                assert(self.inputs@[j] == prev.inputs@[j]);
            }
        }
    }

    /// A new input: an input node reading a new buffer, a dirty node that
    /// announces its changes, and its handler, which is not queued.
    ///
    /// Returns the input's index, its node and its dirty node.
    pub fn add_input(&mut self) -> (r: (usize, usize, usize))
        requires
            old(self).wf(),
        ensures
            final(self).wf(),
            final(self).id == old(self).id,
            r.0 == old(self).inputs@.len(),
            final(self).inputs@.len() == old(self).inputs@.len() + 1,
            final(self).inputs@[r.0 as int].node == r.1,
            final(self).inputs@[r.0 as int].send == r.2,
            final(self).inputs@[r.0 as int].pending@.len() == 0,
            forall|j: int| 0 <= j < old(self).inputs@.len() ==> #[trigger] final(self).inputs@[j] == old(self).inputs@[j],
            r.1 == old(self).graph.nodes@.len(),
            final(self).graph.nodes@.len() == old(self).graph.nodes@.len() + 1,
            forall|j: int| 0 <= j < old(self).graph.nodes@.len() ==> #[trigger] final(self).graph.nodes@[j] == old(self).graph.nodes@[j],
            final(self).graph.nodes@[r.1 as int] is Input,
            final(self).graph.owner@[r.1 as int] is Free,
            first_announces(*final(self), r.1, r.2),
            final(self).graph.tracker.infos@[r.1 as int].kind_name@ == "input"@,
            final(self).graph.pipes.pending(final(self).input_buffer(r.0 as int)).len() == 0,
            final(self).graph.pipes.sent@[final(self).input_buffer(r.0 as int) as int].len() == 0,
            final(self).graph.hist@[r.1 as int].len() == 0,
            final(self).graph.tracker.infos@[r.1 as int].deps@.len() == 0,
            forall|b: usize| b < old(self).graph.pipes.buffers@.len() ==> #[trigger] final(self).graph.pipes.pending(b)
                == old(self).graph.pipes.pending(b),
            grown(*final(self), *old(self)),
    {
        let ghost c0 = *self;
        let b = self.graph.new_buffer();
        let ghost g1 = self.graph;
        let (send, _sources) = crate::dirty::new(&mut self.graph.dirty);
        proof {
            self.graph.lemma_wf_grow(g1);
            assert(!self.graph.input_bufs@.contains(b)) by {
                if self.graph.input_bufs@.contains(b) {
                    assert(c0.graph.input_bufs@.contains(b));
                }
            }
            assert forall|m: int| 0 <= m < self.graph.nodes@.len() implies !crate::graph::uses_buffer(
                #[trigger] self.graph.nodes@[m],
                b,
            ) by {
                assert(c0.graph.node_wf(m));
                match self.graph.nodes@[m] {
                    Node::Save { readers, .. } => {
                        if readers@.contains(b) {
                            let x = choose|x: int| 0 <= x < readers@.len() && readers@[x] == b;
                            assert(readers@[x] < c0.graph.pipes.buffers@.len());
                        }
                    },
                    _ => {},
                }
            }
        }
        let node = self.graph.add_node(Node::Input { buffer: b }, label("input"), Vec::new());
        let j = self.inputs.len();
        assert(j == c0.handlers.handlers@.len());
        self.handlers.add_handler(j);
        self.inputs.push(InputState { node, send: send.id, pending: Vec::new() });
        proof {
            assert(self.handlers.inputs().len() == self.handlers.handlers@.len());
            assert(c0.handlers.inputs().len() == c0.handlers.handlers@.len());
            assert forall|k: int| 0 <= k < self.inputs@.len() implies #[trigger] self.input_ok(k) by {
                if k < j {
                    assert(c0.input_ok(k));
                    assert(self.inputs@[k] == c0.inputs@[k]);
                    let ku = k as usize;
                    assert(c0.handlers.handlers@[ku as int].is_queued <==> c0.handlers.queued_handler_inds@.contains(ku));
                    assert(self.handlers.handlers@[ku as int].is_queued <==> self.handlers.queued_handler_inds@.contains(ku));
                } else {
                    assert(!self.handlers.handlers@[k].is_queued);
                }
            }
            assert forall|k: int| 0 <= k < j implies #[trigger] self.input_buffer(k) == c0.input_buffer(k) by {
                assert(c0.input_ok(k));
                assert(self.inputs@[k] == c0.inputs@[k]);
            }
            assert forall|k: int| 0 <= k < j implies #[trigger] c0.input_buffer(k) < b by {
                assert(c0.input_ok(k));
                assert(c0.graph.node_wf(c0.inputs@[k].node as int));
            }
            assert forall|a: int, k: int|
                #![trigger self.input_buffer(a), self.input_buffer(k)]
                0 <= a < self.inputs@.len() && 0 <= k < self.inputs@.len() && a != k implies self.input_buffer(a)
                    != self.input_buffer(k) by {
                if a < j && k < j {
                    assert(c0.input_buffer(a) != c0.input_buffer(k));
                } else if a < j {
                    assert(c0.input_buffer(a) < b);
                } else {
                    assert(c0.input_buffer(k) < b);
                }
            }
            assert forall|k: int| 0 <= k < c0.graph.nodes@.len() implies #[trigger] same_reads(self.graph.nodes@[k], c0.graph.nodes@[k]) by {
                crate::graph::lemma_same_links_refl(c0.graph.nodes@[k]);
            }
            assert forall|i: int, t: usize| 0 <= i < c0.graph.dirty.nodes@.len() && #[trigger] c0.graph.dirty.nodes@[i].targets@.contains(t)
                implies self.graph.dirty.nodes@[i].targets@.contains(t) by {
                assert(self.graph.dirty.nodes@[i] == c0.graph.dirty.nodes@[i]);
            }
            assert forall|j2: int| 0 <= j2 < j implies self.inputs@[j2].node != node by {
                assert(c0.input_ok(j2));
            }
            assert(self.inputs@[j as int].node == node);
        }
        (j, node, send.id)
    }

    /// Gives node `idx` the names of a relation: its kind and name, and, if
    /// it is hidden (which takes exactly one dependency), the name and kind
    /// given to the relation shown in its place.
    fn label_node(
        &mut self,
        idx: usize,
        name: Option<String>,
        kind_name: Option<String>,
        hidden: bool,
        shown_name: Option<String>,
        shown_kind: Option<String>,
    )
        requires
            old(self).wf(),
            idx < old(self).graph.nodes@.len(),
        ensures
            final(self).wf(),
            final(self).id == old(self).id,
            final(self).inputs == old(self).inputs,
            final(self).handlers == old(self).handlers,
            final(self).graph.nodes == old(self).graph.nodes,
            final(self).graph.pipes == old(self).graph.pipes,
            final(self).graph.dirty == old(self).graph.dirty,
            final(self).graph.counters == old(self).graph.counters,
            final(self).graph.owner == old(self).graph.owner,
            final(self).graph.hist == old(self).graph.hist,
            final(self).graph.tracker.infos@.len() == old(self).graph.tracker.infos@.len(),
            final(self).graph.tracker.infos@ == labelled(
                old(self).graph.tracker.infos@,
                idx as int,
                name,
                kind_name,
                hidden,
                shown_name,
                shown_kind,
            ),
    {
        let ghost c0 = *self;
        let ghost s0 = self.graph.tracker.infos@;
        let ghost gname = name;
        let ghost gkind = kind_name;
        let ghost gsname = shown_name;
        let ghost gskind = shown_kind;
        match kind_name {
            Some(k) => self.graph.tracker.set_kind_name(idx, k),
            None => {},
        }
        assert(self.graph.tracker.infos@ =~= with_kind(s0, idx as int, gkind));
        let ghost s1 = self.graph.tracker.infos@;
        match name {
            Some(n) => self.graph.tracker.set_name(idx, n),
            None => {},
        }
        assert(self.graph.tracker.infos@ =~= with_name(s1, idx as int, gname));
        let ghost s2 = self.graph.tracker.infos@;
        if hidden && self.graph.tracker.infos[idx].deps.len() == 1 {
            self.graph.tracker.set_hidden(idx);
        }
        assert(self.graph.tracker.infos@ =~= with_hidden(s2, idx as int, hidden));
        let ghost s3 = self.graph.tracker.infos@;
        let shown = self.graph.tracker.find_shown_index(idx).0;
        match shown_kind {
            Some(k) => self.graph.tracker.set_kind_name(shown, k),
            None => {},
        }
        assert(self.graph.tracker.infos@ =~= with_kind(s3, shown as int, gskind));
        let ghost s4 = self.graph.tracker.infos@;
        match shown_name {
            Some(n) => self.graph.tracker.set_name(shown, n),
            None => {},
        }
        assert(self.graph.tracker.infos@ =~= with_name(s4, shown as int, gsname));
        proof {
            self.graph.lemma_wf_tracker(c0.graph);
            assert forall|j: int| 0 <= j < self.inputs@.len() implies #[trigger] self.input_ok(j) by {
                assert(c0.input_ok(j));
            }
            assert forall|j: int, k: int|
                #![trigger self.input_buffer(j), self.input_buffer(k)]
                0 <= j < self.inputs@.len() && 0 <= k < self.inputs@.len() && j != k implies self.input_buffer(j)
                    != self.input_buffer(k) by {
                assert(c0.input_buffer(j) != c0.input_buffer(k));
            }
        }
    }

    /// Whether the first input whose node is `node` has dirty node `source`.
    fn announces(&self, node: usize, source: usize) -> (r: bool)
        ensures
            r ==> exists|j: int| 0 <= j < self.inputs@.len() && self.inputs@[j].node == node && #[trigger] self.inputs@[j].send == source,
            r <==> exists|j: int|
                0 <= j < self.inputs@.len() && #[trigger] self.inputs@[j].node == node && self.inputs@[j].send == source
                    && forall|j2: int| 0 <= j2 < j ==> self.inputs@[j2].node != node,
    {
        let mut j: usize = 0;
        while j < self.inputs.len()
            invariant
                j <= self.inputs@.len(),
                forall|j2: int| 0 <= j2 < j ==> self.inputs@[j2].node != node,
            decreases self.inputs@.len() - j,
        {
            if self.inputs[j].node == node {
                return self.inputs[j].send == source;
            }
            j = j + 1;
        }
        false
    }

    /// Makes the nodes that compute `rel`, and returns the node that holds
    /// it, now consumed from outside the graph and with nothing emitted yet,
    /// with the dirty nodes that announce its changes.
    ///
    /// Fails with `ContextMismatch` when `rel` reads a node of another
    /// context, one this context does not have, one that something already
    /// reads, one that is neither an input node nor a read of a saved or
    /// split relation, or an input node with another dirty node than its
    /// input's.
    #[verifier::spinoff_prover]
    #[verifier::rlimit(80)]
    pub fn attach(&mut self, rel: Relation) -> (r: Result<(usize, ReceiveBuilder), Error>)
        requires
            old(self).wf(),
        ensures
            final(self).wf(),
            final(self).id == old(self).id,
            final(self).inputs == old(self).inputs,
            final(self).handlers == old(self).handlers,
            final(self).graph.dirty == old(self).graph.dirty,
            old(self).graph.nodes@.len() <= final(self).graph.nodes@.len(),
            forall|j: int| 0 <= j < old(self).graph.nodes@.len() ==> same_reads(#[trigger] final(self).graph.nodes@[j], old(self).graph.nodes@[j]),
            r is Err ==> r->Err_0 is ContextMismatch,
            r matches Ok((n, b)) ==> {
                &&& n < final(self).graph.nodes@.len()
                &&& b.sources.wf()
                &&& forall|x: usize| #[trigger] b.sources@.contains(x) ==> x < final(self).graph.dirty.nodes@.len()
                &&& (rel.op is Reduce ==> final(self).graph.nodes@[n as int] is Reduce)
                &&& (rel.op is Dynamic ==> final(self).graph.nodes@[n as int] is Dynamic)
                &&& (rel.op is Existing ==> n == rel.op->Existing_node && b.sources@.contains(rel.op->Existing_source))
                &&& final(self).graph.owner@[n as int] is Outside
                &&& final(self).graph.hist@[n as int].len() == 0
                &&& (n >= old(self).graph.nodes@.len() || old(self).graph.owner@[n as int] is Free)
                &&& inputs_announce(*final(self), n as int, b.sources@)
            },
            forall|j: int| 0 <= j < old(self).graph.nodes@.len() ==> #[trigger] final(self).graph.hist@[j] == old(self).graph.hist@[j],
            forall|j: int| 0 <= j < old(self).graph.nodes@.len() && old(self).graph.owner@[j] is Outside
                ==> #[trigger] final(self).graph.owner@[j] is Outside,
            forall|k: int| old(self).graph.nodes@.len() <= k < final(self).graph.nodes@.len() ==> #[trigger] flag_of(
                final(self).graph.nodes@[k],
            ) < 0,
            r matches Ok((n, _)) ==> n >= old(self).graph.nodes@.len() || existing_of(rel).contains(n),
            r is Ok ==> owners_kept(*final(self), *old(self), existing_of(rel), old(self).graph.nodes@.len() as int),
            r is Ok <==> attachable(*old(self), rel),
            r is Ok ==> claimed_but(*final(self), *old(self), -1),
            r is Ok ==> forall|x: usize| #[trigger] existing_of(rel).contains(x) ==> x < final(self).graph.nodes@.len()
                && !(final(self).graph.owner@[x as int] is Free),
        decreases rel,
    {
        let ghost c0 = *self;
        let ghost rel0 = rel;
        let Relation { op, name, kind_name, hidden, shown_name, shown_kind } = rel;
        let existing = match &op {
            RelOp::Existing { .. } => true,
            _ => false,
        };
        let (idx, builder): (usize, ReceiveBuilder) = match op {
            RelOp::Existing { context, node, source } => {
                if context != self.id || node >= self.graph.nodes.len() || source >= self.graph.dirty.nodes.len() {
                    return Err(Error::ContextMismatch);
                }
                let unread = match self.graph.owner[node] {
                    Owner::Free => true,
                    _ => false,
                };
                let is_source = match &self.graph.nodes[node] {
                    Node::Save { .. } => true,
                    Node::Split { .. } => true,
                    _ => false,
                };
                if !unread || is_source {
                    return Err(Error::ContextMismatch);
                }
                let known = match &self.graph.nodes[node] {
                    Node::Input { .. } => self.announces(node, source),
                    Node::Read { .. } => true,
                    _ => false,
                };
                if !known {
                    return Err(Error::ContextMismatch);
                }
                let ghost c1 = *self;
                self.graph.claim(node);
                proof {
                    self.lemma_wf_extend(c1);
                }
                let b = ReceiveBuilder { sources: RcCollection::singleton(source) };
                assert(b.sources@[0] == source);
                proof {
                    assert forall|m: int| #[trigger] reads_input(self.graph, node as int, m) implies exists|j: int|
                        0 <= j < self.inputs@.len() && self.inputs@[j].node == m && #[trigger] b.sources@.contains(
                        self.inputs@[j].send,
                    ) by {
                        let j = choose|j: int| 0 <= j < self.inputs@.len() && self.inputs@[j].node == node
                            && #[trigger] self.inputs@[j].send == source;
                        assert(b.sources@.contains(self.inputs@[j].send));
                    }
                }
                proof {
                    assert(existing_of(rel0)[0] == node);
                    assert(existing_of(rel0).contains(node));
                    assert(claimed_but(*self, c0, node as int));
                    assert(leaves_ok(c0, rel0));
                    assert(existing_of(rel0).no_duplicates());
                }
                (node, b)
            },
            RelOp::SavedRead { context, node, source } => {
                if context != self.id || node >= self.graph.nodes.len() || source >= self.graph.dirty.nodes.len() {
                    return Err(Error::ContextMismatch);
                }
                let is_save = match &self.graph.nodes[node] {
                    Node::Save { .. } => true,
                    _ => false,
                };
                if !is_save {
                    return Err(Error::ContextMismatch);
                }
                let b = self.graph.new_buffer();
                self.graph.add_reader(node, b);
                let mut deps: Vec<usize> = Vec::new();
                deps.push(node);
                let i = self.graph.add_node(Node::Read { from: node, buffer: b }, label("save"), deps);
                proof {
                    assert(i >= c0.graph.nodes@.len());
                    assert(owners_kept(*self, c0, existing_of(rel0), c0.graph.nodes@.len() as int));
                    assert(claimed_but(*self, c0, i as int));
                    assert(existing_of(rel0) =~= Seq::<usize>::empty());
                    assert(attachable(c0, rel0));
                }
                (i, ReceiveBuilder { sources: RcCollection::singleton(source) })
            },
            RelOp::FlatMap(src, f) => {
                proof {
                    assert(existing_of(rel0) == existing_of(*src));
                }
                let (s, b) = self.attach(*src)?;
                let ghost cs = *self;
                let mut deps: Vec<usize> = Vec::new();
                deps.push(s);
                let i = self.graph.add_node(Node::FlatMap { src: s, f }, label("flat_map"), deps);
                proof {
                    assert forall|m: int| #[trigger] reads_input(self.graph, i as int, m) implies exists|j: int|
                        0 <= j < self.inputs@.len() && self.inputs@[j].node == m && #[trigger] b.sources@.contains(
                        self.inputs@[j].send,
                    ) by {
                        lemma_announce_kept(cs, *self, s as int, b.sources@, m);
                    }
                    assert forall|k: int| c0.graph.nodes@.len() <= k < self.graph.nodes@.len() implies #[trigger] flag_of(
                        self.graph.nodes@[k],
                    ) < 0 by {
                        if k < cs.graph.nodes@.len() {
                            assert(self.graph.nodes@[k] == cs.graph.nodes@[k]);
                        }
                    }
                }
                proof {
                    assert forall|x: usize| x < c0.graph.nodes@.len() && !existing_of(rel0).contains(x) implies #[trigger] self.graph.owner@[x as int]
                        == c0.graph.owner@[x as int] by {
                        assert(cs.graph.owner@[x as int] == c0.graph.owner@[x as int]);
                    }
                    assert(i >= c0.graph.nodes@.len());
                    lemma_add_claimed(c0, cs, *self, i as int);
                    assert forall|x: usize| #[trigger] existing_of(rel0).contains(x) implies x < self.graph.nodes@.len() && !(
                    self.graph.owner@[x as int] is Free) by {
                        assert(!(cs.graph.owner@[x as int] is Free));
                    }
                    assert(attachable(c0, rel0));
                }
                (i, b)
            },
            RelOp::Consolidate(src) => {
                proof {
                    assert(existing_of(rel0) == existing_of(*src));
                }
                let (s, b) = self.attach(*src)?;
                let ghost cs = *self;
                let mut deps: Vec<usize> = Vec::new();
                deps.push(s);
                let i = self.graph.add_node(Node::Consolidate { src: s }, label("consolidate"), deps);
                proof {
                    assert forall|m: int| #[trigger] reads_input(self.graph, i as int, m) implies exists|j: int|
                        0 <= j < self.inputs@.len() && self.inputs@[j].node == m && #[trigger] b.sources@.contains(
                        self.inputs@[j].send,
                    ) by {
                        lemma_announce_kept(cs, *self, s as int, b.sources@, m);
                    }
                    assert forall|k: int| c0.graph.nodes@.len() <= k < self.graph.nodes@.len() implies #[trigger] flag_of(
                        self.graph.nodes@[k],
                    ) < 0 by {
                        if k < cs.graph.nodes@.len() {
                            assert(self.graph.nodes@[k] == cs.graph.nodes@[k]);
                        }
                    }
                }
                proof {
                    assert forall|x: usize| x < c0.graph.nodes@.len() && !existing_of(rel0).contains(x) implies #[trigger] self.graph.owner@[x as int]
                        == c0.graph.owner@[x as int] by {
                        assert(cs.graph.owner@[x as int] == c0.graph.owner@[x as int]);
                    }
                    assert(i >= c0.graph.nodes@.len());
                    lemma_add_claimed(c0, cs, *self, i as int);
                    assert forall|x: usize| #[trigger] existing_of(rel0).contains(x) implies x < self.graph.nodes@.len() && !(
                    self.graph.owner@[x as int] is Free) by {
                        assert(!(cs.graph.owner@[x as int] is Free));
                    }
                    assert(attachable(c0, rel0));
                }
                (i, b)
            },
            RelOp::Dynamic(src) => {
                proof {
                    assert(existing_of(rel0) == existing_of(*src));
                }
                let (s, b) = self.attach(*src)?;
                let ghost cs = *self;
                let mut deps: Vec<usize> = Vec::new();
                deps.push(s);
                let i = self.graph.add_node(Node::Dynamic { src: s }, label("dynamic"), deps);
                proof {
                    assert forall|m: int| #[trigger] reads_input(self.graph, i as int, m) implies exists|j: int|
                        0 <= j < self.inputs@.len() && self.inputs@[j].node == m && #[trigger] b.sources@.contains(
                        self.inputs@[j].send,
                    ) by {
                        lemma_announce_kept(cs, *self, s as int, b.sources@, m);
                    }
                    assert forall|k: int| c0.graph.nodes@.len() <= k < self.graph.nodes@.len() implies #[trigger] flag_of(
                        self.graph.nodes@[k],
                    ) < 0 by {
                        if k < cs.graph.nodes@.len() {
                            assert(self.graph.nodes@[k] == cs.graph.nodes@[k]);
                        }
                    }
                }
                proof {
                    assert forall|x: usize| x < c0.graph.nodes@.len() && !existing_of(rel0).contains(x) implies #[trigger] self.graph.owner@[x as int]
                        == c0.graph.owner@[x as int] by {
                        assert(cs.graph.owner@[x as int] == c0.graph.owner@[x as int]);
                    }
                    assert(i >= c0.graph.nodes@.len());
                    lemma_add_claimed(c0, cs, *self, i as int);
                    assert forall|x: usize| #[trigger] existing_of(rel0).contains(x) implies x < self.graph.nodes@.len() && !(
                    self.graph.owner@[x as int] is Free) by {
                        assert(!(cs.graph.owner@[x as int] is Free));
                    }
                    assert(attachable(c0, rel0));
                }
                (i, b)
            },
            RelOp::Reduce(src, f) => {
                proof {
                    assert(existing_of(rel0) == existing_of(*src));
                }
                let (s, b) = self.attach(*src)?;
                let ghost cs = *self;
                let mut deps: Vec<usize> = Vec::new();
                deps.push(s);
                let i = self.graph.add_node(Node::Reduce { src: s, state: Reduce::new(f) }, label("reduce"), deps);
                proof {
                    assert forall|m: int| #[trigger] reads_input(self.graph, i as int, m) implies exists|j: int|
                        0 <= j < self.inputs@.len() && self.inputs@[j].node == m && #[trigger] b.sources@.contains(
                        self.inputs@[j].send,
                    ) by {
                        lemma_announce_kept(cs, *self, s as int, b.sources@, m);
                    }
                    assert forall|k: int| c0.graph.nodes@.len() <= k < self.graph.nodes@.len() implies #[trigger] flag_of(
                        self.graph.nodes@[k],
                    ) < 0 by {
                        if k < cs.graph.nodes@.len() {
                            assert(self.graph.nodes@[k] == cs.graph.nodes@[k]);
                        }
                    }
                }
                proof {
                    assert forall|x: usize| x < c0.graph.nodes@.len() && !existing_of(rel0).contains(x) implies #[trigger] self.graph.owner@[x as int]
                        == c0.graph.owner@[x as int] by {
                        assert(cs.graph.owner@[x as int] == c0.graph.owner@[x as int]);
                    }
                    assert(i >= c0.graph.nodes@.len());
                    lemma_add_claimed(c0, cs, *self, i as int);
                    assert forall|x: usize| #[trigger] existing_of(rel0).contains(x) implies x < self.graph.nodes@.len() && !(
                    self.graph.owner@[x as int] is Free) by {
                        assert(!(cs.graph.owner@[x as int] is Free));
                    }
                    assert(attachable(c0, rel0));
                }
                (i, b)
            },
            RelOp::Concat(l, r) => {
                proof {
                    assert(existing_of(rel0) == existing_of(*l) + existing_of(*r));
                    lemma_concat_contains(existing_of(*l), existing_of(*r));
                    if attachable(c0, rel0) {
                        lemma_no_dup_concat(existing_of(*l), existing_of(*r));
                    }
                }
                let (a, ba) = self.attach(*l)?;
                let ghost ca = *self;
                proof {
                    if attachable(c0, rel0) {
                        lemma_leaves_kept(c0, ca, *r);
                    }
                }
                let rc = self.attach(*r);
                proof {
                    lemma_no_new_sources(c0, ca, *self);
                }
                let (c, bc) = rc?;
                let ghost cc = *self;
                let mut deps: Vec<usize> = Vec::new();
                deps.push(a);
                deps.push(c);
                let i = self.graph.add_node(Node::Concat { left: a, right: c }, label("concat"), deps);
                let bb = ba.or(bc);
                proof {
                    assert forall|m: int| #[trigger] reads_input(self.graph, i as int, m) implies exists|j: int|
                        0 <= j < self.inputs@.len() && self.inputs@[j].node == m && #[trigger] bb.sources@.contains(
                        self.inputs@[j].send,
                    ) by {
                        if reads_input(self.graph, a as int, m) {
                            lemma_announce_kept(ca, *self, a as int, ba.sources@, m);
                            let j = choose|j: int| 0 <= j < self.inputs@.len() && self.inputs@[j].node == m
                                && #[trigger] ba.sources@.contains(self.inputs@[j].send);
                            assert(bb.sources@.contains(self.inputs@[j].send));
                        } else {
                            lemma_announce_kept(cc, *self, c as int, bc.sources@, m);
                            let j = choose|j: int| 0 <= j < self.inputs@.len() && self.inputs@[j].node == m
                                && #[trigger] bc.sources@.contains(self.inputs@[j].send);
                            assert(bb.sources@.contains(self.inputs@[j].send));
                        }
                    }
                    assert forall|k: int| c0.graph.nodes@.len() <= k < self.graph.nodes@.len() implies #[trigger] flag_of(
                        self.graph.nodes@[k],
                    ) < 0 by {
                        if k < ca.graph.nodes@.len() {
                            assert(same_reads(cc.graph.nodes@[k], ca.graph.nodes@[k]));
                            assert(self.graph.nodes@[k] == cc.graph.nodes@[k]);
                        } else if k < cc.graph.nodes@.len() {
                            assert(self.graph.nodes@[k] == cc.graph.nodes@[k]);
                        }
                    }
                }
                proof {
                    assert forall|x: usize| x < c0.graph.nodes@.len() && !existing_of(rel0).contains(x) implies #[trigger] self.graph.owner@[x as int]
                        == c0.graph.owner@[x as int] by {
                        assert(ca.graph.owner@[x as int] == c0.graph.owner@[x as int]);
                        assert(cc.graph.owner@[x as int] == ca.graph.owner@[x as int]);
                    }
                    assert(i >= c0.graph.nodes@.len());
                    lemma_claimed_trans(c0, ca, cc);
                    lemma_add_claimed(c0, cc, *self, i as int);
                    assert forall|x: usize| #[trigger] existing_of(rel0).contains(x) implies x < self.graph.nodes@.len() && !(
                    self.graph.owner@[x as int] is Free) by {
                        if existing_of(*l).contains(x) {
                            assert(!(ca.graph.owner@[x as int] is Free));
                        }
                        assert(!(cc.graph.owner@[x as int] is Free));
                    }
                    lemma_leaves_back(c0, ca, *r);
                    assert forall|x: usize| #[trigger] existing_of(*l).contains(x) implies !existing_of(*r).contains(x) by {
                        if existing_of(*r).contains(x) {
                            lemma_leaf_free(ca, *r, x);
                            assert(!(ca.graph.owner@[x as int] is Free));
                        }
                    }
                    lemma_no_dup_join(existing_of(*l), existing_of(*r));
                    assert(attachable(c0, rel0));
                }
                (i, bb)
            },
            RelOp::Join(l, r) => {
                proof {
                    assert(existing_of(rel0) == existing_of(*l) + existing_of(*r));
                    lemma_concat_contains(existing_of(*l), existing_of(*r));
                    if attachable(c0, rel0) {
                        lemma_no_dup_concat(existing_of(*l), existing_of(*r));
                    }
                }
                let (a, ba) = self.attach(*l)?;
                let ghost ca = *self;
                proof {
                    if attachable(c0, rel0) {
                        lemma_leaves_kept(c0, ca, *r);
                    }
                }
                let rc = self.attach(*r);
                proof {
                    lemma_no_new_sources(c0, ca, *self);
                }
                let (c, bc) = rc?;
                let ghost cc = *self;
                let mut deps: Vec<usize> = Vec::new();
                deps.push(a);
                deps.push(c);
                let i = self.graph.add_node(Node::Join { left: a, right: c, state: Join::new() }, label("join"), deps);
                let bb = ba.or(bc);
                proof {
                    assert forall|m: int| #[trigger] reads_input(self.graph, i as int, m) implies exists|j: int|
                        0 <= j < self.inputs@.len() && self.inputs@[j].node == m && #[trigger] bb.sources@.contains(
                        self.inputs@[j].send,
                    ) by {
                        if reads_input(self.graph, a as int, m) {
                            lemma_announce_kept(ca, *self, a as int, ba.sources@, m);
                            let j = choose|j: int| 0 <= j < self.inputs@.len() && self.inputs@[j].node == m
                                && #[trigger] ba.sources@.contains(self.inputs@[j].send);
                            assert(bb.sources@.contains(self.inputs@[j].send));
                        } else {
                            lemma_announce_kept(cc, *self, c as int, bc.sources@, m);
                            let j = choose|j: int| 0 <= j < self.inputs@.len() && self.inputs@[j].node == m
                                && #[trigger] bc.sources@.contains(self.inputs@[j].send);
                            assert(bb.sources@.contains(self.inputs@[j].send));
                        }
                    }
                    assert forall|k: int| c0.graph.nodes@.len() <= k < self.graph.nodes@.len() implies #[trigger] flag_of(
                        self.graph.nodes@[k],
                    ) < 0 by {
                        if k < ca.graph.nodes@.len() {
                            assert(same_reads(cc.graph.nodes@[k], ca.graph.nodes@[k]));
                            assert(self.graph.nodes@[k] == cc.graph.nodes@[k]);
                        } else if k < cc.graph.nodes@.len() {
                            assert(self.graph.nodes@[k] == cc.graph.nodes@[k]);
                        }
                    }
                }
                proof {
                    assert forall|x: usize| x < c0.graph.nodes@.len() && !existing_of(rel0).contains(x) implies #[trigger] self.graph.owner@[x as int]
                        == c0.graph.owner@[x as int] by {
                        assert(ca.graph.owner@[x as int] == c0.graph.owner@[x as int]);
                        assert(cc.graph.owner@[x as int] == ca.graph.owner@[x as int]);
                    }
                    assert(i >= c0.graph.nodes@.len());
                    lemma_claimed_trans(c0, ca, cc);
                    lemma_add_claimed(c0, cc, *self, i as int);
                    assert forall|x: usize| #[trigger] existing_of(rel0).contains(x) implies x < self.graph.nodes@.len() && !(
                    self.graph.owner@[x as int] is Free) by {
                        if existing_of(*l).contains(x) {
                            assert(!(ca.graph.owner@[x as int] is Free));
                        }
                        assert(!(cc.graph.owner@[x as int] is Free));
                    }
                    lemma_leaves_back(c0, ca, *r);
                    assert forall|x: usize| #[trigger] existing_of(*l).contains(x) implies !existing_of(*r).contains(x) by {
                        if existing_of(*r).contains(x) {
                            lemma_leaf_free(ca, *r, x);
                            assert(!(ca.graph.owner@[x as int] is Free));
                        }
                    }
                    lemma_no_dup_join(existing_of(*l), existing_of(*r));
                    assert(attachable(c0, rel0));
                }
                (i, bb)
            },
            RelOp::AntiJoin(l, r) => {
                proof {
                    assert(existing_of(rel0) == existing_of(*l) + existing_of(*r));
                    lemma_concat_contains(existing_of(*l), existing_of(*r));
                    if attachable(c0, rel0) {
                        lemma_no_dup_concat(existing_of(*l), existing_of(*r));
                    }
                }
                let (a, ba) = self.attach(*l)?;
                let ghost ca = *self;
                proof {
                    if attachable(c0, rel0) {
                        lemma_leaves_kept(c0, ca, *r);
                    }
                }
                let rc = self.attach(*r);
                proof {
                    lemma_no_new_sources(c0, ca, *self);
                }
                let (c, bc) = rc?;
                let ghost cc = *self;
                let mut deps: Vec<usize> = Vec::new();
                deps.push(a);
                deps.push(c);
                let i = self.graph.add_node(
                    Node::AntiJoin { left: a, right: c, state: AntiJoin::new() },
                    label("antijoin"),
                    deps,
                );
                let bb = ba.or(bc);
                proof {
                    assert forall|m: int| #[trigger] reads_input(self.graph, i as int, m) implies exists|j: int|
                        0 <= j < self.inputs@.len() && self.inputs@[j].node == m && #[trigger] bb.sources@.contains(
                        self.inputs@[j].send,
                    ) by {
                        if reads_input(self.graph, a as int, m) {
                            lemma_announce_kept(ca, *self, a as int, ba.sources@, m);
                            let j = choose|j: int| 0 <= j < self.inputs@.len() && self.inputs@[j].node == m
                                && #[trigger] ba.sources@.contains(self.inputs@[j].send);
                            assert(bb.sources@.contains(self.inputs@[j].send));
                        } else {
                            lemma_announce_kept(cc, *self, c as int, bc.sources@, m);
                            let j = choose|j: int| 0 <= j < self.inputs@.len() && self.inputs@[j].node == m
                                && #[trigger] bc.sources@.contains(self.inputs@[j].send);
                            assert(bb.sources@.contains(self.inputs@[j].send));
                        }
                    }
                    assert forall|k: int| c0.graph.nodes@.len() <= k < self.graph.nodes@.len() implies #[trigger] flag_of(
                        self.graph.nodes@[k],
                    ) < 0 by {
                        if k < ca.graph.nodes@.len() {
                            assert(same_reads(cc.graph.nodes@[k], ca.graph.nodes@[k]));
                            assert(self.graph.nodes@[k] == cc.graph.nodes@[k]);
                        } else if k < cc.graph.nodes@.len() {
                            assert(self.graph.nodes@[k] == cc.graph.nodes@[k]);
                        }
                    }
                }
                proof {
                    assert forall|x: usize| x < c0.graph.nodes@.len() && !existing_of(rel0).contains(x) implies #[trigger] self.graph.owner@[x as int]
                        == c0.graph.owner@[x as int] by {
                        assert(ca.graph.owner@[x as int] == c0.graph.owner@[x as int]);
                        assert(cc.graph.owner@[x as int] == ca.graph.owner@[x as int]);
                    }
                    assert(i >= c0.graph.nodes@.len());
                    lemma_claimed_trans(c0, ca, cc);
                    lemma_add_claimed(c0, cc, *self, i as int);
                    assert forall|x: usize| #[trigger] existing_of(rel0).contains(x) implies x < self.graph.nodes@.len() && !(
                    self.graph.owner@[x as int] is Free) by {
                        if existing_of(*l).contains(x) {
                            assert(!(ca.graph.owner@[x as int] is Free));
                        }
                        assert(!(cc.graph.owner@[x as int] is Free));
                    }
                    lemma_leaves_back(c0, ca, *r);
                    assert forall|x: usize| #[trigger] existing_of(*l).contains(x) implies !existing_of(*r).contains(x) by {
                        if existing_of(*r).contains(x) {
                            lemma_leaf_free(ca, *r, x);
                            assert(!(ca.graph.owner@[x as int] is Free));
                        }
                    }
                    lemma_no_dup_join(existing_of(*l), existing_of(*r));
                    assert(attachable(c0, rel0));
                }
                (i, bb)
            },
            RelOp::Triangles(x, y, z) => {
                proof {
                    assert(existing_of(rel0) == existing_of(*x) + existing_of(*y) + existing_of(*z));
                    lemma_concat_contains(existing_of(*x), existing_of(*y));
                    lemma_concat_contains(existing_of(*x) + existing_of(*y), existing_of(*z));
                    if attachable(c0, rel0) {
                        lemma_no_dup_concat(existing_of(*x) + existing_of(*y), existing_of(*z));
                        lemma_no_dup_concat(existing_of(*x), existing_of(*y));
                    }
                }
                let (a, ba) = self.attach(*x)?;
                let ghost ca = *self;
                proof {
                    if attachable(c0, rel0) {
                        lemma_leaves_kept(c0, ca, *y);
                        lemma_leaves_kept(c0, ca, *z);
                    }
                }
                let rc = self.attach(*y);
                proof {
                    lemma_no_new_sources(c0, ca, *self);
                }
                let (c, bc) = rc?;
                let ghost cc = *self;
                proof {
                    if attachable(c0, rel0) {
                        lemma_leaves_kept(ca, cc, *z);
                    }
                }
                let re = self.attach(*z);
                proof {
                    lemma_no_new_sources(c0, cc, *self);
                }
                let (e, be) = re?;
                let ghost ce = *self;
                let mut deps: Vec<usize> = Vec::new();
                deps.push(a);
                deps.push(c);
                deps.push(e);
                let i = self.graph.add_node(
                    Node::Triangles { first: a, second: c, third: e, state: Triangles::new() },
                    label("triangles"),
                    deps,
                );
                let bb = ba.or(bc).or(be);
                proof {
                    assert forall|m: int| #[trigger] reads_input(self.graph, i as int, m) implies exists|j: int|
                        0 <= j < self.inputs@.len() && self.inputs@[j].node == m && #[trigger] bb.sources@.contains(
                        self.inputs@[j].send,
                    ) by {
                        if reads_input(self.graph, a as int, m) {
                            lemma_announce_kept(ca, *self, a as int, ba.sources@, m);
                            let j = choose|j: int| 0 <= j < self.inputs@.len() && self.inputs@[j].node == m
                                && #[trigger] ba.sources@.contains(self.inputs@[j].send);
                            assert(bb.sources@.contains(self.inputs@[j].send));
                        } else if reads_input(self.graph, c as int, m) {
                            lemma_announce_kept(cc, *self, c as int, bc.sources@, m);
                            let j = choose|j: int| 0 <= j < self.inputs@.len() && self.inputs@[j].node == m
                                && #[trigger] bc.sources@.contains(self.inputs@[j].send);
                            assert(bb.sources@.contains(self.inputs@[j].send));
                        } else {
                            lemma_announce_kept(ce, *self, e as int, be.sources@, m);
                            let j = choose|j: int| 0 <= j < self.inputs@.len() && self.inputs@[j].node == m
                                && #[trigger] be.sources@.contains(self.inputs@[j].send);
                            assert(bb.sources@.contains(self.inputs@[j].send));
                        }
                    }
                    assert forall|k: int| c0.graph.nodes@.len() <= k < self.graph.nodes@.len() implies #[trigger] flag_of(
                        self.graph.nodes@[k],
                    ) < 0 by {
                        if k < ca.graph.nodes@.len() {
                            assert(same_reads(cc.graph.nodes@[k], ca.graph.nodes@[k]));
                            assert(same_reads(ce.graph.nodes@[k], cc.graph.nodes@[k]));
                            assert(self.graph.nodes@[k] == ce.graph.nodes@[k]);
                        } else if k < cc.graph.nodes@.len() {
                            assert(same_reads(ce.graph.nodes@[k], cc.graph.nodes@[k]));
                            assert(self.graph.nodes@[k] == ce.graph.nodes@[k]);
                        } else if k < ce.graph.nodes@.len() {
                            assert(self.graph.nodes@[k] == ce.graph.nodes@[k]);
                        }
                    }
                }
                proof {
                    assert forall|x: usize| x < c0.graph.nodes@.len() && !existing_of(rel0).contains(x) implies #[trigger] self.graph.owner@[x as int]
                        == c0.graph.owner@[x as int] by {
                        assert(ca.graph.owner@[x as int] == c0.graph.owner@[x as int]);
                        assert(cc.graph.owner@[x as int] == ca.graph.owner@[x as int]);
                        assert(ce.graph.owner@[x as int] == cc.graph.owner@[x as int]);
                    }
                    assert(i >= c0.graph.nodes@.len());
                    lemma_claimed_trans(c0, ca, cc);
                    lemma_claimed_trans(c0, cc, ce);
                    lemma_add_claimed(c0, ce, *self, i as int);
                    assert forall|w: usize| #[trigger] existing_of(rel0).contains(w) implies w < self.graph.nodes@.len() && !(
                    self.graph.owner@[w as int] is Free) by {
                        if existing_of(*x).contains(w) {
                            assert(!(ca.graph.owner@[w as int] is Free));
                            assert(!(cc.graph.owner@[w as int] is Free));
                        } else if existing_of(*y).contains(w) {
                            assert(!(cc.graph.owner@[w as int] is Free));
                        }
                        assert(!(ce.graph.owner@[w as int] is Free));
                    }
                    lemma_leaves_back(c0, ca, *y);
                    lemma_leaves_back(ca, cc, *z);
                    lemma_leaves_back(c0, ca, *z);
                    assert forall|w: usize| #[trigger] existing_of(*x).contains(w) implies !existing_of(*y).contains(w) by {
                        if existing_of(*y).contains(w) {
                            lemma_leaf_free(ca, *y, w);
                            assert(!(ca.graph.owner@[w as int] is Free));
                        }
                    }
                    lemma_no_dup_join(existing_of(*x), existing_of(*y));
                    assert forall|w: usize| #[trigger] (existing_of(*x) + existing_of(*y)).contains(w) implies !existing_of(
                        *z,
                    ).contains(w) by {
                        if existing_of(*z).contains(w) {
                            lemma_leaf_free(cc, *z, w);
                            if existing_of(*x).contains(w) {
                                assert(!(ca.graph.owner@[w as int] is Free));
                            }
                            assert(!(cc.graph.owner@[w as int] is Free));
                        }
                    }
                    lemma_no_dup_join(existing_of(*x) + existing_of(*y), existing_of(*z));
                    assert(attachable(c0, rel0));
                }
                (i, bb)
            },
        };
        let ghost c2 = *self;
        if !existing {
            self.graph.claim(idx);
        }
        proof {
            self.lemma_wf_extend(c0);
        }
        self.label_node(idx, name, kind_name, hidden, shown_name, shown_kind);
        proof {
            assert forall|j: int| 0 <= j < c2.graph.nodes@.len() implies #[trigger] same_reads(self.graph.nodes@[j], c2.graph.nodes@[j]) by {
                crate::graph::lemma_same_links_refl(c2.graph.nodes@[j]);
            }
            assert forall|m: int| #[trigger] reads_input(self.graph, idx as int, m) implies exists|j: int|
                0 <= j < self.inputs@.len() && self.inputs@[j].node == m && #[trigger] builder.sources@.contains(
                self.inputs@[j].send,
            ) by {
                lemma_announce_kept(c2, *self, idx as int, builder.sources@, m);
            }
            assert forall|k: int| c0.graph.nodes@.len() <= k < self.graph.nodes@.len() implies #[trigger] flag_of(
                self.graph.nodes@[k],
            ) < 0 by {
                assert(self.graph.nodes@[k] == c2.graph.nodes@[k]);
            }
        }
        proof {
            assert forall|j: int| 0 <= j < c0.graph.nodes@.len() && !(c0.graph.owner@[j] is Free) implies !(
            #[trigger] self.graph.owner@[j] is Free) by {
                assert(!(c2.graph.owner@[j] is Free));
            }
            assert forall|j: int| c0.graph.nodes@.len() <= j < self.graph.nodes@.len() && j != -1 implies !(
            #[trigger] self.graph.owner@[j] is Free) by {
                if j != idx {
                    assert(!(c2.graph.owner@[j] is Free));
                }
            }
            assert forall|x: usize| #[trigger] existing_of(rel0).contains(x) implies x < self.graph.nodes@.len() && !(
            self.graph.owner@[x as int] is Free) by {
                assert(!(c2.graph.owner@[x as int] is Free));
            }
        }
        Ok((idx, builder))
    }
}

/// What a node of `c0` reads it still reads in `c1`, which kept the inputs
/// and the kind and links of the nodes of `c0`: so the inputs that announce
/// it are as they were.
proof fn lemma_announce_kept(c0: Context, c1: Context, n: int, sources: Seq<usize>, m: int)
    requires
        inputs_announce(c0, n, sources),
        0 <= n < c0.graph.nodes@.len() <= c1.graph.nodes@.len(),
        forall|j: int| 0 <= j < c0.graph.nodes@.len() ==> #[trigger] same_reads(c1.graph.nodes@[j], c0.graph.nodes@[j]),
        c1.inputs == c0.inputs,
        reads_input(c1.graph, n, m),
    ensures
        exists|j: int| 0 <= j < c1.inputs@.len() && c1.inputs@[j].node == m && #[trigger] sources.contains(c1.inputs@[j].send),
{
    lemma_reads_grown(c0.graph, c1.graph, n, m);
}

/// Nodes added in two steps that each add no save or split node are no
/// save or split nodes.
proof fn lemma_no_new_sources(c0: Context, c1: Context, c2: Context)
    requires
        c0.graph.nodes@.len() <= c1.graph.nodes@.len() <= c2.graph.nodes@.len(),
        forall|k: int| c0.graph.nodes@.len() <= k < c1.graph.nodes@.len() ==> #[trigger] flag_of(c1.graph.nodes@[k]) < 0,
        forall|k: int| c1.graph.nodes@.len() <= k < c2.graph.nodes@.len() ==> #[trigger] flag_of(c2.graph.nodes@[k]) < 0,
        forall|j: int| 0 <= j < c1.graph.nodes@.len() ==> #[trigger] same_reads(c2.graph.nodes@[j], c1.graph.nodes@[j]),
    ensures
        forall|k: int| c0.graph.nodes@.len() <= k < c2.graph.nodes@.len() ==> #[trigger] flag_of(c2.graph.nodes@[k]) < 0,
{
    assert forall|k: int| c0.graph.nodes@.len() <= k < c2.graph.nodes@.len() implies #[trigger] flag_of(c2.graph.nodes@[k]) < 0 by {
        if k < c1.graph.nodes@.len() {
            assert(same_reads(c2.graph.nodes@[k], c1.graph.nodes@[k]));
            assert(flag_of(c1.graph.nodes@[k]) < 0);
        }
    }
}

impl Context {
    /// The dirty nodes that a new receive node will listen to may all be
    /// given to `into_receive`.
    proof fn lemma_sources_in(b: ReceiveBuilder, n: int)
        requires
            forall|x: usize| #[trigger] b.sources@.contains(x) ==> x < n,
        ensures
            forall|i: int| 0 <= i < b.sources@.len() ==> #[trigger] b.sources@[i] < n,
    {
        assert forall|i: int| 0 <= i < b.sources@.len() implies #[trigger] b.sources@[i] < n by {
            assert(b.sources@.contains(b.sources@[i]));
        }
    }

    /// Makes the nodes that compute `rel` and a receive node that listens to
    /// them. Returns the node that holds `rel` and the receive node.
    pub fn connect(&mut self, rel: Relation) -> (r: Result<(usize, usize), Error>)
        requires
            old(self).wf(),
        ensures
            final(self).wf(),
            final(self).id == old(self).id,
            final(self).inputs == old(self).inputs,
            final(self).handlers == old(self).handlers,
            old(self).graph.nodes@.len() <= final(self).graph.nodes@.len(),
            forall|j: int| 0 <= j < old(self).graph.nodes@.len() ==> same_reads(#[trigger] final(self).graph.nodes@[j], old(self).graph.nodes@[j]),
            r is Err ==> r->Err_0 is ContextMismatch,
            r matches Ok((n, d)) ==> {
                &&& n < final(self).graph.nodes@.len()
                &&& d < final(self).graph.dirty.nodes@.len()
                &&& (rel.op is Reduce ==> final(self).graph.nodes@[n as int] is Reduce)
                &&& (rel.op is Dynamic ==> final(self).graph.nodes@[n as int] is Dynamic)
                &&& (rel.op is Existing ==> n == rel.op->Existing_node
                    && final(self).graph.dirty.nodes@[rel.op->Existing_source as int].targets@.contains(d))
                &&& final(self).graph.owner@[n as int] is Outside
                &&& final(self).graph.hist@[n as int].len() == 0
                &&& (n >= old(self).graph.nodes@.len() || old(self).graph.owner@[n as int] is Free)
                &&& announced(*final(self), n as int, d)
                &&& d == old(self).graph.dirty.nodes@.len()
                &&& own_flag(*final(self), d)
            },
            forall|j: int| 0 <= j < old(self).graph.nodes@.len() ==> #[trigger] final(self).graph.hist@[j] == old(self).graph.hist@[j],
            forall|j: int| 0 <= j < old(self).graph.nodes@.len() && old(self).graph.owner@[j] is Outside
                ==> #[trigger] final(self).graph.owner@[j] is Outside,
            grown(*final(self), *old(self)),
            r is Ok <==> attachable(*old(self), rel),
    {
        let ghost c0 = *self;
        let r0 = self.attach(rel);
        proof {
            lemma_grown_refl(c0);
            assert(grown(*self, c0));
        }
        let (s, b) = r0?;
        let ghost c1 = *self;
        proof {
            Self::lemma_sources_in(b, self.graph.dirty.nodes@.len() as int);
        }
        let recv = b.into_receive(&mut self.graph.dirty);
        proof {
            self.graph.lemma_wf_grow(c1.graph);
            self.lemma_wf_extend(c1);
            if rel.op is Existing {
                let src = rel.op->Existing_source;
                assert(b.sources@.contains(src));
                assert(src < c1.graph.dirty.nodes@.len());
                assert(self.graph.dirty.nodes@[src as int].targets@.contains(recv.id));
            }
            assert forall|j: int| 0 <= j < c1.graph.nodes@.len() implies #[trigger] same_reads(self.graph.nodes@[j], c1.graph.nodes@[j]) by {
                crate::graph::lemma_same_links_refl(c1.graph.nodes@[j]);
            }
            assert forall|m: int| #[trigger] reads_input(self.graph, s as int, m) implies exists|j: int|
                0 <= j < self.inputs@.len() && self.inputs@[j].node == m
                && #[trigger] self.graph.dirty.nodes@[self.inputs@[j].send as int].targets@.contains(recv.id) by {
                lemma_reads_grown(c1.graph, self.graph, s as int, m);
                let j = choose|j: int| 0 <= j < c1.inputs@.len() && c1.inputs@[j].node == m
                    && #[trigger] b.sources@.contains(c1.inputs@[j].send);
                assert(c1.input_ok(j));
                assert(self.graph.dirty.nodes@[self.inputs@[j].send as int].targets@.contains(recv.id));
            }
            assert forall|i: int, t: usize| 0 <= i < c1.graph.dirty.nodes@.len() && #[trigger] c1.graph.dirty.nodes@[i].targets@.contains(t)
                implies self.graph.dirty.nodes@[i].targets@.contains(t) by {}
            assert(grown(*self, c1));
            lemma_grown_trans(c0, c1, *self);
            if source_flag(self.graph, recv.id as int) {
                let k = choose|k: int| 0 <= k < self.graph.nodes@.len() && #[trigger] flag_of(self.graph.nodes@[k]) == recv.id as int;
                assert(c1.graph.node_wf(k));
                assert(self.graph.nodes@[k] == c1.graph.nodes@[k]);
            }
        }
        Ok((s, recv.id))
    }

    /// Saves `rel`: a hidden save node that passes the changes of `rel` to
    /// each of its readers. Returns the save node and the receive node that
    /// announces its changes.
    pub fn save_node(&mut self, rel: Relation) -> (r: Result<(usize, usize, usize), Error>)
        requires
            old(self).wf(),
        ensures
            final(self).wf(),
            final(self).id == old(self).id,
            final(self).inputs == old(self).inputs,
            final(self).handlers == old(self).handlers,
            old(self).graph.nodes@.len() <= final(self).graph.nodes@.len(),
            forall|j: int| 0 <= j < old(self).graph.nodes@.len() ==> same_reads(#[trigger] final(self).graph.nodes@[j], old(self).graph.nodes@[j]),
            r is Err ==> r->Err_0 is ContextMismatch,
            forall|j: int| 0 <= j < old(self).graph.nodes@.len() ==> #[trigger] final(self).graph.hist@[j] == old(self).graph.hist@[j],
            forall|j: int| 0 <= j < old(self).graph.nodes@.len() && old(self).graph.owner@[j] is Outside
                ==> #[trigger] final(self).graph.owner@[j] is Outside,
            r matches Ok((n, d, src)) ==> {
                &&& n < final(self).graph.nodes@.len()
                &&& final(self).graph.nodes@[n as int] is Save
                &&& final(self).graph.nodes@[n as int]->Save_readers@.len() == 0
                &&& final(self).graph.nodes@[n as int]->Save_src == src
                &&& src < n
                &&& (rel.op is Reduce ==> final(self).graph.nodes@[src as int] is Reduce)
                &&& (rel.op is Dynamic ==> final(self).graph.nodes@[src as int] is Dynamic)
                &&& final(self).graph.nodes@[n as int]->Save_dirty == d
                &&& d < final(self).graph.dirty.nodes@.len()
                &&& final(self).graph.tracker.infos@[n as int].hidden
            },
            grown(*final(self), *old(self)),
            r is Ok <==> attachable(*old(self), rel),
    {
        let ghost c0 = *self;
        let (s, d) = self.connect(rel)?;
        let ghost c1 = *self;
        let mut deps: Vec<usize> = Vec::new();
        deps.push(s);
        let n = self.graph.add_node(Node::Save { src: s, readers: Vec::new(), dirty: d }, label("save"), deps);
        let ghost c2 = *self;
        self.graph.tracker.set_hidden(n);
        proof {
            self.graph.lemma_wf_tracker(c2.graph);
            self.lemma_wf_extend(c1);
            self.lemma_grown_nodes(c0, c1);
        }
        Ok((n, d, s))
    }

    /// Splits `rel`, whose elements are pairs `(l, r)` with counts: a hidden
    /// split node sends `(l, count)` to the left read node and `(r, count)`
    /// to the right one. Returns the two read nodes and the receive node
    /// that announces their changes.
    pub fn split_node(&mut self, rel: Relation) -> (r: Result<(usize, usize, usize), Error>)
        requires
            old(self).wf(),
        ensures
            final(self).wf(),
            final(self).id == old(self).id,
            final(self).inputs == old(self).inputs,
            final(self).handlers == old(self).handlers,
            old(self).graph.nodes@.len() <= final(self).graph.nodes@.len(),
            forall|j: int| 0 <= j < old(self).graph.nodes@.len() ==> same_reads(#[trigger] final(self).graph.nodes@[j], old(self).graph.nodes@[j]),
            r is Err ==> r->Err_0 is ContextMismatch,
            forall|j: int| 0 <= j < old(self).graph.nodes@.len() ==> #[trigger] final(self).graph.hist@[j] == old(self).graph.hist@[j],
            forall|j: int| 0 <= j < old(self).graph.nodes@.len() && old(self).graph.owner@[j] is Outside
                ==> #[trigger] final(self).graph.owner@[j] is Outside,
            r matches Ok((a, b, d)) ==> {
                &&& a < final(self).graph.nodes@.len()
                &&& b < final(self).graph.nodes@.len()
                &&& final(self).graph.nodes@[a as int] is Read
                &&& final(self).graph.nodes@[b as int] is Read
                &&& final(self).graph.nodes@[a as int]->Read_from == final(self).graph.nodes@[b as int]->Read_from
                &&& final(self).graph.nodes@[final(self).graph.nodes@[a as int]->Read_from as int] is Split
                &&& final(self).graph.nodes@[a as int]->Read_buffer == final(self).graph.nodes@[final(self).graph.nodes@[a as int]->Read_from as int]->Split_left_buffer
                &&& final(self).graph.nodes@[b as int]->Read_buffer == final(self).graph.nodes@[final(self).graph.nodes@[a as int]->Read_from as int]->Split_right_buffer
                &&& d < final(self).graph.dirty.nodes@.len()
            },
            grown(*final(self), *old(self)),
            r is Ok <==> attachable(*old(self), rel),
    {
        let ghost c0 = *self;
        let (s, d) = self.connect(rel)?;
        let ghost c1 = *self;
        let lb = self.graph.new_buffer();
        let rb = self.graph.new_buffer();
        proof {
            assert(!self.graph.input_bufs@.contains(lb)) by {
                if self.graph.input_bufs@.contains(lb) {
                    assert(c1.graph.input_bufs@.contains(lb));
                }
            }
            assert(!self.graph.input_bufs@.contains(rb)) by {
                if self.graph.input_bufs@.contains(rb) {
                    assert(c1.graph.input_bufs@.contains(rb));
                }
            }
        }
        let mut deps: Vec<usize> = Vec::new();
        deps.push(s);
        let sp = self.graph.add_node(
            Node::Split { src: s, left_buffer: lb, right_buffer: rb, dirty: d },
            label("split"),
            deps,
        );
        let ghost c2 = *self;
        self.graph.tracker.set_hidden(sp);
        proof {
            self.graph.lemma_wf_tracker(c2.graph);
        }
        let mut ldeps: Vec<usize> = Vec::new();
        ldeps.push(sp);
        let a = self.graph.add_node(Node::Read { from: sp, buffer: lb }, label("split"), ldeps);
        let mut rdeps: Vec<usize> = Vec::new();
        rdeps.push(sp);
        let b = self.graph.add_node(Node::Read { from: sp, buffer: rb }, label("split"), rdeps);
        proof {
            self.lemma_wf_extend(c1);
            self.lemma_grown_nodes(c0, c1);
        }
        Ok((a, b, d))
    }
}

/// Input `j` is where a commit that has dumped the first `k` queued inputs
/// `qs` of `c0` leaves it.
pub open spec fn commit_progress(c: Context, c0: Context, qs: Seq<usize>, k: int, j: int) -> bool {
    &&& c.inputs@[j].node == c0.inputs@[j].node
    &&& c.inputs@[j].send == c0.inputs@[j].send
    &&& c.inputs@[j].pending@ == if qs.subrange(k, qs.len() as int).contains(j as usize) {
        c0.inputs@[j].pending@
    } else {
        Seq::<Delta>::empty()
    }
    &&& c.graph.pipes.pending(c0.input_buffer(j)) == c0.graph.pipes.pending(c0.input_buffer(j)) + (
    if qs.take(k).contains(j as usize) {
        c0.inputs@[j].pending@
    } else {
        Seq::<Delta>::empty()
    })
    &&& c.graph.pipes.sent@[c0.input_buffer(j) as int] == c0.graph.pipes.sent@[c0.input_buffer(j) as int] + (
    if qs.take(k).contains(j as usize) {
        c0.inputs@[j].pending@
    } else {
        Seq::<Delta>::empty()
    })
}

impl Context {
    /// Dumping queued input `qs[k]` takes a commit one step further.
    proof fn lemma_commit_step(c0: Context, before: Context, after: Context, qs: Seq<usize>, k: int, a: int)
        requires
            c0.wf(),
            c0.inputs@.len() <= usize::MAX,
            qs == c0.handlers.queued_handler_inds@,
            0 <= k < qs.len(),
            0 <= a < c0.inputs@.len(),
            commit_progress(before, c0, qs, k, a),
            commit_progress(before, c0, qs, k, qs[k] as int),
            before.graph.nodes == c0.graph.nodes,
            before.inputs@.len() == c0.inputs@.len(),
            after.inputs@.len() == before.inputs@.len(),
            after.inputs@[qs[k] as int].pending@.len() == 0,
            after.inputs@[qs[k] as int].node == before.inputs@[qs[k] as int].node,
            after.inputs@[qs[k] as int].send == before.inputs@[qs[k] as int].send,
            forall|m: int| 0 <= m < before.inputs@.len() && m != qs[k] ==> #[trigger] after.inputs@[m] == before.inputs@[m],
            after.graph.pipes.pending(before.input_buffer(qs[k] as int)) == before.graph.pipes.pending(
                before.input_buffer(qs[k] as int),
            ) + before.inputs@[qs[k] as int].pending@,
            forall|b: usize| b != before.input_buffer(qs[k] as int) && b < before.graph.pipes.buffers@.len()
                ==> #[trigger] after.graph.pipes.pending(b) == before.graph.pipes.pending(b),
            after.graph.pipes.sent@ == before.graph.pipes.sent@.update(
                before.input_buffer(qs[k] as int) as int,
                before.graph.pipes.sent@[before.input_buffer(qs[k] as int) as int] + before.inputs@[qs[k] as int].pending@,
            ),
            before.graph.pipes.sent@.len() == before.graph.pipes.buffers@.len(),
            before.graph.pipes.buffers@.len() == c0.graph.pipes.buffers@.len(),
        ensures
            commit_progress(after, c0, qs, k + 1, a),
    {
        let j = qs[k];
        assert(c0.handlers.wf());
        assert(j < c0.inputs@.len());
        assert(c0.input_ok(j as int));
        let t0 = qs.take(k);
        let t1 = qs.take(k + 1);
        let cur = qs.subrange(k, qs.len() as int);
        let rest = qs.subrange(k + 1, qs.len() as int);
        assert(cur[0] == j);
        assert(t1[k] == j);
        assert(t1 =~= t0.push(j));
        assert(cur =~= seq![j] + rest);
        assert(c0.input_ok(a));
        assert(c0.graph.node_wf(c0.inputs@[a].node as int));
        assert(before.input_buffer(j as int) == c0.input_buffer(j as int));
        assert(before.input_buffer(a) == c0.input_buffer(a));
        if a == j {
            assert(!t0.contains(a as usize)) by {
                if t0.contains(a as usize) {
                    let b = choose|b: int| 0 <= b < k && t0[b] == a as usize;
                    assert(qs[b] == qs[k]);
                }
            }
            assert(before.graph.pipes.pending(c0.input_buffer(a)) =~= c0.graph.pipes.pending(c0.input_buffer(a)));
            assert(cur.contains(a as usize));
            assert(t1.contains(a as usize));
            if rest.contains(a as usize) {
                let b = choose|b: int| 0 <= b < rest.len() && rest[b] == a as usize;
                assert(qs[k + 1 + b] == qs[k]);
            }
            if t0.contains(a as usize) {
                let b = choose|b: int| 0 <= b < k && t0[b] == a as usize;
                assert(qs[b] == qs[k]);
            }
            assert(after.inputs@[a].node == c0.inputs@[a].node);
            assert(after.inputs@[a].send == c0.inputs@[a].send);
            assert(after.inputs@[a].pending@ == Seq::<Delta>::empty());
            assert(!rest.contains(a as usize));
            assert(after.graph.pipes.pending(c0.input_buffer(a)) == c0.graph.pipes.pending(c0.input_buffer(a)) + c0.inputs@[a].pending@);
        } else {
            assert(c0.input_buffer(a) != c0.input_buffer(j as int));
            assert(c0.graph.node_wf(c0.inputs@[j as int].node as int));
            assert(c0.input_buffer(a) < c0.graph.pipes.buffers@.len());
            assert(after.graph.pipes.pending(c0.input_buffer(a)) == before.graph.pipes.pending(c0.input_buffer(a)));
            assert(after.inputs@[a] == before.inputs@[a]);
            if cur.contains(a as usize) {
                let b = choose|b: int| 0 <= b < cur.len() && cur[b] == a as usize;
                assert(b != 0);
                assert(rest[b - 1] == a as usize);
            }
            if rest.contains(a as usize) {
                let b = choose|b: int| 0 <= b < rest.len() && rest[b] == a as usize;
                assert(cur[b + 1] == a as usize);
            }
            if t1.contains(a as usize) {
                let b = choose|b: int| 0 <= b < k + 1 && t1[b] == a as usize;
                assert(b != k);
                assert(t0[b] == a as usize);
            }
            if t0.contains(a as usize) {
                let b = choose|b: int| 0 <= b < k && t0[b] == a as usize;
                assert(t1[b] == a as usize);
            }
        }
    }
}

} // verus!
