use vstd::prelude::*;
use crate::datum::{Datum, Delta};
use crate::counts::{Counts, consolidate_deltas};
use crate::fns::{DeltaOp, expand_deltas, expand_all, copy_deltas, lemma_expand_all_concat};
use crate::count::{count_in, lemma_count_concat, consolidated};
use crate::datum::mk_pair;
use crate::join::join_product;
use crate::antijoin::antijoin_value;
use crate::reduce::reduce_value;
use crate::triangles::triangle_product;
use crate::join::Join;
use crate::antijoin::AntiJoin;
use crate::reduce::Reduce;
use crate::value_map::OutputMap;
use crate::triangles::{Triangles, BiMap};
use crate::pipes::{Pipes, Receiver, Sender, Counters, CountSender};
use crate::dirty::{DirtyGraph, DirtyReceive, same_structure};
use crate::tracking::{ContextTracker, default_name};
use crate::error::{Error, overflow_error};

verus! {

/// A node of the graph that a context builds from its relations.
///
/// Each node refers to earlier nodes only. Inputs and reads take what is
/// waiting in their buffer; saves and splits fill the buffers of their reads.
pub enum Node {
    Empty,
    Input { buffer: usize },
    FlatMap { src: usize, f: DeltaOp },
    Concat { left: usize, right: usize },
    Consolidate { src: usize },
    Join { left: usize, right: usize, state: Join },
    AntiJoin { left: usize, right: usize, state: AntiJoin },
    Reduce { src: usize, state: Reduce },
    Triangles { first: usize, second: usize, third: usize, state: Triangles },
    Dynamic { src: usize },
    Save { src: usize, readers: Vec<usize>, dirty: usize },
    Split { src: usize, left_buffer: usize, right_buffer: usize, dirty: usize },
    Read { from: usize, buffer: usize },
}

pub open spec fn is_source(n: Node) -> bool {
    n is Save || n is Split
}

/// A node has the same kind before and after; an input node is unchanged.
pub open spec fn same_kind(a: Node, b: Node) -> bool {
    &&& (a is Empty <==> b is Empty)
    &&& (a is Input <==> b is Input)
    &&& (a is Input ==> a == b)
    &&& (a is FlatMap <==> b is FlatMap)
    &&& (a is Concat <==> b is Concat)
    &&& (a is Consolidate <==> b is Consolidate)
    &&& (a is Join <==> b is Join)
    &&& (a is AntiJoin <==> b is AntiJoin)
    &&& (a is Reduce <==> b is Reduce)
    &&& (a is Triangles <==> b is Triangles)
    &&& (a is Dynamic <==> b is Dynamic)
    &&& (a is Save <==> b is Save)
    &&& (a is Split <==> b is Split)
    &&& (a is Read <==> b is Read)
}

/// Two nodes of the same kind with the same links.
pub open spec fn same_shape(a: Node, b: Node) -> bool {
    &&& same_kind(a, b)
    &&& match (a, b) {
        (Node::Input { buffer: x }, Node::Input { buffer: y }) => x == y,
        (Node::FlatMap { src: x, .. }, Node::FlatMap { src: y, .. }) => x == y,
        (Node::Concat { left: x, right: z }, Node::Concat { left: y, right: w }) => x == y && z == w,
        (Node::Consolidate { src: x }, Node::Consolidate { src: y }) => x == y,
        (Node::Join { left: x, right: z, state: s }, Node::Join { left: y, right: w, .. }) => x == y && z == w && s.wf(),
        (Node::AntiJoin { left: x, right: z, state: s }, Node::AntiJoin { left: y, right: w, .. }) => x == y && z == w
            && s.wf(),
        (Node::Reduce { src: x, state: s }, Node::Reduce { src: y, .. }) => x == y && s.wf(),
        (
            Node::Triangles { first: x, second: z, third: u, state: s },
            Node::Triangles { first: y, second: w, third: v, .. },
        ) => x == y && z == w && u == v && s.wf(),
        (Node::Dynamic { src: x }, Node::Dynamic { src: y }) => x == y,
        (Node::Save { src: x, readers: z, dirty: u }, Node::Save { src: y, readers: w, dirty: v }) => x == y && z
            == w && u == v,
        (
            Node::Split { src: x, left_buffer: z, right_buffer: u, dirty: p },
            Node::Split { src: y, left_buffer: w, right_buffer: v, dirty: q },
        ) => x == y && z == w && u == v && p == q,
        (Node::Read { from: x, buffer: z }, Node::Read { from: y, buffer: w }) => x == y && z == w,
        _ => true,
    }
}

/// `c` is a node whose changes `n` takes.
pub open spec fn is_child(n: Node, c: int) -> bool {
    match n {
        Node::FlatMap { src, .. } => c == src,
        Node::Consolidate { src } => c == src,
        Node::Reduce { src, .. } => c == src,
        Node::Dynamic { src } => c == src,
        Node::Save { src, .. } => c == src,
        Node::Split { src, .. } => c == src,
        Node::Concat { left, right } => c == left || c == right,
        Node::Join { left, right, .. } => c == left || c == right,
        Node::AntiJoin { left, right, .. } => c == left || c == right,
        Node::Triangles { first, second, third, .. } => c == first || c == second || c == third,
        _ => false,
    }
}

/// A node with several children takes them from distinct nodes.
pub open spec fn distinct_children(n: Node) -> bool {
    match n {
        Node::Concat { left, right } => left != right,
        Node::Join { left, right, .. } => left != right,
        Node::AntiJoin { left, right, .. } => left != right,
        Node::Triangles { first, second, third, .. } => first != second && first != third && second != third,
        _ => true,
    }
}

/// What `n` has emitted, `hk`, is its operator applied to what its children
/// have emitted, by the histories `h`: for a flat map, the changes it
/// makes of its input's, in order; for a dynamic node, its input's; for the others, the count of each element, with the state of a
/// join, antijoin, reduce or triangles node holding the counts of its inputs.
/// Inputs, reads, saves and splits are not constrained.
pub open spec fn sem_of(n: Node, h: Seq<Seq<Delta>>, hk: Seq<Delta>) -> bool {
    match n {
        Node::FlatMap { src, f } => hk == expand_all(f, h[src as int]),
        Node::Concat { left, right } => forall|d: Datum| #[trigger] count_in(hk, d) == count_in(h[left as int], d)
            + count_in(h[right as int], d),
        Node::Consolidate { src } => forall|d: Datum| #[trigger] count_in(hk, d) == count_in(h[src as int], d),
        Node::Dynamic { src } => hk == h[src as int],
        Node::Join { left, right, state } => {
            &&& forall|p: Datum| #[trigger] state.left_map.count(p) == count_in(h[left as int], p)
            &&& forall|p: Datum| #[trigger] state.right_map.count(p) == count_in(h[right as int], p)
            &&& forall|d: Datum| #[trigger] count_in(hk, d) == join_product(state.left_map, state.right_map, d)
        },
        Node::AntiJoin { left, right, state } => {
            &&& forall|p: Datum| #[trigger] state.left_map.count(p) == count_in(h[left as int], p)
            &&& forall|p: Datum| #[trigger] state.right_map.count(p) == count_in(h[right as int], p)
            &&& forall|d: Datum| #[trigger] count_in(hk, d) == antijoin_value(state.left_map, state.right_map, d)
        },
        Node::Reduce { src, state } => {
            &&& forall|p: Datum| #[trigger] state.in_map.count(p) == count_in(h[src as int], p)
            &&& forall|d: Datum| #[trigger] count_in(hk, d) == reduce_value(state.out_map, d)
        },
        Node::Triangles { first, second, third, state } => {
            &&& pairs_counted(state.mapxy, h[first as int])
            &&& pairs_counted(state.mapxz, h[second as int])
            &&& pairs_counted(state.mapyz, h[third as int])
            &&& forall|d: Datum| #[trigger] count_in(hk, d) == triangle_product(
                state.mapxy,
                state.mapxz,
                state.mapyz,
                d,
            )
        },
        _ => true,
    }
}

/// `m` holds each pair `(a, b)` as often as `s` counts it.
pub open spec fn pairs_counted(m: BiMap, s: Seq<Delta>) -> bool {
    forall|a: Datum, b: Datum| #[trigger] m.pair_count(a, b) == count_in(s, mk_pair(a, b))
}

/// The state of `n` has seen nothing yet.
pub open spec fn fresh_state(n: Node) -> bool {
    match n {
        Node::Join { state, .. } => forall|d: Datum| state.left_map.count(d) == 0 && state.right_map.count(d) == 0,
        Node::AntiJoin { state, .. } => forall|d: Datum| state.left_map.count(d) == 0 && state.right_map.count(d) == 0,
        Node::Reduce { state, .. } => (forall|d: Datum| #[trigger] state.in_map.count(d) == 0) && (forall|d: Datum|
            #[trigger] state.out_map.lookup_spec(d) is None),
        Node::Triangles { state, .. } => forall|a: Datum, b: Datum| state.mapxy.pair_count(a, b) == 0
            && state.mapxz.pair_count(a, b) == 0 && state.mapyz.pair_count(a, b) == 0,
        _ => true,
    }
}

/// Whether `n` agrees with its children depends only on their histories.
pub proof fn lemma_sem_frame(n: Node, h1: Seq<Seq<Delta>>, h2: Seq<Seq<Delta>>, hk: Seq<Delta>)
    requires
        sem_of(n, h1, hk),
        forall|c: int| #[trigger] is_child(n, c) ==> h1[c] == h2[c],
    ensures
        sem_of(n, h2, hk),
{
    match n {
        Node::FlatMap { src, .. } => {
            assert(is_child(n, src as int));
        },
        Node::Consolidate { src } => {
            assert(is_child(n, src as int));
        },
        Node::Reduce { src, .. } => {
            assert(is_child(n, src as int));
        },
        Node::Dynamic { src } => {
            assert(is_child(n, src as int));
        },
        Node::Concat { left, right } => {
            assert(is_child(n, left as int) && is_child(n, right as int));
        },
        Node::Join { left, right, .. } => {
            assert(is_child(n, left as int) && is_child(n, right as int));
        },
        Node::AntiJoin { left, right, .. } => {
            assert(is_child(n, left as int) && is_child(n, right as int));
        },
        Node::Triangles { first, second, third, .. } => {
            assert(is_child(n, first as int) && is_child(n, second as int) && is_child(n, third as int));
        },
        _ => {},
    }
}

/// A node whose state has seen nothing agrees with children that have
/// emitted nothing, having emitted nothing itself.
pub proof fn lemma_fresh_sem(n: Node, h: Seq<Seq<Delta>>)
    requires
        fresh_state(n),
        forall|c: int| #[trigger] is_child(n, c) ==> h[c].len() == 0,
    ensures
        sem_of(n, h, Seq::empty()),
{
    let e = Seq::<Delta>::empty();
    match n {
        Node::FlatMap { src, f } => {
            assert(is_child(n, src as int));
            assert(h[src as int] =~= e);
        },
        Node::Consolidate { src } => {
            assert(is_child(n, src as int));
            assert(h[src as int] =~= e);
        },
        Node::Dynamic { src } => {
            assert(is_child(n, src as int));
            assert(h[src as int] =~= e);
        },
        Node::Reduce { src, state } => {
            assert(is_child(n, src as int));
            assert(h[src as int] =~= e);
            assert forall|d: Datum| #[trigger] count_in(e, d) == reduce_value(state.out_map, d) by {
                match d {
                    Datum::Pair(k, y) => {
                        assert(state.out_map.lookup_spec(*k) is None);
                    },
                    _ => {},
                }
            }
        },
        Node::Concat { left, right } => {
            assert(is_child(n, left as int) && is_child(n, right as int));
            assert(h[left as int] =~= e && h[right as int] =~= e);
        },
        Node::Join { left, right, state } => {
            assert(is_child(n, left as int) && is_child(n, right as int));
            assert(h[left as int] =~= e && h[right as int] =~= e);
            assert forall|d: Datum| #[trigger] count_in(e, d) == join_product(state.left_map, state.right_map, d) by {
                match d {
                    Datum::Triple(k, x, y) => {
                        assert(state.left_map.count(mk_pair(*k, *x)) == 0);
                    },
                    _ => {},
                }
            }
        },
        Node::AntiJoin { left, right, state } => {
            assert(is_child(n, left as int) && is_child(n, right as int));
            assert(h[left as int] =~= e && h[right as int] =~= e);
            assert forall|d: Datum| #[trigger] count_in(e, d) == antijoin_value(state.left_map, state.right_map, d) by {
                assert(state.left_map.count(d) == 0);
            }
        },
        Node::Triangles { first, second, third, state } => {
            assert(is_child(n, first as int) && is_child(n, second as int) && is_child(n, third as int));
            assert(h[first as int] =~= e && h[second as int] =~= e && h[third as int] =~= e);
            assert forall|d: Datum| #[trigger] count_in(e, d) == triangle_product(
                state.mapxy,
                state.mapxz,
                state.mapyz,
                d,
            ) by {
                match d {
                    Datum::Triple(x, y, z) => {
                        assert(state.mapxy.pair_count(*x, *y) == 0);
                    },
                    _ => {},
                }
            }
        },
        _ => {},
    }
}

/// Two nodes of the same kind that read the same nodes and buffers.
pub open spec fn same_links(a: Node, b: Node) -> bool {
    &&& same_kind(a, b)
    &&& match (a, b) {
        (Node::FlatMap { src: x, .. }, Node::FlatMap { src: y, .. }) => x == y,
        (Node::Concat { left: x, right: z }, Node::Concat { left: y, right: w }) => x == y && z == w,
        (Node::Consolidate { src: x }, Node::Consolidate { src: y }) => x == y,
        (Node::Join { left: x, right: z, .. }, Node::Join { left: y, right: w, .. }) => x == y && z == w,
        (Node::AntiJoin { left: x, right: z, .. }, Node::AntiJoin { left: y, right: w, .. }) => x == y && z == w,
        (Node::Reduce { src: x, .. }, Node::Reduce { src: y, .. }) => x == y,
        (
            Node::Triangles { first: x, second: z, third: u, .. },
            Node::Triangles { first: y, second: w, third: v, .. },
        ) => x == y && z == w && u == v,
        (Node::Dynamic { src: x }, Node::Dynamic { src: y }) => x == y,
        (Node::Save { src: x, readers: z, dirty: u }, Node::Save { src: y, readers: w, dirty: v }) => x == y && z
            == w && u == v,
        (
            Node::Split { src: x, left_buffer: z, right_buffer: u, dirty: p },
            Node::Split { src: y, left_buffer: w, right_buffer: v, dirty: q },
        ) => x == y && z == w && u == v && p == q,
        (Node::Read { from: x, buffer: z }, Node::Read { from: y, buffer: w }) => x == y && z == w,
        _ => true,
    }
}

/// Every input node that node `k` of `g` reads, directly or through the
/// nodes it reads (but not through reads of saved or split relations), has
/// nothing waiting in its buffer.
pub open spec fn inputs_drained(g: Graph, k: int) -> bool
    decreases k,
{
    if 0 <= k < g.nodes@.len() {
        match g.nodes@[k] {
            Node::Input { buffer } => g.pipes.pending(buffer).len() == 0,
            Node::FlatMap { src, .. } => if src < k { inputs_drained(g, src as int) } else { false },
            Node::Consolidate { src } => if src < k { inputs_drained(g, src as int) } else { false },
            Node::Reduce { src, .. } => if src < k { inputs_drained(g, src as int) } else { false },
            Node::Dynamic { src } => if src < k { inputs_drained(g, src as int) } else { false },
            Node::Concat { left, right } => if left < k && right < k {
                inputs_drained(g, left as int) && inputs_drained(g, right as int)
            } else {
                false
            },
            Node::Join { left, right, .. } => if left < k && right < k {
                inputs_drained(g, left as int) && inputs_drained(g, right as int)
            } else {
                false
            },
            Node::AntiJoin { left, right, .. } => if left < k && right < k {
                inputs_drained(g, left as int) && inputs_drained(g, right as int)
            } else {
                false
            },
            Node::Triangles { first, second, third, .. } => if first < k && second < k && third < k {
                inputs_drained(g, first as int) && inputs_drained(g, second as int) && inputs_drained(g, third as int)
            } else {
                false
            },
            _ => true,
        }
    } else {
        true
    }
}

/// What input nodes under node `k` have drained stays drained when the
/// nodes up to `k` keep their links and the buffers of input nodes are only
/// emptied.
pub proof fn lemma_drained_keep(g1: Graph, g2: Graph, k: int)
    requires
        inputs_drained(g1, k),
        g1.nodes@.len() == g2.nodes@.len(),
        forall|j: int| 0 <= j <= k && j < g1.nodes@.len() ==> #[trigger] same_links(g2.nodes@[j], g1.nodes@[j]),
        forall|j: int|
            0 <= j <= k && j < g1.nodes@.len() && (#[trigger] g1.nodes@[j]) is Input ==> g2.pipes.pending(
                g1.nodes@[j]->Input_buffer,
            ) == g1.pipes.pending(g1.nodes@[j]->Input_buffer) || g2.pipes.pending(g1.nodes@[j]->Input_buffer).len()
                == 0,
    ensures
        inputs_drained(g2, k),
    decreases k,
{
    if 0 <= k < g1.nodes@.len() {
        assert(same_links(g2.nodes@[k], g1.nodes@[k]));
        match g1.nodes@[k] {
            Node::FlatMap { src, .. } => {
                lemma_drained_keep(g1, g2, src as int);
            },
            Node::Consolidate { src } => {
                lemma_drained_keep(g1, g2, src as int);
            },
            Node::Reduce { src, .. } => {
                lemma_drained_keep(g1, g2, src as int);
            },
            Node::Dynamic { src } => {
                lemma_drained_keep(g1, g2, src as int);
            },
            Node::Concat { left, right } => {
                lemma_drained_keep(g1, g2, left as int);
                lemma_drained_keep(g1, g2, right as int);
            },
            Node::Join { left, right, .. } => {
                lemma_drained_keep(g1, g2, left as int);
                lemma_drained_keep(g1, g2, right as int);
            },
            Node::AntiJoin { left, right, .. } => {
                lemma_drained_keep(g1, g2, left as int);
                lemma_drained_keep(g1, g2, right as int);
            },
            Node::Triangles { first, second, third, .. } => {
                lemma_drained_keep(g1, g2, first as int);
                lemma_drained_keep(g1, g2, second as int);
                lemma_drained_keep(g1, g2, third as int);
            },
            _ => {},
        }
    }
}

/// A node has the links it has.
pub proof fn lemma_same_links_refl(a: Node)
    ensures
        same_links(a, a),
{
}

/// Pulling `n`, standing at index `i` of `g`, does no arithmetic on counts:
/// `n` and every node it reads, down to the inputs, only pass changes on
/// (inputs, reads of saves and splits, saves and splits, concatenations
/// and dynamic nodes), so the pull cannot fail.
pub open spec fn node_safe(g: Graph, n: Node, i: int) -> bool
    decreases i,
{
    match n {
        Node::Input { .. } => true,
        Node::Read { from, .. } => (from as int) < i && node_safe(g, g.nodes@[from as int], from as int),
        Node::Save { src, .. } => (src as int) < i && node_safe(g, g.nodes@[src as int], src as int),
        Node::Split { src, .. } => (src as int) < i && node_safe(g, g.nodes@[src as int], src as int),
        Node::Dynamic { src } => (src as int) < i && node_safe(g, g.nodes@[src as int], src as int),
        Node::Concat { left, right } => (left as int) < i && (right as int) < i && node_safe(
            g,
            g.nodes@[left as int],
            left as int,
        ) && node_safe(g, g.nodes@[right as int], right as int),
        _ => false,
    }
}

/// A pull of node `i` of `g` cannot fail (see `node_safe`).
pub open spec fn safe_pull(g: Graph, i: int) -> bool {
    0 <= i < g.nodes@.len() && node_safe(g, g.nodes@[i], i)
}

/// Whether a pull can fail depends only on the kinds and links of the
/// nodes below it.
pub proof fn lemma_node_safe_stable(g1: Graph, g2: Graph, n1: Node, n2: Node, i: int)
    requires
        same_links(n2, n1),
        forall|j: int| 0 <= j < i ==> #[trigger] same_links(g2.nodes@[j], g1.nodes@[j]),
    ensures
        node_safe(g1, n1, i) == node_safe(g2, n2, i),
    decreases i,
{
    match n1 {
        Node::Read { from, .. } => {
            if (from as int) < i {
                lemma_node_safe_stable(g1, g2, g1.nodes@[from as int], g2.nodes@[from as int], from as int);
            }
        },
        Node::Save { src, .. } => {
            if (src as int) < i {
                lemma_node_safe_stable(g1, g2, g1.nodes@[src as int], g2.nodes@[src as int], src as int);
            }
        },
        Node::Split { src, .. } => {
            if (src as int) < i {
                lemma_node_safe_stable(g1, g2, g1.nodes@[src as int], g2.nodes@[src as int], src as int);
            }
        },
        Node::Dynamic { src } => {
            if (src as int) < i {
                lemma_node_safe_stable(g1, g2, g1.nodes@[src as int], g2.nodes@[src as int], src as int);
            }
        },
        Node::Concat { left, right } => {
            if (left as int) < i {
                lemma_node_safe_stable(g1, g2, g1.nodes@[left as int], g2.nodes@[left as int], left as int);
            }
            if (right as int) < i {
                lemma_node_safe_stable(g1, g2, g1.nodes@[right as int], g2.nodes@[right as int], right as int);
            }
        },
        _ => {},
    }
}

/// Keeping links is transitive.
pub proof fn lemma_same_links_trans(a: Node, b: Node, c: Node)
    requires
        same_links(a, b),
        same_links(b, c),
    ensures
        same_links(a, c),
{
}

/// Nodes of the same shape have the same links.
pub proof fn lemma_shape_links(a: Node, b: Node)
    requires
        same_shape(a, b),
    ensures
        same_links(a, b),
{
}

/// Keeping the links of every node composes.
pub proof fn lemma_links_trans_all(a: Graph, b: Graph, c: Graph)
    requires
        b.nodes@.len() == a.nodes@.len(),
        c.nodes@.len() == b.nodes@.len(),
        forall|j: int| 0 <= j < b.nodes@.len() ==> #[trigger] same_links(b.nodes@[j], a.nodes@[j]),
        forall|j: int| 0 <= j < c.nodes@.len() ==> #[trigger] same_links(c.nodes@[j], b.nodes@[j]),
    ensures
        forall|j: int| 0 <= j < c.nodes@.len() ==> #[trigger] same_links(c.nodes@[j], a.nodes@[j]),
{
    assert forall|j: int| 0 <= j < c.nodes@.len() implies #[trigger] same_links(c.nodes@[j], a.nodes@[j]) by {
        assert(same_links(b.nodes@[j], a.nodes@[j]));
        assert(same_links(c.nodes@[j], b.nodes@[j]));
        lemma_same_links_trans(c.nodes@[j], b.nodes@[j], a.nodes@[j]);
    }
}

/// Node `n` reads or sends to buffer `b`.
pub open spec fn uses_buffer(n: Node, b: usize) -> bool {
    match n {
        Node::Input { buffer } => buffer == b,
        Node::Read { buffer, .. } => buffer == b,
        Node::Save { readers, .. } => readers@.contains(b),
        Node::Split { left_buffer, right_buffer, .. } => left_buffer == b || right_buffer == b,
        _ => false,
    }
}

/// Every input node that node `k` of `g` reads, directly or through the
/// nodes it reads (but not through reads of saved or split relations), has
/// emitted everything that was sent to its buffer.
pub open spec fn inputs_complete(g: Graph, k: int) -> bool
    decreases k,
{
    if 0 <= k < g.nodes@.len() {
        match g.nodes@[k] {
            Node::Input { buffer } => g.hist@[k] == g.pipes.sent@[buffer as int],
            Node::FlatMap { src, .. } => if src < k { inputs_complete(g, src as int) } else { false },
            Node::Consolidate { src } => if src < k { inputs_complete(g, src as int) } else { false },
            Node::Reduce { src, .. } => if src < k { inputs_complete(g, src as int) } else { false },
            Node::Dynamic { src } => if src < k { inputs_complete(g, src as int) } else { false },
            Node::Concat { left, right } => if left < k && right < k {
                inputs_complete(g, left as int) && inputs_complete(g, right as int)
            } else {
                false
            },
            Node::Join { left, right, .. } => if left < k && right < k {
                inputs_complete(g, left as int) && inputs_complete(g, right as int)
            } else {
                false
            },
            Node::AntiJoin { left, right, .. } => if left < k && right < k {
                inputs_complete(g, left as int) && inputs_complete(g, right as int)
            } else {
                false
            },
            Node::Triangles { first, second, third, .. } => if first < k && second < k && third < k {
                inputs_complete(g, first as int) && inputs_complete(g, second as int) && inputs_complete(g, third as int)
            } else {
                false
            },
            _ => true,
        }
    } else {
        true
    }
}

/// Input nodes with nothing waiting in their buffers have emitted
/// everything sent to them.
pub proof fn lemma_drained_complete(g: Graph, k: int)
    requires
        g.inputs_ok(),
        inputs_drained(g, k),
    ensures
        inputs_complete(g, k),
    decreases k,
{
    if 0 <= k < g.nodes@.len() {
        match g.nodes@[k] {
            Node::Input { buffer } => {
                assert(g.hist@[k] + g.pipes.pending(buffer) == g.pipes.sent@[buffer as int]);
                assert(g.hist@[k] + g.pipes.pending(buffer) =~= g.hist@[k]);
            },
            Node::FlatMap { src, .. } => {
                lemma_drained_complete(g, src as int);
            },
            Node::Consolidate { src } => {
                lemma_drained_complete(g, src as int);
            },
            Node::Reduce { src, .. } => {
                lemma_drained_complete(g, src as int);
            },
            Node::Dynamic { src } => {
                lemma_drained_complete(g, src as int);
            },
            Node::Concat { left, right } => {
                lemma_drained_complete(g, left as int);
                lemma_drained_complete(g, right as int);
            },
            Node::Join { left, right, .. } => {
                lemma_drained_complete(g, left as int);
                lemma_drained_complete(g, right as int);
            },
            Node::AntiJoin { left, right, .. } => {
                lemma_drained_complete(g, left as int);
                lemma_drained_complete(g, right as int);
            },
            Node::Triangles { first, second, third, .. } => {
                lemma_drained_complete(g, first as int);
                lemma_drained_complete(g, second as int);
                lemma_drained_complete(g, third as int);
            },
            _ => {},
        }
    }
}

/// `a` is `b` with the same kind and links, except that a save node may
/// have gained readers.
pub open spec fn same_reads(a: Node, b: Node) -> bool {
    &&& same_kind(a, b)
    &&& (a is Save ==> a->Save_src == b->Save_src && a->Save_dirty == b->Save_dirty)
    &&& (a is Save || same_links(a, b))
}

/// Node `m` is an input node that node `k` of `g` reads, directly or
/// through the nodes it reads (but not through reads of saved or split
/// relations).
pub open spec fn reads_input(g: Graph, k: int, m: int) -> bool
    decreases k,
{
    if 0 <= k < g.nodes@.len() {
        match g.nodes@[k] {
            Node::Input { .. } => m == k,
            Node::FlatMap { src, .. } => if src < k { reads_input(g, src as int, m) } else { false },
            Node::Consolidate { src } => if src < k { reads_input(g, src as int, m) } else { false },
            Node::Reduce { src, .. } => if src < k { reads_input(g, src as int, m) } else { false },
            Node::Dynamic { src } => if src < k { reads_input(g, src as int, m) } else { false },
            Node::Concat { left, right } => if left < k && right < k {
                reads_input(g, left as int, m) || reads_input(g, right as int, m)
            } else {
                false
            },
            Node::Join { left, right, .. } => if left < k && right < k {
                reads_input(g, left as int, m) || reads_input(g, right as int, m)
            } else {
                false
            },
            Node::AntiJoin { left, right, .. } => if left < k && right < k {
                reads_input(g, left as int, m) || reads_input(g, right as int, m)
            } else {
                false
            },
            Node::Triangles { first, second, third, .. } => if first < k && second < k && third < k {
                reads_input(g, first as int, m) || reads_input(g, second as int, m) || reads_input(g, third as int, m)
            } else {
                false
            },
            _ => false,
        }
    } else {
        false
    }
}

/// An input node that a drained node reads is an input node with nothing
/// waiting in its buffer.
pub proof fn lemma_drained_reads(g: Graph, k: int, m: int)
    requires
        inputs_drained(g, k),
        reads_input(g, k, m),
    ensures
        0 <= m <= k,
        g.nodes@[m] is Input,
        g.pipes.pending(g.nodes@[m]->Input_buffer).len() == 0,
    decreases k,
{
    match g.nodes@[k] {
        Node::FlatMap { src, .. } => lemma_drained_reads(g, src as int, m),
        Node::Consolidate { src } => lemma_drained_reads(g, src as int, m),
        Node::Reduce { src, .. } => lemma_drained_reads(g, src as int, m),
        Node::Dynamic { src } => lemma_drained_reads(g, src as int, m),
        Node::Concat { left, right } => if reads_input(g, left as int, m) {
            lemma_drained_reads(g, left as int, m);
        } else {
            lemma_drained_reads(g, right as int, m);
        },
        Node::Join { left, right, .. } => if reads_input(g, left as int, m) {
            lemma_drained_reads(g, left as int, m);
        } else {
            lemma_drained_reads(g, right as int, m);
        },
        Node::AntiJoin { left, right, .. } => if reads_input(g, left as int, m) {
            lemma_drained_reads(g, left as int, m);
        } else {
            lemma_drained_reads(g, right as int, m);
        },
        Node::Triangles { first, second, third, .. } => if reads_input(g, first as int, m) {
            lemma_drained_reads(g, first as int, m);
        } else if reads_input(g, second as int, m) {
            lemma_drained_reads(g, second as int, m);
        } else {
            lemma_drained_reads(g, third as int, m);
        },
        _ => {},
    }
}

/// A drained node stays drained in a graph with the same links when the
/// buffer of every input node it reads is still empty.
pub proof fn lemma_drained_again(g0: Graph, g1: Graph, k: int)
    requires
        inputs_drained(g0, k),
        g1.nodes@.len() == g0.nodes@.len(),
        forall|j: int| 0 <= j < g0.nodes@.len() ==> #[trigger] same_reads(g1.nodes@[j], g0.nodes@[j]),
        forall|m: int| #[trigger] reads_input(g0, k, m) ==> g1.pipes.pending(g0.nodes@[m]->Input_buffer).len() == 0,
    ensures
        inputs_drained(g1, k),
    decreases k,
{
    if 0 <= k < g0.nodes@.len() {
        assert(same_reads(g1.nodes@[k], g0.nodes@[k]));
        match g0.nodes@[k] {
            Node::Input { .. } => {
                assert(reads_input(g0, k, k));
            },
            Node::FlatMap { src, .. } => {
                assert forall|m: int| #[trigger] reads_input(g0, src as int, m) implies g1.pipes.pending(g0.nodes@[m]->Input_buffer).len() == 0 by {
                    assert(reads_input(g0, k, m));
                }
                lemma_drained_again(g0, g1, src as int);
            },
            Node::Consolidate { src } => {
                assert forall|m: int| #[trigger] reads_input(g0, src as int, m) implies g1.pipes.pending(g0.nodes@[m]->Input_buffer).len() == 0 by {
                    assert(reads_input(g0, k, m));
                }
                lemma_drained_again(g0, g1, src as int);
            },
            Node::Reduce { src, .. } => {
                assert forall|m: int| #[trigger] reads_input(g0, src as int, m) implies g1.pipes.pending(g0.nodes@[m]->Input_buffer).len() == 0 by {
                    assert(reads_input(g0, k, m));
                }
                lemma_drained_again(g0, g1, src as int);
            },
            Node::Dynamic { src } => {
                assert forall|m: int| #[trigger] reads_input(g0, src as int, m) implies g1.pipes.pending(g0.nodes@[m]->Input_buffer).len() == 0 by {
                    assert(reads_input(g0, k, m));
                }
                lemma_drained_again(g0, g1, src as int);
            },
            Node::Concat { left, right } => {
                assert forall|m: int| #[trigger] reads_input(g0, left as int, m) implies g1.pipes.pending(g0.nodes@[m]->Input_buffer).len() == 0 by {
                    assert(reads_input(g0, k, m));
                }
                assert forall|m: int| #[trigger] reads_input(g0, right as int, m) implies g1.pipes.pending(g0.nodes@[m]->Input_buffer).len() == 0 by {
                    assert(reads_input(g0, k, m));
                }
                lemma_drained_again(g0, g1, left as int);
                lemma_drained_again(g0, g1, right as int);
            },
            Node::Join { left, right, .. } => {
                assert forall|m: int| #[trigger] reads_input(g0, left as int, m) implies g1.pipes.pending(g0.nodes@[m]->Input_buffer).len() == 0 by {
                    assert(reads_input(g0, k, m));
                }
                assert forall|m: int| #[trigger] reads_input(g0, right as int, m) implies g1.pipes.pending(g0.nodes@[m]->Input_buffer).len() == 0 by {
                    assert(reads_input(g0, k, m));
                }
                lemma_drained_again(g0, g1, left as int);
                lemma_drained_again(g0, g1, right as int);
            },
            Node::AntiJoin { left, right, .. } => {
                assert forall|m: int| #[trigger] reads_input(g0, left as int, m) implies g1.pipes.pending(g0.nodes@[m]->Input_buffer).len() == 0 by {
                    assert(reads_input(g0, k, m));
                }
                assert forall|m: int| #[trigger] reads_input(g0, right as int, m) implies g1.pipes.pending(g0.nodes@[m]->Input_buffer).len() == 0 by {
                    assert(reads_input(g0, k, m));
                }
                lemma_drained_again(g0, g1, left as int);
                lemma_drained_again(g0, g1, right as int);
            },
            Node::Triangles { first, second, third, .. } => {
                assert forall|m: int| #[trigger] reads_input(g0, first as int, m) implies g1.pipes.pending(g0.nodes@[m]->Input_buffer).len() == 0 by {
                    assert(reads_input(g0, k, m));
                }
                assert forall|m: int| #[trigger] reads_input(g0, second as int, m) implies g1.pipes.pending(g0.nodes@[m]->Input_buffer).len() == 0 by {
                    assert(reads_input(g0, k, m));
                }
                assert forall|m: int| #[trigger] reads_input(g0, third as int, m) implies g1.pipes.pending(g0.nodes@[m]->Input_buffer).len() == 0 by {
                    assert(reads_input(g0, k, m));
                }
                lemma_drained_again(g0, g1, first as int);
                lemma_drained_again(g0, g1, second as int);
                lemma_drained_again(g0, g1, third as int);
            },
            _ => {},
        }
    }
}

/// A node is drained when every input node that it reads has nothing
/// waiting in its buffer.
pub proof fn lemma_drained_of_reads(g: Graph, k: int)
    requires
        g.wf_upto(g.nodes@.len() - 1),
        forall|m: int| #[trigger] reads_input(g, k, m) ==> g.pipes.pending(g.nodes@[m]->Input_buffer).len() == 0,
    ensures
        inputs_drained(g, k),
    decreases k,
{
    if 0 <= k < g.nodes@.len() {
        assert(g.node_wf(k));
        match g.nodes@[k] {
            Node::Input { .. } => {
                assert(reads_input(g, k, k));
            },
            Node::FlatMap { src, .. } => {
                assert forall|m: int| #[trigger] reads_input(g, src as int, m) implies g.pipes.pending(g.nodes@[m]->Input_buffer).len() == 0 by {
                    assert(reads_input(g, k, m));
                }
                lemma_drained_of_reads(g, src as int);
            },
            Node::Consolidate { src } => {
                assert forall|m: int| #[trigger] reads_input(g, src as int, m) implies g.pipes.pending(g.nodes@[m]->Input_buffer).len() == 0 by {
                    assert(reads_input(g, k, m));
                }
                lemma_drained_of_reads(g, src as int);
            },
            Node::Reduce { src, .. } => {
                assert forall|m: int| #[trigger] reads_input(g, src as int, m) implies g.pipes.pending(g.nodes@[m]->Input_buffer).len() == 0 by {
                    assert(reads_input(g, k, m));
                }
                lemma_drained_of_reads(g, src as int);
            },
            Node::Dynamic { src } => {
                assert forall|m: int| #[trigger] reads_input(g, src as int, m) implies g.pipes.pending(g.nodes@[m]->Input_buffer).len() == 0 by {
                    assert(reads_input(g, k, m));
                }
                lemma_drained_of_reads(g, src as int);
            },
            Node::Concat { left, right } => {
                assert forall|m: int| #[trigger] reads_input(g, left as int, m) implies g.pipes.pending(g.nodes@[m]->Input_buffer).len() == 0 by {
                    assert(reads_input(g, k, m));
                }
                assert forall|m: int| #[trigger] reads_input(g, right as int, m) implies g.pipes.pending(g.nodes@[m]->Input_buffer).len() == 0 by {
                    assert(reads_input(g, k, m));
                }
                lemma_drained_of_reads(g, left as int);
                lemma_drained_of_reads(g, right as int);
            },
            Node::Join { left, right, .. } => {
                assert forall|m: int| #[trigger] reads_input(g, left as int, m) implies g.pipes.pending(g.nodes@[m]->Input_buffer).len() == 0 by {
                    assert(reads_input(g, k, m));
                }
                assert forall|m: int| #[trigger] reads_input(g, right as int, m) implies g.pipes.pending(g.nodes@[m]->Input_buffer).len() == 0 by {
                    assert(reads_input(g, k, m));
                }
                lemma_drained_of_reads(g, left as int);
                lemma_drained_of_reads(g, right as int);
            },
            Node::AntiJoin { left, right, .. } => {
                assert forall|m: int| #[trigger] reads_input(g, left as int, m) implies g.pipes.pending(g.nodes@[m]->Input_buffer).len() == 0 by {
                    assert(reads_input(g, k, m));
                }
                assert forall|m: int| #[trigger] reads_input(g, right as int, m) implies g.pipes.pending(g.nodes@[m]->Input_buffer).len() == 0 by {
                    assert(reads_input(g, k, m));
                }
                lemma_drained_of_reads(g, left as int);
                lemma_drained_of_reads(g, right as int);
            },
            Node::Triangles { first, second, third, .. } => {
                assert forall|m: int| #[trigger] reads_input(g, first as int, m) implies g.pipes.pending(g.nodes@[m]->Input_buffer).len() == 0 by {
                    assert(reads_input(g, k, m));
                }
                assert forall|m: int| #[trigger] reads_input(g, second as int, m) implies g.pipes.pending(g.nodes@[m]->Input_buffer).len() == 0 by {
                    assert(reads_input(g, k, m));
                }
                assert forall|m: int| #[trigger] reads_input(g, third as int, m) implies g.pipes.pending(g.nodes@[m]->Input_buffer).len() == 0 by {
                    assert(reads_input(g, k, m));
                }
                lemma_drained_of_reads(g, first as int);
                lemma_drained_of_reads(g, second as int);
                lemma_drained_of_reads(g, third as int);
            },
            _ => {},
        }
    }
}

/// What node `k` reads stays as it is when the graph grows and keeps the
/// kind and links of the nodes it had.
pub proof fn lemma_reads_grown(g0: Graph, g1: Graph, k: int, m: int)
    requires
        g0.nodes@.len() <= g1.nodes@.len(),
        forall|j: int| 0 <= j < g0.nodes@.len() ==> #[trigger] same_reads(g1.nodes@[j], g0.nodes@[j]),
        k < g0.nodes@.len(),
    ensures
        reads_input(g1, k, m) == reads_input(g0, k, m),
    decreases k,
{
    if 0 <= k {
        assert(same_reads(g1.nodes@[k], g0.nodes@[k]));
        match g0.nodes@[k] {
            Node::FlatMap { src, .. } => if src < k { lemma_reads_grown(g0, g1, src as int, m); },
            Node::Consolidate { src } => if src < k { lemma_reads_grown(g0, g1, src as int, m); },
            Node::Reduce { src, .. } => if src < k { lemma_reads_grown(g0, g1, src as int, m); },
            Node::Dynamic { src } => if src < k { lemma_reads_grown(g0, g1, src as int, m); },
            Node::Concat { left, right } => if left < k && right < k {
                lemma_reads_grown(g0, g1, left as int, m);
                lemma_reads_grown(g0, g1, right as int, m);
            },
            Node::Join { left, right, .. } => if left < k && right < k {
                lemma_reads_grown(g0, g1, left as int, m);
                lemma_reads_grown(g0, g1, right as int, m);
            },
            Node::AntiJoin { left, right, .. } => if left < k && right < k {
                lemma_reads_grown(g0, g1, left as int, m);
                lemma_reads_grown(g0, g1, right as int, m);
            },
            Node::Triangles { first, second, third, .. } => if first < k && second < k && third < k {
                lemma_reads_grown(g0, g1, first as int, m);
                lemma_reads_grown(g0, g1, second as int, m);
                lemma_reads_grown(g0, g1, third as int, m);
            },
            _ => {},
        }
    }
}

/// The receive node of a save or split node; -1 for other nodes.
pub open spec fn flag_of(n: Node) -> int {
    match n {
        Node::Save { dirty, .. } => dirty as int,
        Node::Split { dirty, .. } => dirty as int,
        _ => -1,
    }
}

/// Dirty node `j` is the receive node of a save or split node of `g`.
pub open spec fn source_flag(g: Graph, j: int) -> bool {
    exists|k: int| 0 <= k < g.nodes@.len() && #[trigger] flag_of(g.nodes@[k]) == j
}

/// Between `prev` and `g`, only receive nodes of saves and splits were set
/// clean.
pub open spec fn flags_kept(g: Graph, prev: Graph) -> bool {
    forall|j: int|
        0 <= j < prev.dirty.nodes@.len() && prev.dirty.nodes@[j].dirty && !(#[trigger] g.dirty.nodes@[j]).dirty
            ==> source_flag(prev, j)
}

/// Setting only receive nodes of saves and splits clean composes, when the
/// saves and splits of the middle graph were there before.
pub proof fn lemma_flags_kept_trans(a: Graph, b: Graph, c: Graph)
    requires
        flags_kept(b, a),
        flags_kept(c, b),
        b.dirty.nodes@.len() == a.dirty.nodes@.len(),
        b.nodes@.len() == a.nodes@.len(),
        forall|k: int| 0 <= k < b.nodes@.len() && #[trigger] flag_of(b.nodes@[k]) >= 0 ==> flag_of(a.nodes@[k])
            == flag_of(b.nodes@[k]),
    ensures
        flags_kept(c, a),
{
    assert forall|j: int|
        0 <= j < a.dirty.nodes@.len() && a.dirty.nodes@[j].dirty && !(#[trigger] c.dirty.nodes@[j]).dirty implies source_flag(a, j) by {
        if b.dirty.nodes@[j].dirty {
            assert(source_flag(b, j));
            let k = choose|k: int| 0 <= k < b.nodes@.len() && #[trigger] flag_of(b.nodes@[k]) == j;
            assert(flag_of(a.nodes@[k]) == j);
        } else {
            assert(!b.dirty.nodes@[j].dirty);
        }
    }
}

/// Nodes with the same links are saves and splits with the same receive
/// nodes.
pub proof fn lemma_links_flags(a: Graph, b: Graph)
    requires
        b.nodes@.len() == a.nodes@.len(),
        forall|j: int| 0 <= j < b.nodes@.len() ==> #[trigger] same_links(b.nodes@[j], a.nodes@[j]),
    ensures
        forall|k: int| 0 <= k < b.nodes@.len() && #[trigger] flag_of(b.nodes@[k]) >= 0 ==> flag_of(a.nodes@[k])
            == flag_of(b.nodes@[k]),
{
    assert forall|k: int| 0 <= k < b.nodes@.len() && #[trigger] flag_of(b.nodes@[k]) >= 0 implies flag_of(a.nodes@[k])
        == flag_of(b.nodes@[k]) by {
        assert(same_links(b.nodes@[k], a.nodes@[k]));
    }
}

/// Between `prev` and `g`, only `x` and receive nodes of saves and splits
/// were set clean.
pub open spec fn flags_kept_but(g: Graph, prev: Graph, x: int) -> bool {
    forall|j: int|
        0 <= j < prev.dirty.nodes@.len() && prev.dirty.nodes@[j].dirty && !(#[trigger] g.dirty.nodes@[j]).dirty
            ==> j == x || source_flag(prev, j)
}

/// A pull after clearing `x` clears only `x` and receive nodes of saves and
/// splits.
pub proof fn lemma_flags_kept_but_trans(a: Graph, b: Graph, c: Graph, x: int)
    requires
        flags_kept_but(b, a, x),
        flags_kept(c, b),
        b.nodes == a.nodes,
        b.dirty.nodes@.len() == a.dirty.nodes@.len(),
    ensures
        flags_kept_but(c, a, x),
{
    assert forall|j: int|
        0 <= j < a.dirty.nodes@.len() && a.dirty.nodes@[j].dirty && !(#[trigger] c.dirty.nodes@[j]).dirty implies j == x
            || source_flag(a, j) by {
        if b.dirty.nodes@[j].dirty {
            assert(source_flag(b, j));
            let k = choose|k: int| 0 <= k < b.nodes@.len() && #[trigger] flag_of(b.nodes@[k]) == j;
            assert(flag_of(a.nodes@[k]) == j);
        } else {
            assert(!b.dirty.nodes@[j].dirty);
        }
    }
}

/// A save or split node, taken out and put back, clearing only its own
/// receive node and receive nodes of saves and splits, keeps the flags.
pub proof fn lemma_flags_kept_put(g0: Graph, t0: Graph, g: Graph, i: int)
    requires
        0 <= i < g0.nodes@.len(),
        t0.nodes@ == g0.nodes@.update(i, Node::Empty),
        t0.dirty == g0.dirty,
        flags_kept_but(g, t0, flag_of(g0.nodes@[i])),
    ensures
        flags_kept(g, g0),
{
    assert forall|j: int|
        0 <= j < g0.dirty.nodes@.len() && g0.dirty.nodes@[j].dirty && !(#[trigger] g.dirty.nodes@[j]).dirty implies source_flag(g0, j) by {
        if j == flag_of(g0.nodes@[i]) {
            assert(flag_of(g0.nodes@[i]) == j);
        } else {
            assert(source_flag(t0, j));
            let k = choose|k: int| 0 <= k < t0.nodes@.len() && #[trigger] flag_of(t0.nodes@[k]) == j;
            assert(k != i);
            assert(t0.nodes@[k] == g0.nodes@[k]);
            assert(flag_of(g0.nodes@[k]) == j);
        }
    }
}

/// What consumes the changes of a node.
#[derive(Clone, Copy, PartialEq, Eq, Structural)]
pub enum Owner {
    /// Nothing yet.
    Free,
    /// Something outside the graph: an output, or a relation being built.
    Outside,
    /// The node with this index.
    Node(usize),
}

/// The children of `n`, standing at position `k`, come before it and have
/// `k` as their consumer, by `owner`; a node with several children has
/// distinct ones.
pub open spec fn owned_by(owner: Seq<Owner>, n: Node, k: int) -> bool {
    &&& forall|c: int| #[trigger] is_child(n, c) ==> 0 <= c < k && (owner[c] matches Owner::Node(p) && p as int == k)
    &&& distinct_children(n)
}

/// What node `n` emitted between `prev` and `g`.
pub open spec fn emitted(g: Graph, prev: Graph, n: int) -> Seq<Delta> {
    g.hist@[n].subrange(prev.hist@[n].len() as int, g.hist@[n].len() as int)
}

/// What a pull of `node` returned, `out`, made of what its children
/// emitted between `prev` and `g`: for a concat, its left child's changes
/// followed by its right child's, in order; for a consolidate, each element
/// of its child's changes once, with its net count, when that is not zero;
/// for a reduce, each change once (nothing for a key whose result stayed).
pub open spec fn pulled_shape(node: Node, g: Graph, prev: Graph, out: Seq<Delta>) -> bool {
    match node {
        Node::Concat { left, right } => out == emitted(g, prev, left as int) + emitted(g, prev, right as int),
        Node::Consolidate { src } => consolidated(out) && forall|d: Datum| #[trigger] count_in(out, d) == count_in(
            emitted(g, prev, src as int),
            d,
        ),
        Node::Reduce { .. } => consolidated(out),
        _ => true,
    }
}

/// `s` ends with `t`.
pub open spec fn ends_with(s: Seq<Delta>, t: Seq<Delta>) -> bool {
    t.len() <= s.len() && s.subrange(s.len() - t.len(), s.len() as int) == t
}

/// A sequence ends with what was appended to it.
pub proof fn lemma_ends_with(pre: Seq<Delta>, t: Seq<Delta>)
    ensures
        ends_with(pre + t, t),
{
    assert((pre + t).subrange(pre.len() as int, (pre + t).len() as int) =~= t);
}

/// What propagating the save or split `n` of `prev` leaves in `g`: the
/// receive node of `n` is clean. If it was clean before, the buffers and
/// what every node emitted are as they were. If it was dirty, what the
/// source of `n` emitted meanwhile ends what waits in each buffer that `n`
/// sends to: a reader buffer named `k` times by a save ends with `k` copies
/// of it, and the two buffers of a split end with its two sides.
pub open spec fn propagated(g: Graph, prev: Graph, n: Node) -> bool {
    let f = flag_of(n);
    &&& !g.dirty.nodes@[f].dirty
    &&& !prev.dirty.nodes@[f].dirty ==> g.pipes == prev.pipes && g.hist == prev.hist
    &&& prev.dirty.nodes@[f].dirty ==> match n {
        Node::Save { src, readers, .. } => forall|b: usize|
            b < g.pipes.buffers@.len() ==> #[trigger] ends_with(
                g.pipes.pending(b),
                repeated(emitted(g, prev, src as int), occurrences(readers@, b)),
            ),
        Node::Split { src, left_buffer, right_buffer, .. } => {
            let e = emitted(g, prev, src as int);
            if left_buffer == right_buffer {
                ends_with(g.pipes.pending(left_buffer), split_side(e, true) + split_side(e, false))
            } else {
                &&& ends_with(g.pipes.pending(left_buffer), split_side(e, true))
                &&& ends_with(g.pipes.pending(right_buffer), split_side(e, false))
            }
        },
        _ => true,
    }
}

/// Node `c` was pulled between the pull counts `before` and `now`.
pub open spec fn pulled_more(now: Seq<nat>, before: Seq<nat>, c: int) -> bool {
    now[c] != before[c]
}

/// The arena of nodes with the buffers, dirty flags, tracking information and
/// counters they use.
pub struct Graph {
    pub nodes: Vec<Node>,
    pub pipes: Pipes<Delta>,
    pub dirty: DirtyGraph,
    pub tracker: ContextTracker,
    pub counters: Counters,
    /// The consumer of each node.
    pub owner: Vec<Owner>,
    /// Everything each node has emitted, in order.
    pub hist: Ghost<Seq<Seq<Delta>>>,
    /// How many times each node has been pulled (or propagated).
    pub pulls: Ghost<Seq<nat>>,
    /// The buffers that input nodes read.
    pub input_bufs: Ghost<Set<usize>>,
}

impl Graph {
    /// The stores agree in size and are well formed.
    pub open spec fn sizes_ok(&self) -> bool {
        &&& self.counters.counts@.len() == self.nodes@.len()
        &&& self.owner@.len() == self.nodes@.len()
        &&& self.hist@.len() == self.nodes@.len()
        &&& self.pulls@.len() == self.nodes@.len()
        &&& self.tracker.infos@.len() == self.nodes@.len()
        &&& self.tracker.wf()
        &&& self.dirty.wf()
    }

    /// Node `i` refers to earlier nodes, existing buffers and existing dirty nodes.
    pub open spec fn node_wf(&self, i: int) -> bool {
        self.node_ok(self.nodes@[i], i)
    }

    /// `n`, standing at position `i`, refers to earlier nodes, existing
    /// buffers and existing dirty nodes.
    pub open spec fn node_ok(&self, n: Node, i: int) -> bool {
        match n {
            Node::Empty => true,
            Node::Input { buffer } => buffer < self.pipes.buffers@.len(),
            Node::FlatMap { src, f } => src < i,
            Node::Concat { left, right } => left < i && right < i,
            Node::Consolidate { src } => src < i,
            Node::Join { left, right, state } => left < i && right < i && state.wf(),
            Node::AntiJoin { left, right, state } => left < i && right < i && state.wf(),
            Node::Reduce { src, state } => src < i && state.wf(),
            Node::Triangles { first, second, third, state } => first < i && second < i && third < i && state.wf(),
            Node::Dynamic { src } => src < i,
            Node::Save { src, readers, dirty } => src < i && dirty < self.dirty.nodes@.len() && forall|j: int|
                0 <= j < readers@.len() ==> #[trigger] readers@[j] < self.pipes.buffers@.len(),
            Node::Split { src, left_buffer, right_buffer, dirty } => src < i && dirty < self.dirty.nodes@.len()
                && left_buffer < self.pipes.buffers@.len() && right_buffer < self.pipes.buffers@.len(),
            Node::Read { from, buffer } => from < i && buffer < self.pipes.buffers@.len() && is_source(
                self.nodes@[from as int],
            ),
        }
    }

    /// Every node up to `i` is well formed.
    pub open spec fn wf_upto(&self, i: int) -> bool {
        forall|j: int| 0 <= j <= i && j < self.nodes@.len() ==> #[trigger] self.node_wf(j)
    }

    pub open spec fn wf(&self) -> bool {
        self.sizes_ok() && self.wf_upto(self.nodes@.len() - 1) && self.coherent() && self.inputs_ok()
    }

    /// Each input node reads a buffer of its own, which no other node reads
    /// or sends to, and has emitted, in order, everything sent to that
    /// buffer but what still waits in it.
    pub open spec fn inputs_ok(&self) -> bool {
        let ib = self.input_bufs@;
        &&& self.pipes.sent@.len() == self.pipes.buffers@.len()
        &&& forall|b: usize| #[trigger] ib.contains(b) ==> b < self.pipes.buffers@.len()
        &&& forall|k: int|
            0 <= k < self.nodes@.len() ==> match #[trigger] self.nodes@[k] {
                Node::Input { buffer } => ib.contains(buffer) && self.hist@[k] + self.pipes.pending(buffer)
                    == self.pipes.sent@[buffer as int],
                Node::Read { buffer, .. } => !ib.contains(buffer),
                Node::Save { readers, .. } => forall|j: int| 0 <= j < readers@.len() ==> !ib.contains(#[trigger] readers@[j]),
                Node::Split { left_buffer, right_buffer, .. } => !ib.contains(left_buffer) && !ib.contains(right_buffer),
                _ => true,
            }
        &&& forall|k1: int, k2: int|
            #![trigger self.nodes@[k1], self.nodes@[k2]]
            0 <= k1 < self.nodes@.len() && 0 <= k2 < self.nodes@.len() && k1 != k2 && self.nodes@[k1] is Input
                && self.nodes@[k2] is Input ==> self.nodes@[k1]->Input_buffer != self.nodes@[k2]->Input_buffer
    }

    /// Between `prev` and `self` nothing was sent to the buffer of an input
    /// node, and each such buffer either kept what waited in it or was
    /// emptied.
    pub open spec fn inputs_taken(&self, prev: Graph) -> bool {
        &&& self.input_bufs == prev.input_bufs
        &&& self.pipes.sent@.len() == prev.pipes.sent@.len()
        &&& forall|b: usize| #[trigger] prev.input_bufs@.contains(b) ==> self.pipes.sent@[b as int] == prev.pipes.sent@[b as int]
            && (self.pipes.pending(b) == prev.pipes.pending(b) || self.pipes.pending(b).len() == 0)
    }

    /// What a pull may change: buffer contents, dirty flags, counters and the
    /// state of nodes up to `i`; never sizes, the tracker or later nodes.
    pub open spec fn pulled(&self, prev: Graph, i: int) -> bool {
        &&& self.nodes@.len() == prev.nodes@.len()
        &&& self.pipes.buffers@.len() == prev.pipes.buffers@.len()
        &&& same_structure(self.dirty, prev.dirty)
        &&& self.dirty.wf()
        &&& forall|j: int| 0 <= j < self.dirty.nodes@.len() && #[trigger] self.dirty.nodes@[j].dirty ==> prev.dirty.nodes@[j].dirty
        &&& self.tracker == prev.tracker
        &&& self.counters.counts@.len() == prev.counters.counts@.len()
        &&& forall|j: int| i < j < self.nodes@.len() ==> #[trigger] self.nodes@[j] == prev.nodes@[j]
        &&& self.owner == prev.owner
        &&& self.hist@.len() == prev.hist@.len()
        &&& self.pulls@.len() == prev.pulls@.len()
        &&& forall|j: int| i < j < self.nodes@.len() ==> #[trigger] self.hist@[j] == prev.hist@[j]
        &&& forall|j: int| i < j < self.nodes@.len() ==> #[trigger] self.pulls@[j] == prev.pulls@[j]
    }

    /// Each node has at most one consumer, which comes after it; a node
    /// with no consumer has emitted nothing; saves and splits have no
    /// consumer; and every node owns its children.
    pub open spec fn links_ok(&self) -> bool {
        &&& forall|c: int| 0 <= c < self.nodes@.len() ==> (#[trigger] self.owner@[c] matches Owner::Node(p) ==> c < p
            < self.nodes@.len())
        &&& forall|c: int| 0 <= c < self.nodes@.len() && self.owner@[c] is Free ==> (#[trigger] self.hist@[c]).len()
            == 0
        &&& forall|c: int| 0 <= c < self.nodes@.len() && is_source(#[trigger] self.nodes@[c]) ==> self.owner@[c] is Free
        &&& forall|k: int| 0 <= k < self.nodes@.len() ==> #[trigger] owned_by(self.owner@, self.nodes@[k], k)
    }

    /// What every node has emitted is its operator applied to what its
    /// children have emitted.
    pub open spec fn sem_ok(&self) -> bool {
        forall|k: int| 0 <= k < self.nodes@.len() ==> #[trigger] sem_of(self.nodes@[k], self.hist@, self.hist@[k])
    }

    /// The links between nodes and their consumers are in order, and every
    /// node has emitted what its operator makes of its children.
    pub open spec fn coherent(&self) -> bool {
        self.links_ok() && self.sem_ok()
    }

    /// Node `i` may be pulled: its consumer is outside the graph, or is a
    /// node being pulled itself (taken out of the graph meanwhile).
    pub open spec fn pullable(&self, i: int) -> bool {
        ||| self.owner@[i] is Outside
        ||| (self.owner@[i] matches Owner::Node(p) && (p as int) < self.nodes@.len() && self.nodes@[p as int] is Empty)
    }

    /// Between `prev` and `self`, with the same consumers: pulls only grew;
    /// a node pulled no more, or with no consumer, kept its history; and any
    /// node other than `i` that was pulled has no consumer, or a consumer
    /// that is `i` or was pulled too.
    pub open spec fn pulled_by_owners(&self, prev: Graph, i: int) -> bool {
        &&& self.owner == prev.owner
        &&& self.pulls@.len() == prev.pulls@.len()
        &&& self.hist@.len() == prev.hist@.len()
        &&& forall|c: int| 0 <= c < prev.pulls@.len() ==> #[trigger] self.pulls@[c] >= prev.pulls@[c]
        &&& forall|c: int|
            0 <= c < prev.pulls@.len() && (!pulled_more(self.pulls@, prev.pulls@, c) || prev.owner@[c] is Free) ==> #[trigger] self.hist@[c]
                == prev.hist@[c]
        &&& forall|c: int|
            0 <= c < prev.pulls@.len() && c != i && #[trigger] pulled_more(self.pulls@, prev.pulls@, c) ==> (prev.owner@[c] is Free || (
            prev.owner@[c] matches Owner::Node(p) && (p == i || (p < prev.pulls@.len() && pulled_more(self.pulls@, prev.pulls@, p as int)))))
    }

    pub fn new() -> (r: Graph)
        ensures
            r.wf(),
            r.nodes@.len() == 0,
    {
        Graph {
            nodes: Vec::new(),
            pipes: Pipes::empty(),
            dirty: DirtyGraph::new(),
            tracker: ContextTracker::new(),
            counters: Counters { counts: Vec::new() },
            owner: Vec::new(),
            hist: Ghost(Seq::empty()),
            pulls: Ghost(Seq::empty()),
            input_bufs: Ghost(Set::empty()),
        }
    }

    fn take_node(&mut self, i: usize) -> (r: Node)
        requires
            i < old(self).nodes@.len(),
        ensures
            r == old(self).nodes@[i as int],
            final(self).nodes@ == old(self).nodes@.update(i as int, Node::Empty),
            final(self).pipes == old(self).pipes,
            final(self).dirty == old(self).dirty,
            final(self).tracker == old(self).tracker,
            final(self).counters == old(self).counters,
            final(self).owner == old(self).owner,
            final(self).hist == old(self).hist,
            final(self).pulls == old(self).pulls,
            final(self).input_bufs == old(self).input_bufs,
    {
        let mut n = Node::Empty;
        std::mem::swap(&mut n, &mut self.nodes[i]);
        n
    }

    fn put_node(&mut self, i: usize, n: Node)
        requires
            i < old(self).nodes@.len(),
        ensures
            final(self).nodes@ == old(self).nodes@.update(i as int, n),
            final(self).pipes == old(self).pipes,
            final(self).dirty == old(self).dirty,
            final(self).tracker == old(self).tracker,
            final(self).counters == old(self).counters,
            final(self).owner == old(self).owner,
            final(self).hist == old(self).hist,
            final(self).pulls == old(self).pulls,
            final(self).input_bufs == old(self).input_bufs,
    {
        let mut n = n;
        std::mem::swap(&mut n, &mut self.nodes[i]);
    }

    /// Takes what node `i` has to emit since it was last pulled.
    ///
    /// On success every node up to `i` keeps its shape and stays well
    /// formed, the graph stays coherent, and what is returned is appended to
    /// what node `i` has emitted.
    pub fn pull(&mut self, i: usize) -> (r: Result<Vec<Delta>, Error>)
        requires
            old(self).sizes_ok(),
            i < old(self).nodes@.len(),
            old(self).wf_upto(i as int),
            old(self).coherent(),
            old(self).inputs_ok(),
            old(self).pullable(i as int),
        ensures
            final(self).sizes_ok(),
            r is Err ==> r->Err_0 is CountOverflow,
            safe_pull(*old(self), i as int) ==> r is Ok,
            final(self).pulled(*old(self), i as int),
            r is Ok ==> final(self).wf_upto(i as int),
            r is Ok ==> forall|j: int| 0 <= j < final(self).nodes@.len() ==> same_links(#[trigger] final(self).nodes@[j], old(self).nodes@[j]),
            old(self).nodes@[i as int] is Input ==> (r matches Ok(v) && v@ == old(self).pipes.pending(
                old(self).nodes@[i as int]->Input_buffer,
            )),
            r is Ok ==> final(self).coherent(),
            r is Ok ==> final(self).inputs_ok(),
            r is Ok ==> final(self).inputs_taken(*old(self)),
            r is Ok ==> inputs_drained(*final(self), i as int),
            r is Ok ==> final(self).pulled_by_owners(*old(self), i as int),
            r is Ok ==> final(self).pulls@[i as int] == old(self).pulls@[i as int] + 1,
            r matches Ok(v) ==> final(self).hist@[i as int] == old(self).hist@[i as int] + v@,
            r is Ok ==> flags_kept(*final(self), *old(self)),
            r matches Ok(v) ==> pulled_shape(old(self).nodes@[i as int], *final(self), *old(self), v@),
        decreases i, 3int,
    {
        assert(self.node_wf(i as int));
        let input_buffer: Option<usize> = match &self.nodes[i] {
            Node::Input { buffer } => Some(*buffer),
            _ => None,
        };
        if let Some(buffer) = input_buffer {
            let ghost g0 = *self;
            let out = Receiver { id: buffer }.receive(&mut self.pipes);
            CountSender { id: i }.increment(&mut self.counters);
            proof {
                self.hist@ = self.hist@.update(i as int, g0.hist@[i as int] + out@);
                self.pulls@ = self.pulls@.update(i as int, g0.pulls@[i as int] + 1);
                self.lemma_pull_input(g0, i as int);
            }
            return Ok(out);
        }
        self.pull_other(i)
    }

    /// Pulls node `i`, which is not an input node: takes it out of the graph,
    /// pulls what it reads, computes its changes and puts it back.
    fn pull_other(&mut self, i: usize) -> (r: Result<Vec<Delta>, Error>)
        requires
            old(self).sizes_ok(),
            i < old(self).nodes@.len(),
            old(self).wf_upto(i as int),
            old(self).coherent(),
            old(self).inputs_ok(),
            old(self).pullable(i as int),
            !(old(self).nodes@[i as int] is Input),
        ensures
            final(self).sizes_ok(),
            r is Err ==> r->Err_0 is CountOverflow,
            safe_pull(*old(self), i as int) ==> r is Ok,
            final(self).pulled(*old(self), i as int),
            r is Ok ==> final(self).wf_upto(i as int),
            r is Ok ==> forall|j: int| 0 <= j < final(self).nodes@.len() ==> same_links(#[trigger] final(self).nodes@[j], old(self).nodes@[j]),
            r is Ok ==> final(self).coherent(),
            r is Ok ==> final(self).inputs_ok(),
            r is Ok ==> final(self).inputs_taken(*old(self)),
            r is Ok ==> inputs_drained(*final(self), i as int),
            r is Ok ==> final(self).pulled_by_owners(*old(self), i as int),
            r is Ok ==> final(self).pulls@[i as int] == old(self).pulls@[i as int] + 1,
            r matches Ok(v) ==> final(self).hist@[i as int] == old(self).hist@[i as int] + v@,
            r is Ok ==> flags_kept(*final(self), *old(self)),
            r matches Ok(v) ==> pulled_shape(old(self).nodes@[i as int], *final(self), *old(self), v@),
        decreases i, 2int,
    {
        assert(self.node_wf(i as int));
        let ghost g0 = *self;
        proof {
            assert(owned_by(g0.owner@, g0.nodes@[i as int], i as int));
            assert(sem_of(g0.nodes@[i as int], g0.hist@, g0.hist@[i as int]));
        }
        let node = self.take_node(i);
        proof {
            self.lemma_wf_after_take(g0, i as int);
            self.lemma_coherent_after_take(g0, i as int);
            self.lemma_inputs_after_take(g0, i as int);
        }
        let ghost node0 = node;
        let ghost t0 = *self;
        proof {
            assert forall|j: int| 0 <= j < i as int implies #[trigger] same_links(t0.nodes@[j], g0.nodes@[j]) by {
                lemma_same_links_refl(g0.nodes@[j]);
            }
            lemma_same_links_refl(node);
            lemma_node_safe_stable(g0, t0, node, node, i as int);
        }
        proof {
            assert(self.node_ok(node, i as int)) by {
                match node {
                    Node::Read { from, .. } => {
                        assert(self.nodes@[from as int] == g0.nodes@[from as int]);
                    },
                    _ => {},
                }
            }
            assert(match #[trigger] g0.nodes@[i as int] {
                Node::Read { buffer, .. } => !g0.input_bufs@.contains(buffer),
                _ => true,
            });
            if is_source(g0.nodes@[i as int]) {
                assert(g0.owner@[i as int] is Free);
            }
        }
        let (n, out) = self.pull_kind(i, node)?;
        let ghost g1 = *self;
        proof {
            assert forall|k: int| 0 <= k < t0.nodes@.len() && #[trigger] flag_of(t0.nodes@[k]) >= 0 implies flag_of(g0.nodes@[k])
                == flag_of(t0.nodes@[k]) by {
                assert(k != i);
            }
            lemma_flags_kept_trans(g0, t0, g1);
        }
        self.put_node(i, n);
        CountSender { id: i }.increment(&mut self.counters);
        proof {
            self.hist@ = self.hist@.update(i as int, g1.hist@[i as int] + out@);
            self.pulls@ = self.pulls@.update(i as int, g1.pulls@[i as int] + 1);
            self.lemma_put_back(g0, t0, g1, i as int);
        }
        Ok(out)
    }

    /// Pulls node `i`, taken out of the graph as `node`, which is not an
    /// input node: pulls what it reads and computes its changes.
    fn pull_kind(&mut self, i: usize, node: Node) -> (r: Result<(Node, Vec<Delta>), Error>)
        requires
            old(self).sizes_ok(),
            i < old(self).nodes@.len(),
            old(self).nodes@[i as int] is Empty,
            old(self).wf_upto(i as int),
            old(self).node_ok(node, i as int),
            !(node is Input),
            !is_source(node),
            old(self).coherent(),
            old(self).inputs_ok(),
            owned_by(old(self).owner@, node, i as int),
            sem_of(node, old(self).hist@, old(self).hist@[i as int]),
            node matches Node::Read { buffer, .. } ==> !old(self).input_bufs@.contains(buffer),
        ensures
            final(self).sizes_ok(),
            r is Err ==> r->Err_0 is CountOverflow,
            node_safe(*old(self), node, i as int) ==> r is Ok,
            final(self).pulled(*old(self), i as int - 1),
            r is Ok ==> final(self).wf_upto(i as int - 1),
            r is Ok ==> forall|j: int| 0 <= j < final(self).nodes@.len() ==> same_links(#[trigger] final(self).nodes@[j], old(self).nodes@[j]),
            r is Ok ==> final(self).inputs_ok(),
            r is Ok ==> final(self).inputs_taken(*old(self)),
            r matches Ok((n, _)) ==> same_shape(n, node),
            r is Ok ==> final(self).coherent(),
            r is Ok ==> final(self).pulled_by_owners(*old(self), i as int),
            r matches Ok((n, out)) ==> sem_of(n, final(self).hist@, old(self).hist@[i as int] + out@),
            r is Ok ==> forall|c: int| #[trigger] is_child(node, c) ==> inputs_drained(*final(self), c),
            r is Ok ==> flags_kept(*final(self), *old(self)),
            r matches Ok((_, out)) ==> pulled_shape(node, *final(self), *old(self), out@),
        decreases i, 1int,
    {
        let ghost t0 = *self;
        proof {
            assert forall|j: int| 0 <= j < self.nodes@.len() implies same_links(#[trigger] self.nodes@[j], t0.nodes@[j]) by {
                lemma_same_links_refl(t0.nodes@[j]);
            }
        }
        match node {
            Node::Empty => Ok((Node::Empty, Vec::new())),
            Node::Save { src, readers, dirty } => Ok((Node::Save { src, readers, dirty }, Vec::new())),
            Node::Split { src, left_buffer, right_buffer, dirty } => Ok(
                (Node::Split { src, left_buffer, right_buffer, dirty }, Vec::new()),
            ),
            Node::Input { buffer } => Ok((Node::Input { buffer }, Vec::new())),
            Node::Read { from, buffer } => {
                let ghost b0 = *self;
                self.propagate(from)?;
                proof {
                    self.lemma_wf_after_pull(b0, from as int, i as int - 1);
                    self.lemma_pbo_child(b0, from as int, i as int);
                }
                let ghost b1 = *self;
                let out = Receiver { id: buffer }.receive(&mut self.pipes);
                proof {
                    self.lemma_wf_after_pull(b1, -1, i as int - 1);
                    self.lemma_inputs_pipes_frame(b1);
                    self.lemma_inputs_taken_trans(b0, b1);
                    assert forall|j: int| 0 <= j < self.nodes@.len() implies same_links(#[trigger] self.nodes@[j], b0.nodes@[j]) by {
                        assert(self.nodes@[j] == b1.nodes@[j]);
                    }
                }
                Ok((Node::Read { from, buffer }, out))
            },
            Node::Triangles { first, second, third, state } => {
                let r = self.pull_triangles(i, first, second, third, state);
                proof {
                    if r is Ok {
                        assert forall|c: int| #[trigger] is_child(node, c) implies inputs_drained(*self, c) by {}
                    }
                }
                r
            },
            Node::Concat { left, right } => self.pull_binary(i, Node::Concat { left, right }),
            Node::Join { left, right, state } => self.pull_binary(i, Node::Join { left, right, state }),
            Node::AntiJoin { left, right, state } => self.pull_binary(i, Node::AntiJoin { left, right, state }),
            Node::FlatMap { src, f } => self.pull_unary(i, Node::FlatMap { src, f }),
            Node::Consolidate { src } => self.pull_unary(i, Node::Consolidate { src }),
            Node::Reduce { src, state } => self.pull_unary(i, Node::Reduce { src, state }),
            Node::Dynamic { src } => self.pull_unary(i, Node::Dynamic { src }),
        }
    }

    /// Putting node `i` back after it was pulled, with its changes appended
    /// to what it emitted, leaves the graph as a pull of `i` promises.
    proof fn lemma_put_back(&self, g0: Graph, t0: Graph, g1: Graph, i: int)
        requires
            g0.sizes_ok(),
            0 <= i < g0.nodes@.len(),
            g0.wf_upto(i),
            g0.coherent(),
            g0.inputs_ok(),
            g0.pullable(i),
            !(g0.nodes@[i] is Input),
            t0.nodes@ == g0.nodes@.update(i, Node::Empty),
            t0.pipes == g0.pipes,
            t0.dirty == g0.dirty,
            t0.tracker == g0.tracker,
            t0.counters == g0.counters,
            t0.owner == g0.owner,
            t0.hist == g0.hist,
            t0.pulls == g0.pulls,
            t0.input_bufs == g0.input_bufs,
            g1.sizes_ok(),
            g1.pulled(t0, i - 1),
            g1.wf_upto(i - 1),
            forall|j: int| 0 <= j < g1.nodes@.len() ==> #[trigger] same_links(g1.nodes@[j], t0.nodes@[j]),
            g1.inputs_ok(),
            g1.inputs_taken(t0),
            same_shape(self.nodes@[i], g0.nodes@[i]),
            g1.coherent(),
            g1.pulled_by_owners(t0, i),
            sem_of(self.nodes@[i], g1.hist@, self.hist@[i]),
            forall|c: int| #[trigger] is_child(g0.nodes@[i], c) ==> inputs_drained(g1, c),
            self.nodes@ == g1.nodes@.update(i, self.nodes@[i]),
            self.pipes == g1.pipes,
            self.dirty == g1.dirty,
            self.tracker == g1.tracker,
            self.counters.counts@.len() == g1.counters.counts@.len(),
            self.owner == g1.owner,
            self.input_bufs == g1.input_bufs,
            self.hist@ == g1.hist@.update(i, self.hist@[i]),
            self.pulls@ == g1.pulls@.update(i, g1.pulls@[i] + 1),
        ensures
            self.sizes_ok(),
            self.pulled(g0, i),
            self.wf_upto(i),
            forall|j: int| 0 <= j < self.nodes@.len() ==> #[trigger] same_links(self.nodes@[j], g0.nodes@[j]),
            self.coherent(),
            self.inputs_ok(),
            self.inputs_taken(g0),
            inputs_drained(*self, i),
            self.pulled_by_owners(g0, i),
    {
        assert(g0.node_wf(i));
        assert(g1.pulled(g0, i));
        assert forall|j: int| 0 <= j < i implies same_kind(#[trigger] g1.nodes@[j], g0.nodes@[j]) by {
            assert(same_links(g1.nodes@[j], t0.nodes@[j]));
        }
        assert forall|j: int| 0 <= j < i implies #[trigger] g1.node_wf(j) by {}
        self.lemma_wf_after_put(g0, g1, i);
        assert(g1.pulled_by_owners(g0, i));
        self.lemma_coherent_after_put(g0, g1, i);
        lemma_shape_links(self.nodes@[i], g0.nodes@[i]);
        self.lemma_inputs_after_put(g0, g1, i);
        assert forall|j: int| 0 <= j < self.nodes@.len() implies #[trigger] same_links(self.nodes@[j], g0.nodes@[j]) by {
            if j != i {
                assert(self.nodes@[j] == g1.nodes@[j]);
                assert(same_links(g1.nodes@[j], t0.nodes@[j]));
                assert(t0.nodes@[j] == g0.nodes@[j]);
            }
        }
        Self::lemma_same_shape_children(self.nodes@[i], g0.nodes@[i]);
        g0.lemma_children_before(g0.nodes@[i], i);
        assert forall|c: int| #[trigger] is_child(self.nodes@[i], c) implies 0 <= c < i && inputs_drained(g1, c) by {
            assert(is_child(g0.nodes@[i], c));
        }
        self.lemma_drained_after_put(g1, i);
    }

    /// Pulling an input node takes what waits in its buffer and appends it
    /// to what the node has emitted, keeping the graph coherent.
    proof fn lemma_pull_input(&self, g0: Graph, i: int)
        requires
            g0.sizes_ok(),
            0 <= i < g0.nodes@.len(),
            g0.wf_upto(i),
            g0.coherent(),
            g0.inputs_ok(),
            g0.pullable(i),
            g0.nodes@[i] is Input,
            self.nodes == g0.nodes,
            self.owner == g0.owner,
            self.tracker == g0.tracker,
            self.dirty == g0.dirty,
            self.input_bufs == g0.input_bufs,
            self.counters.counts@.len() == g0.counters.counts@.len(),
            self.pipes.buffers@.len() == g0.pipes.buffers@.len(),
            self.pipes.sent == g0.pipes.sent,
            self.pipes.pending(g0.nodes@[i]->Input_buffer) == Seq::<Delta>::empty(),
            forall|b: usize|
                b != g0.nodes@[i]->Input_buffer && b < g0.pipes.buffers@.len() ==> #[trigger] self.pipes.pending(b)
                    == g0.pipes.pending(b),
            self.hist@ == g0.hist@.update(i, g0.hist@[i] + g0.pipes.pending(g0.nodes@[i]->Input_buffer)),
            self.pulls@ == g0.pulls@.update(i, g0.pulls@[i] + 1),
        ensures
            self.sizes_ok(),
            self.wf_upto(i),
            self.coherent(),
            self.inputs_ok(),
            self.pulled(g0, i),
            self.pulled_by_owners(g0, i),
            self.inputs_taken(g0),
            inputs_drained(*self, i),
            forall|j: int| 0 <= j < self.nodes@.len() ==> same_links(#[trigger] self.nodes@[j], g0.nodes@[j]),
    {
        let b = g0.nodes@[i]->Input_buffer;
        assert forall|j: int| 0 <= j < self.nodes@.len() implies same_links(#[trigger] self.nodes@[j], g0.nodes@[j]) by {
            lemma_same_links_refl(g0.nodes@[j]);
        }
        assert forall|j: int| 0 <= j <= i && j < self.nodes@.len() implies #[trigger] self.node_wf(j) by {
            assert(g0.node_wf(j));
        }
        assert forall|c: int| 0 <= c < self.nodes@.len() && self.owner@[c] is Free implies (#[trigger] self.hist@[c]).len()
            == 0 by {
            assert(g0.owner@[c] is Free);
        }
        assert forall|c: int| 0 <= c < self.nodes@.len() && is_source(#[trigger] self.nodes@[c]) implies self.owner@[c] is Free by {
            assert(is_source(g0.nodes@[c]));
        }
        assert forall|k: int| 0 <= k < self.nodes@.len() implies #[trigger] owned_by(self.owner@, self.nodes@[k], k) by {
            assert(owned_by(g0.owner@, g0.nodes@[k], k));
        }
        assert forall|c: int| 0 <= c < self.nodes@.len() implies (#[trigger] self.owner@[c] matches Owner::Node(p) ==> c
            < p < self.nodes@.len()) by {
            assert(g0.owner@[c] matches Owner::Node(p) ==> c < p < g0.nodes@.len());
        }
        assert forall|k: int| 0 <= k < self.nodes@.len() implies #[trigger] sem_of(self.nodes@[k], self.hist@, self.hist@[k]) by {
            if k != i {
                let nk = g0.nodes@[k];
                assert(sem_of(nk, g0.hist@, g0.hist@[k]));
                assert(owned_by(g0.owner@, nk, k));
                if is_child(nk, i) {
                    assert(g0.owner@[i] matches Owner::Node(p) && p as int == k);
                    assert(g0.pullable(i));
                    assert(g0.nodes@[k] is Empty);
                    assert(false);
                }
                assert forall|c: int| #[trigger] is_child(nk, c) implies g0.hist@[c] == self.hist@[c] by {
                    assert(0 <= c < k);
                }
                lemma_sem_frame(nk, g0.hist@, self.hist@, g0.hist@[k]);
            }
        }
        assert forall|k: int| 0 <= k < self.nodes@.len() implies match #[trigger] self.nodes@[k] {
            Node::Input { buffer } => self.input_bufs@.contains(buffer) && self.hist@[k] + self.pipes.pending(buffer)
                == self.pipes.sent@[buffer as int],
            Node::Read { buffer, .. } => !self.input_bufs@.contains(buffer),
            Node::Save { readers, .. } => forall|j: int| 0 <= j < readers@.len() ==> !self.input_bufs@.contains(#[trigger] readers@[j]),
            Node::Split { left_buffer, right_buffer, .. } => !self.input_bufs@.contains(left_buffer) && !self.input_bufs@.contains(right_buffer),
            _ => true,
        } by {
            assert(g0.nodes@[k] == self.nodes@[k]);
            if k == i {
                assert(self.hist@[i] + self.pipes.pending(b) =~= g0.hist@[i] + g0.pipes.pending(b));
            } else if self.nodes@[k] is Input {
                let bk = self.nodes@[k]->Input_buffer;
                assert(bk != b);
                assert(g0.node_wf(k) || k > i);
                assert(g0.input_bufs@.contains(bk));
                assert(bk < g0.pipes.buffers@.len());
                assert(self.pipes.pending(bk) == g0.pipes.pending(bk));
            }
        }
        assert forall|c: int| 0 <= c < g0.pulls@.len() implies #[trigger] self.pulls@[c] >= g0.pulls@[c] by {}
        assert forall|bb: usize| #[trigger] g0.input_bufs@.contains(bb) implies self.pipes.sent@[bb as int]
            == g0.pipes.sent@[bb as int] && (self.pipes.pending(bb) == g0.pipes.pending(bb) || self.pipes.pending(bb).len()
            == 0) by {
            if bb != b {
                assert(bb < g0.pipes.buffers@.len());
            }
        }
    }

    /// Sends to or receives from buffers that no input node reads keep the
    /// invariant of input nodes.
    proof fn lemma_inputs_pipes_frame(&self, prev: Graph)
        requires
            prev.inputs_ok(),
            self.nodes == prev.nodes,
            self.hist == prev.hist,
            self.input_bufs == prev.input_bufs,
            self.pipes.buffers@.len() >= prev.pipes.buffers@.len(),
            self.pipes.sent@.len() == self.pipes.buffers@.len(),
            forall|b: usize| #[trigger] prev.input_bufs@.contains(b) ==> self.pipes.pending(b) == prev.pipes.pending(b)
                && self.pipes.sent@[b as int] == prev.pipes.sent@[b as int],
        ensures
            self.inputs_ok(),
            self.pipes.sent@.len() == prev.pipes.sent@.len() ==> self.inputs_taken(prev),
    {
        assert forall|k: int| 0 <= k < self.nodes@.len() implies match #[trigger] self.nodes@[k] {
            Node::Input { buffer } => self.input_bufs@.contains(buffer) && self.hist@[k] + self.pipes.pending(buffer)
                == self.pipes.sent@[buffer as int],
            Node::Read { buffer, .. } => !self.input_bufs@.contains(buffer),
            Node::Save { readers, .. } => forall|j: int| 0 <= j < readers@.len() ==> !self.input_bufs@.contains(#[trigger] readers@[j]),
            Node::Split { left_buffer, right_buffer, .. } => !self.input_bufs@.contains(left_buffer) && !self.input_bufs@.contains(right_buffer),
            _ => true,
        } by {
            assert(prev.nodes@[k] == self.nodes@[k]);
        }
    }

    /// Taking a node out keeps the invariant of input nodes.
    proof fn lemma_inputs_after_take(&self, g0: Graph, i: int)
        requires
            g0.inputs_ok(),
            0 <= i < g0.nodes@.len(),
            self.nodes@ == g0.nodes@.update(i, Node::Empty),
            self.hist == g0.hist,
            self.pipes == g0.pipes,
            self.input_bufs == g0.input_bufs,
        ensures
            self.inputs_ok(),
    {
        assert forall|k: int| 0 <= k < self.nodes@.len() implies match #[trigger] self.nodes@[k] {
            Node::Input { buffer } => self.input_bufs@.contains(buffer) && self.hist@[k] + self.pipes.pending(buffer)
                == self.pipes.sent@[buffer as int],
            Node::Read { buffer, .. } => !self.input_bufs@.contains(buffer),
            Node::Save { readers, .. } => forall|j: int| 0 <= j < readers@.len() ==> !self.input_bufs@.contains(#[trigger] readers@[j]),
            Node::Split { left_buffer, right_buffer, .. } => !self.input_bufs@.contains(left_buffer) && !self.input_bufs@.contains(right_buffer),
            _ => true,
        } by {
            if k != i {
                assert(g0.nodes@[k] == self.nodes@[k]);
            }
        }
        assert forall|k1: int, k2: int|
            #![trigger self.nodes@[k1], self.nodes@[k2]]
            0 <= k1 < self.nodes@.len() && 0 <= k2 < self.nodes@.len() && k1 != k2 && self.nodes@[k1] is Input
                && self.nodes@[k2] is Input implies self.nodes@[k1]->Input_buffer != self.nodes@[k2]->Input_buffer by {
            assert(g0.nodes@[k1] == self.nodes@[k1] && g0.nodes@[k2] == self.nodes@[k2]);
        }
    }

    /// Putting back a node other than an input, with the same links, keeps
    /// the invariant of input nodes.
    proof fn lemma_inputs_after_put(&self, g0: Graph, g1: Graph, i: int)
        requires
            g0.inputs_ok(),
            g1.inputs_ok(),
            0 <= i < g0.nodes@.len(),
            !(g0.nodes@[i] is Input),
            g1.nodes@[i] is Empty,
            g1.nodes@.len() == g0.nodes@.len(),
            g1.hist@.len() == g1.nodes@.len(),
            same_links(self.nodes@[i], g0.nodes@[i]),
            self.nodes@ == g1.nodes@.update(i, self.nodes@[i]),
            self.hist@ == g1.hist@.update(i, self.hist@[i]),
            self.pipes == g1.pipes,
            self.input_bufs == g1.input_bufs,
            g1.input_bufs == g0.input_bufs,
        ensures
            self.inputs_ok(),
    {
        let n = self.nodes@[i];
        assert forall|k: int| 0 <= k < self.nodes@.len() implies match #[trigger] self.nodes@[k] {
            Node::Input { buffer } => self.input_bufs@.contains(buffer) && self.hist@[k] + self.pipes.pending(buffer)
                == self.pipes.sent@[buffer as int],
            Node::Read { buffer, .. } => !self.input_bufs@.contains(buffer),
            Node::Save { readers, .. } => forall|j: int| 0 <= j < readers@.len() ==> !self.input_bufs@.contains(#[trigger] readers@[j]),
            Node::Split { left_buffer, right_buffer, .. } => !self.input_bufs@.contains(left_buffer) && !self.input_bufs@.contains(right_buffer),
            _ => true,
        } by {
            if k != i {
                assert(g1.nodes@[k] == self.nodes@[k]);
            } else {
                let n0 = g0.nodes@[i];
                assert(match n0 {
                    Node::Read { buffer, .. } => !g0.input_bufs@.contains(buffer),
                    Node::Save { readers, .. } => forall|j: int| 0 <= j < readers@.len() ==> !g0.input_bufs@.contains(#[trigger] readers@[j]),
                    Node::Split { left_buffer, right_buffer, .. } => !g0.input_bufs@.contains(left_buffer) && !g0.input_bufs@.contains(right_buffer),
                    _ => true,
                });
                match n0 {
                    Node::Read { buffer, .. } => {
                        assert(n->Read_buffer == buffer);
                    },
                    Node::Save { readers, .. } => {
                        assert(n->Save_readers == readers);
                    },
                    Node::Split { left_buffer, right_buffer, .. } => {
                        assert(n->Split_left_buffer == left_buffer && n->Split_right_buffer == right_buffer);
                    },
                    _ => {},
                }
            }
        }
        assert forall|k1: int, k2: int|
            #![trigger self.nodes@[k1], self.nodes@[k2]]
            0 <= k1 < self.nodes@.len() && 0 <= k2 < self.nodes@.len() && k1 != k2 && self.nodes@[k1] is Input
                && self.nodes@[k2] is Input implies self.nodes@[k1]->Input_buffer != self.nodes@[k2]->Input_buffer by {
            assert(g1.nodes@[k1] == self.nodes@[k1] && g1.nodes@[k2] == self.nodes@[k2]);
        }
    }

    /// What was taken of the buffers of input nodes from `a` to `b` and
    /// from `b` to `self` was taken from `a` to `self`.
    proof fn lemma_inputs_taken_trans(&self, a: Graph, b: Graph)
        requires
            b.inputs_taken(a),
            self.inputs_taken(b),
        ensures
            self.inputs_taken(a),
    {
        assert forall|x: usize| #[trigger] a.input_bufs@.contains(x) implies self.pipes.sent@[x as int] == a.pipes.sent@[x as int]
            && (self.pipes.pending(x) == a.pipes.pending(x) || self.pipes.pending(x).len() == 0) by {
            assert(b.input_bufs@.contains(x));
        }
    }

    /// After node `i` is put back with the links it had, what input nodes
    /// under it have drained stays drained.
    proof fn lemma_drained_after_put(&self, g1: Graph, i: int)
        requires
            0 <= i < g1.nodes@.len(),
            self.nodes@ == g1.nodes@.update(i, self.nodes@[i]),
            self.pipes == g1.pipes,
            !(self.nodes@[i] is Input),
            forall|c: int| #[trigger] is_child(self.nodes@[i], c) ==> 0 <= c < i && inputs_drained(g1, c),
        ensures
            inputs_drained(*self, i),
    {
        let n = self.nodes@[i];
        assert forall|c: int| #[trigger] is_child(n, c) implies inputs_drained(*self, c) by {
            assert forall|j: int| 0 <= j <= c && j < g1.nodes@.len() implies #[trigger] same_links(self.nodes@[j], g1.nodes@[j]) by {
                lemma_same_links_refl(g1.nodes@[j]);
            }
            lemma_drained_keep(g1, *self, c);
        }
        assert(0 <= i < self.nodes@.len());
        match n {
            Node::FlatMap { src, .. } => {
                assert(is_child(n, src as int));
                assert(inputs_drained(*self, src as int));
            },
            Node::Consolidate { src } => {
                assert(is_child(n, src as int));
                assert(inputs_drained(*self, src as int));
            },
            Node::Reduce { src, .. } => {
                assert(is_child(n, src as int));
                assert(inputs_drained(*self, src as int));
            },
            Node::Dynamic { src } => {
                assert(is_child(n, src as int));
                assert(inputs_drained(*self, src as int));
            },
            Node::Concat { left, right } => {
                assert(is_child(n, left as int) && is_child(n, right as int));
                assert(inputs_drained(*self, left as int) && inputs_drained(*self, right as int));
            },
            Node::Join { left, right, .. } => {
                assert(is_child(n, left as int) && is_child(n, right as int));
                assert(inputs_drained(*self, left as int) && inputs_drained(*self, right as int));
            },
            Node::AntiJoin { left, right, .. } => {
                assert(is_child(n, left as int) && is_child(n, right as int));
                assert(inputs_drained(*self, left as int) && inputs_drained(*self, right as int));
            },
            Node::Triangles { first, second, third, .. } => {
                assert(is_child(n, first as int) && is_child(n, second as int) && is_child(n, third as int));
                assert(inputs_drained(*self, first as int) && inputs_drained(*self, second as int) && inputs_drained(
                    *self,
                    third as int,
                ));
            },
            _ => {},
        }
    }

    /// What input nodes under `k` had drained stays drained after a pull
    /// that kept the links of every node.
    proof fn lemma_still_drained(&self, prev: Graph, k: int)
        requires
            prev.inputs_ok(),
            self.inputs_taken(prev),
            inputs_drained(prev, k),
            self.nodes@.len() == prev.nodes@.len(),
            forall|j: int| 0 <= j < self.nodes@.len() ==> #[trigger] same_links(self.nodes@[j], prev.nodes@[j]),
        ensures
            inputs_drained(*self, k),
    {
        assert forall|j: int|
            0 <= j <= k && j < prev.nodes@.len() && (#[trigger] prev.nodes@[j]) is Input implies self.pipes.pending(
                prev.nodes@[j]->Input_buffer,
            ) == prev.pipes.pending(prev.nodes@[j]->Input_buffer) || self.pipes.pending(prev.nodes@[j]->Input_buffer).len()
                == 0 by {
            assert(prev.input_bufs@.contains(prev.nodes@[j]->Input_buffer));
        }
        lemma_drained_keep(prev, *self, k);
    }

    /// Pulls a node with one input: a flat map, consolidate, reduce or dynamic.
    fn pull_unary(&mut self, i: usize, node: Node) -> (r: Result<(Node, Vec<Delta>), Error>)
        requires
            old(self).sizes_ok(),
            i < old(self).nodes@.len(),
            old(self).nodes@[i as int] is Empty,
            old(self).wf_upto(i as int),
            old(self).node_ok(node, i as int),
            node is FlatMap || node is Consolidate || node is Reduce || node is Dynamic,
            old(self).coherent(),
            old(self).inputs_ok(),
            owned_by(old(self).owner@, node, i as int),
            sem_of(node, old(self).hist@, old(self).hist@[i as int]),
        ensures
            final(self).sizes_ok(),
            r is Err ==> r->Err_0 is CountOverflow,
            node_safe(*old(self), node, i as int) ==> r is Ok,
            final(self).pulled(*old(self), i as int - 1),
            r is Ok ==> final(self).wf_upto(i as int - 1),
            r is Ok ==> forall|j: int| 0 <= j < final(self).nodes@.len() ==> same_links(#[trigger] final(self).nodes@[j], old(self).nodes@[j]),
            r is Ok ==> final(self).inputs_ok(),
            r is Ok ==> final(self).inputs_taken(*old(self)),
            r matches Ok((n, _)) ==> same_shape(n, node),
            r is Ok ==> final(self).coherent(),
            r is Ok ==> final(self).pulled_by_owners(*old(self), i as int),
            r matches Ok((n, out)) ==> sem_of(n, final(self).hist@, old(self).hist@[i as int] + out@),
            r is Ok ==> forall|c: int| #[trigger] is_child(node, c) ==> inputs_drained(*final(self), c),
            r is Ok ==> flags_kept(*final(self), *old(self)),
            r matches Ok((_, out)) ==> pulled_shape(node, *final(self), *old(self), out@),
        decreases i, 0int,
    {
        let ghost b0 = *self;
        let ghost hi = b0.hist@[i as int];
        match node {
            Node::FlatMap { src, f } => {
                assert(is_child(node, src as int));
                let input = self.pull(src)?;
                proof {
                    self.lemma_wf_after_pull(b0, src as int, i as int - 1);
                    self.lemma_pbo_child(b0, src as int, i as int);
                }
                let out = match expand_deltas(&f, &input) {
                    Err(e) => {
                        return Err(overflow_error(e));
                    },
                    Ok(out) => out,
                };
                proof {
                    lemma_expand_all_concat(f, b0.hist@[src as int], input@);
                }
                Ok((Node::FlatMap { src, f }, out))
            },
            Node::Consolidate { src } => {
                assert(is_child(node, src as int));
                let input = self.pull(src)?;
                proof {
                    self.lemma_wf_after_pull(b0, src as int, i as int - 1);
                    self.lemma_pbo_child(b0, src as int, i as int);
                }
                let m = match consolidate_deltas(&input) {
                    Err(e) => {
                        return Err(overflow_error(e));
                    },
                    Ok(m) => m,
                };
                proof {
                    assert forall|d: Datum| #[trigger] count_in(hi + m.entries@, d) == count_in(self.hist@[src as int], d) by {
                        lemma_count_concat(hi, m.entries@, d);
                        lemma_count_concat(b0.hist@[src as int], input@, d);
                        assert(m.count(d) == count_in(input@, d));
                    }
                    assert(emitted(*self, b0, src as int) =~= input@);
                    assert(consolidated(m.entries@));
                    assert forall|d: Datum| #[trigger] count_in(m.entries@, d) == count_in(emitted(*self, b0, src as int), d) by {
                        assert(m.count(d) == count_in(input@, d));
                    }
                }
                Ok((Node::Consolidate { src }, m.entries))
            },
            Node::Reduce { src, state } => {
                assert(is_child(node, src as int));
                let mut state = state;
                let ghost s0 = state;
                let input = self.pull(src)?;
                proof {
                    self.lemma_wf_after_pull(b0, src as int, i as int - 1);
                    self.lemma_pbo_child(b0, src as int, i as int);
                }
                let out = match state.step(&input) {
                    Err(e) => {
                        return Err(overflow_error(e));
                    },
                    Ok(out) => out,
                };
                proof {
                    assert forall|p: Datum| #[trigger] state.in_map.count(p) == count_in(self.hist@[src as int], p) by {
                        lemma_count_concat(b0.hist@[src as int], input@, p);
                        assert(s0.in_map.count(p) == count_in(b0.hist@[src as int], p));
                    }
                    assert forall|d: Datum| #[trigger] count_in(hi + out@, d) == reduce_value(state.out_map, d) by {
                        lemma_count_concat(hi, out@, d);
                        assert(count_in(hi, d) == reduce_value(s0.out_map, d));
                    }
                }
                Ok((Node::Reduce { src, state }, out))
            },
            Node::Dynamic { src } => {
                assert(is_child(node, src as int));
                let out = self.pull(src)?;
                proof {
                    self.lemma_wf_after_pull(b0, src as int, i as int - 1);
                    self.lemma_pbo_child(b0, src as int, i as int);
                }
                Ok((Node::Dynamic { src }, out))
            },
            _ => Ok((Node::Empty, Vec::new())),
        }
    }

    /// Pulls a node with two inputs: a concat, join or antijoin.
    fn pull_binary(&mut self, i: usize, node: Node) -> (r: Result<(Node, Vec<Delta>), Error>)
        requires
            old(self).sizes_ok(),
            i < old(self).nodes@.len(),
            old(self).nodes@[i as int] is Empty,
            old(self).wf_upto(i as int),
            old(self).node_ok(node, i as int),
            node is Concat || node is Join || node is AntiJoin,
            old(self).coherent(),
            old(self).inputs_ok(),
            owned_by(old(self).owner@, node, i as int),
            sem_of(node, old(self).hist@, old(self).hist@[i as int]),
        ensures
            final(self).sizes_ok(),
            r is Err ==> r->Err_0 is CountOverflow,
            node_safe(*old(self), node, i as int) ==> r is Ok,
            final(self).pulled(*old(self), i as int - 1),
            r is Ok ==> final(self).wf_upto(i as int - 1),
            r is Ok ==> forall|j: int| 0 <= j < final(self).nodes@.len() ==> same_links(#[trigger] final(self).nodes@[j], old(self).nodes@[j]),
            r is Ok ==> final(self).inputs_ok(),
            r is Ok ==> final(self).inputs_taken(*old(self)),
            r matches Ok((n, _)) ==> same_shape(n, node),
            r is Ok ==> final(self).coherent(),
            r is Ok ==> final(self).pulled_by_owners(*old(self), i as int),
            r matches Ok((n, out)) ==> sem_of(n, final(self).hist@, old(self).hist@[i as int] + out@),
            r is Ok ==> forall|c: int| #[trigger] is_child(node, c) ==> inputs_drained(*final(self), c),
            r is Ok ==> flags_kept(*final(self), *old(self)),
            r matches Ok((_, out)) ==> pulled_shape(node, *final(self), *old(self), out@),
        decreases i, 0int,
    {
        let (left, right) = match &node {
            Node::Concat { left, right } => (*left, *right),
            Node::Join { left, right, .. } => (*left, *right),
            Node::AntiJoin { left, right, .. } => (*left, *right),
            _ => (0, 0),
        };
        assert(is_child(node, left as int) && is_child(node, right as int) && left != right);
        let ghost b0 = *self;
        let ghost hi = b0.hist@[i as int];
        let mut l = self.pull(left)?;
        proof {
            self.lemma_wf_after_pull(b0, left as int, i as int - 1);
            self.lemma_pbo_child(b0, left as int, i as int);
        }
        let ghost b1 = *self;
        proof {
            lemma_node_safe_stable(b0, b1, b0.nodes@[right as int], b1.nodes@[right as int], right as int);
        }
        let mut r = self.pull(right)?;
        proof {
            self.lemma_wf_after_pull(b1, right as int, i as int - 1);
            self.lemma_pbo_child(b1, right as int, i as int);
            self.lemma_pbo_trans(b0, b1, i as int);
            self.lemma_unpulled(b1, right as int, left as int);
            lemma_links_trans_all(b0, b1, *self);
            self.lemma_inputs_taken_trans(b0, b1);
            self.lemma_still_drained(b1, left as int);
        }
        let ghost hl = self.hist@[left as int];
        let ghost hr = self.hist@[right as int];
        proof {
            assert(hl == b0.hist@[left as int] + l@);
            assert(hr == b0.hist@[right as int] + r@);
        }
        match node {
            Node::Concat { left, right } => {
                let ghost l0 = l@;
                let ghost r0 = r@;
                l.append(&mut r);
                proof {
                    assert forall|d: Datum| #[trigger] count_in(hi + l@, d) == count_in(hl, d) + count_in(hr, d) by {
                        lemma_count_concat(hi, l@, d);
                        assert(l@ == l0 + r0);
                        lemma_count_concat(l0, r0, d);
                        lemma_count_concat(b0.hist@[left as int], l0, d);
                        lemma_count_concat(b0.hist@[right as int], r0, d);
                    }
                    assert(emitted(*self, b0, left as int) =~= l0);
                    assert(emitted(*self, b0, right as int) =~= r0);
                }
                Ok((Node::Concat { left, right }, l))
            },
            Node::Join { left, right, state } => {
                let mut state = state;
                let ghost s0 = state;
                let out = match state.step(&l, &r) {
                    Err(e) => {
                        return Err(overflow_error(e));
                    },
                    Ok(out) => out,
                };
                proof {
                    assert forall|p: Datum| #[trigger] state.left_map.count(p) == count_in(hl, p) by {
                        lemma_count_concat(b0.hist@[left as int], l@, p);
                        assert(s0.left_map.count(p) == count_in(b0.hist@[left as int], p));
                    }
                    assert forall|p: Datum| #[trigger] state.right_map.count(p) == count_in(hr, p) by {
                        lemma_count_concat(b0.hist@[right as int], r@, p);
                        assert(s0.right_map.count(p) == count_in(b0.hist@[right as int], p));
                    }
                    assert forall|d: Datum| #[trigger] count_in(hi + out@, d) == join_product(
                        state.left_map,
                        state.right_map,
                        d,
                    ) by {
                        lemma_count_concat(hi, out@, d);
                        assert(count_in(hi, d) == join_product(s0.left_map, s0.right_map, d));
                    }
                }
                Ok((Node::Join { left, right, state }, out))
            },
            Node::AntiJoin { left, right, state } => {
                let mut state = state;
                let ghost s0 = state;
                let out = match state.step(&l, &r) {
                    Err(e) => {
                        return Err(overflow_error(e));
                    },
                    Ok(out) => out,
                };
                proof {
                    assert forall|p: Datum| #[trigger] state.left_map.count(p) == count_in(hl, p) by {
                        lemma_count_concat(b0.hist@[left as int], l@, p);
                        assert(s0.left_map.count(p) == count_in(b0.hist@[left as int], p));
                    }
                    assert forall|p: Datum| #[trigger] state.right_map.count(p) == count_in(hr, p) by {
                        lemma_count_concat(b0.hist@[right as int], r@, p);
                        assert(s0.right_map.count(p) == count_in(b0.hist@[right as int], p));
                    }
                    assert forall|d: Datum| #[trigger] count_in(hi + out@, d) == antijoin_value(
                        state.left_map,
                        state.right_map,
                        d,
                    ) by {
                        lemma_count_concat(hi, out@, d);
                        assert(count_in(hi, d) == antijoin_value(s0.left_map, s0.right_map, d));
                    }
                }
                Ok((Node::AntiJoin { left, right, state }, out))
            },
            _ => Ok((Node::Empty, Vec::new())),
        }
    }

    /// Pulls a triangles node.
    fn pull_triangles(&mut self, i: usize, first: usize, second: usize, third: usize, state: Triangles) -> (r: Result<(Node, Vec<Delta>), Error>)
        requires
            old(self).sizes_ok(),
            i < old(self).nodes@.len(),
            old(self).nodes@[i as int] is Empty,
            old(self).wf_upto(i as int),
            first < i && second < i && third < i,
            state.wf(),
            old(self).coherent(),
            old(self).inputs_ok(),
            owned_by(old(self).owner@, Node::Triangles { first, second, third, state }, i as int),
            sem_of(Node::Triangles { first, second, third, state }, old(self).hist@, old(self).hist@[i as int]),
        ensures
            final(self).sizes_ok(),
            r is Err ==> r->Err_0 is CountOverflow,
            final(self).pulled(*old(self), i as int - 1),
            r is Ok ==> final(self).wf_upto(i as int - 1),
            r is Ok ==> forall|j: int| 0 <= j < final(self).nodes@.len() ==> same_links(#[trigger] final(self).nodes@[j], old(self).nodes@[j]),
            r is Ok ==> final(self).inputs_ok(),
            r is Ok ==> final(self).inputs_taken(*old(self)),
            r matches Ok((n, _)) ==> n matches Node::Triangles { first: a, second: b, third: c, state: s } && a == first
                && b == second && c == third && s.wf(),
            r is Ok ==> final(self).coherent(),
            r is Ok ==> final(self).pulled_by_owners(*old(self), i as int),
            r matches Ok((n, out)) ==> sem_of(n, final(self).hist@, old(self).hist@[i as int] + out@),
            r is Ok ==> inputs_drained(*final(self), first as int) && inputs_drained(*final(self), second as int)
                && inputs_drained(*final(self), third as int),
            r is Ok ==> flags_kept(*final(self), *old(self)),
        decreases i, 0int,
    {
        let ghost node = Node::Triangles { first, second, third, state };
        assert(is_child(node, first as int) && is_child(node, second as int) && is_child(node, third as int));
        let mut state = state;
        let ghost s0 = state;
        let ghost b0 = *self;
        let ghost hi = b0.hist@[i as int];
        proof {
            assert(sem_of(node, b0.hist@, hi));
            assert(pairs_counted(s0.mapxy, b0.hist@[first as int]));
            assert(pairs_counted(s0.mapxz, b0.hist@[second as int]));
            assert(pairs_counted(s0.mapyz, b0.hist@[third as int]));
            assert(forall|d: Datum| #[trigger] count_in(hi, d) == triangle_product(s0.mapxy, s0.mapxz, s0.mapyz, d));
        }
        let a = self.pull(first)?;
        proof {
            self.lemma_wf_after_pull(b0, first as int, i as int - 1);
            self.lemma_pbo_child(b0, first as int, i as int);
        }
        let ghost b1 = *self;
        let b = self.pull(second)?;
        proof {
            self.lemma_wf_after_pull(b1, second as int, i as int - 1);
            self.lemma_pbo_child(b1, second as int, i as int);
            self.lemma_pbo_trans(b0, b1, i as int);
            self.lemma_unpulled(b1, second as int, first as int);
            lemma_links_trans_all(b0, b1, *self);
            self.lemma_inputs_taken_trans(b0, b1);
            self.lemma_still_drained(b1, first as int);
        }
        let ghost b2 = *self;
        let c = self.pull(third)?;
        proof {
            self.lemma_wf_after_pull(b2, third as int, i as int - 1);
            self.lemma_pbo_child(b2, third as int, i as int);
            self.lemma_pbo_trans(b0, b2, i as int);
            self.lemma_unpulled(b2, third as int, first as int);
            self.lemma_unpulled(b2, third as int, second as int);
            lemma_links_trans_all(b0, b2, *self);
            self.lemma_inputs_taken_trans(b0, b2);
            self.lemma_still_drained(b2, first as int);
            self.lemma_still_drained(b2, second as int);
        }
        let out = match state.step(&a, &b, &c) {
            Err(e) => {
                return Err(overflow_error(e));
            },
            Ok(out) => out,
        };
        proof {
            let h1 = self.hist@[first as int];
            let h2 = self.hist@[second as int];
            let h3 = self.hist@[third as int];
            assert(h1 == b0.hist@[first as int] + a@);
            assert(h2 == b0.hist@[second as int] + b@);
            assert(h3 == b0.hist@[third as int] + c@);
            assert forall|x: Datum, y: Datum| #[trigger] state.mapxy.pair_count(x, y) == count_in(h1, mk_pair(x, y)) by {
                lemma_count_concat(b0.hist@[first as int], a@, mk_pair(x, y));
                assert(s0.mapxy.pair_count(x, y) == count_in(b0.hist@[first as int], mk_pair(x, y)));
            }
            assert forall|x: Datum, y: Datum| #[trigger] state.mapxz.pair_count(x, y) == count_in(h2, mk_pair(x, y)) by {
                lemma_count_concat(b0.hist@[second as int], b@, mk_pair(x, y));
                assert(s0.mapxz.pair_count(x, y) == count_in(b0.hist@[second as int], mk_pair(x, y)));
            }
            assert forall|x: Datum, y: Datum| #[trigger] state.mapyz.pair_count(x, y) == count_in(h3, mk_pair(x, y)) by {
                lemma_count_concat(b0.hist@[third as int], c@, mk_pair(x, y));
                assert(s0.mapyz.pair_count(x, y) == count_in(b0.hist@[third as int], mk_pair(x, y)));
            }
            assert forall|d: Datum| #[trigger] count_in(hi + out@, d) == triangle_product(
                state.mapxy,
                state.mapxz,
                state.mapyz,
                d,
            ) by {
                lemma_count_concat(hi, out@, d);
                assert(count_in(hi, d) == triangle_product(s0.mapxy, s0.mapxz, s0.mapyz, d));
            }
        }
        Ok((Node::Triangles { first, second, third, state }, out))
    }

    /// Moves what a save or split has to pass on into the buffers of its reads,
    /// if it is dirty.
    pub fn propagate(&mut self, i: usize) -> (r: Result<(), Error>)
        requires
            old(self).sizes_ok(),
            i < old(self).nodes@.len(),
            old(self).wf_upto(i as int),
            is_source(old(self).nodes@[i as int]),
            old(self).coherent(),
            old(self).inputs_ok(),
        ensures
            final(self).sizes_ok(),
            r is Err ==> r->Err_0 is CountOverflow,
            safe_pull(*old(self), i as int) ==> r is Ok,
            !old(self).dirty.nodes@[flag_of(old(self).nodes@[i as int])].dirty ==> r is Ok,
            final(self).pulled(*old(self), i as int),
            r is Ok ==> final(self).wf_upto(i as int),
            r is Ok ==> forall|j: int| 0 <= j < final(self).nodes@.len() ==> same_links(#[trigger] final(self).nodes@[j], old(self).nodes@[j]),
            r is Ok ==> final(self).inputs_ok(),
            r is Ok ==> final(self).inputs_taken(*old(self)),
            r is Ok ==> final(self).coherent(),
            r is Ok ==> final(self).pulled_by_owners(*old(self), i as int),
            r is Ok ==> final(self).pulls@[i as int] == old(self).pulls@[i as int] + 1,
            r is Ok ==> final(self).hist@[i as int] == old(self).hist@[i as int],
            r is Ok ==> flags_kept(*final(self), *old(self)),
            r is Ok ==> propagated(*final(self), *old(self), old(self).nodes@[i as int]),
        decreases i, 0int,
    {
        assert(self.node_wf(i as int));
        let ghost g0 = *self;
        proof {
            assert(owned_by(g0.owner@, g0.nodes@[i as int], i as int));
        }
        let node = self.take_node(i);
        proof {
            self.lemma_wf_after_take(g0, i as int);
            self.lemma_coherent_after_take(g0, i as int);
            self.lemma_inputs_after_take(g0, i as int);
        }
        let ghost t0 = *self;
        proof {
            assert(match #[trigger] g0.nodes@[i as int] {
                Node::Save { readers, .. } => forall|j: int| 0 <= j < readers@.len() ==> !g0.input_bufs@.contains(#[trigger] readers@[j]),
                Node::Split { left_buffer, right_buffer, .. } => !g0.input_bufs@.contains(left_buffer) && !g0.input_bufs@.contains(right_buffer),
                _ => true,
            });
            assert forall|j: int| 0 <= j < self.nodes@.len() implies same_links(#[trigger] self.nodes@[j], t0.nodes@[j]) by {
                lemma_same_links_refl(t0.nodes@[j]);
            }
        }
        let n: Node = match node {
            Node::Save { src, readers, dirty } => {
                assert(is_child(node, src as int));
                let ghost b0 = *self;
                let dirty_now = (DirtyReceive { id: dirty }).take_status(&mut self.dirty);
                proof {
                    self.lemma_wf_after_pull(b0, -1, i as int - 1);
                }
                if dirty_now {
                    let ghost b1 = *self;
                    proof {
                        assert forall|j: int| 0 <= j < src as int implies #[trigger] same_links(b1.nodes@[j], g0.nodes@[j]) by {
                            lemma_same_links_refl(g0.nodes@[j]);
                        }
                        lemma_same_links_refl(g0.nodes@[src as int]);
                        lemma_node_safe_stable(g0, b1, g0.nodes@[src as int], b1.nodes@[src as int], src as int);
                    }
                    let data = self.pull(src)?;
                    proof {
                        self.lemma_wf_after_pull(b1, src as int, i as int - 1);
                        self.lemma_pbo_child(b1, src as int, i as int);
                    }
                    let ghost b2 = *self;
                    proof {
                        lemma_flags_kept_but_trans(b0, b1, b2, dirty as int);
                    }
                    send_to_all(&mut self.pipes, &readers, &data);
                    proof {
                        self.lemma_wf_after_pull(b2, -1, i as int - 1);
                        assert forall|x: usize| #[trigger] b2.input_bufs@.contains(x) implies self.pipes.pending(x)
                            == b2.pipes.pending(x) && self.pipes.sent@[x as int] == b2.pipes.sent@[x as int] by {
                            assert(x < b2.pipes.buffers@.len());
                            if readers@.contains(x) {
                                let j = choose|j: int| 0 <= j < readers@.len() && readers@[j] == x;
                                assert(!g0.input_bufs@.contains(readers@[j]));
                            }
                        }
                        self.lemma_inputs_pipes_frame(b2);
                        self.lemma_inputs_taken_trans(b1, b2);
                        self.lemma_inputs_taken_trans(t0, b1);
                        lemma_links_trans_all(t0, b1, *self);
                        assert(self.hist@[src as int] == g0.hist@[src as int] + data@);
                        assert(emitted(*self, g0, src as int) =~= data@);
                        assert forall|b: usize| b < self.pipes.buffers@.len() implies #[trigger] ends_with(
                            self.pipes.pending(b),
                            repeated(emitted(*self, g0, src as int), occurrences(readers@, b)),
                        ) by {
                            lemma_ends_with(b2.pipes.pending(b), repeated(data@, occurrences(readers@, b)));
                        }
                    }
                }
                proof {
                    assert(!self.dirty.nodes@[dirty as int].dirty);
                }
                Node::Save { src, readers, dirty }
            },
            Node::Split { src, left_buffer, right_buffer, dirty } => {
                assert(is_child(node, src as int));
                let ghost b0 = *self;
                let dirty_now = (DirtyReceive { id: dirty }).take_status(&mut self.dirty);
                proof {
                    self.lemma_wf_after_pull(b0, -1, i as int - 1);
                }
                if dirty_now {
                    let ghost b1 = *self;
                    proof {
                        assert forall|j: int| 0 <= j < src as int implies #[trigger] same_links(b1.nodes@[j], g0.nodes@[j]) by {
                            lemma_same_links_refl(g0.nodes@[j]);
                        }
                        lemma_same_links_refl(g0.nodes@[src as int]);
                        lemma_node_safe_stable(g0, b1, g0.nodes@[src as int], b1.nodes@[src as int], src as int);
                    }
                    let data = self.pull(src)?;
                    proof {
                        self.lemma_wf_after_pull(b1, src as int, i as int - 1);
                        self.lemma_pbo_child(b1, src as int, i as int);
                    }
                    let ghost b2 = *self;
                    proof {
                        lemma_flags_kept_but_trans(b0, b1, b2, dirty as int);
                    }
                    let (l, r) = split_deltas(&data);
                    Sender { id: left_buffer }.send_all(&mut self.pipes, l);
                    Sender { id: right_buffer }.send_all(&mut self.pipes, r);
                    proof {
                        self.lemma_wf_after_pull(b2, -1, i as int - 1);
                        assert forall|x: usize| #[trigger] b2.input_bufs@.contains(x) implies self.pipes.pending(x)
                            == b2.pipes.pending(x) && self.pipes.sent@[x as int] == b2.pipes.sent@[x as int] by {
                            assert(x < b2.pipes.buffers@.len());
                        }
                        self.lemma_inputs_pipes_frame(b2);
                        self.lemma_inputs_taken_trans(b1, b2);
                        self.lemma_inputs_taken_trans(t0, b1);
                        lemma_links_trans_all(t0, b1, *self);
                        assert(self.hist@[src as int] == g0.hist@[src as int] + data@);
                        assert(emitted(*self, g0, src as int) =~= data@);
                        if left_buffer == right_buffer {
                            assert(self.pipes.pending(left_buffer) =~= b2.pipes.pending(left_buffer) + (l@ + r@));
                            lemma_ends_with(b2.pipes.pending(left_buffer), l@ + r@);
                        } else {
                            lemma_ends_with(b2.pipes.pending(left_buffer), l@);
                            lemma_ends_with(b2.pipes.pending(right_buffer), r@);
                        }
                    }
                }
                proof {
                    assert(!self.dirty.nodes@[dirty as int].dirty);
                }
                Node::Split { src, left_buffer, right_buffer, dirty }
            },
            n => n,
        };
        let ghost g1 = *self;
        proof {
            assert(flags_kept_but(g1, t0, flag_of(g0.nodes@[i as int])));
            assert(g1.coherent());
            assert(g1.pulled_by_owners(t0, i as int));
            assert(g1.inputs_ok());
            assert(g1.inputs_taken(t0));
            assert(forall|j: int| 0 <= j < g1.nodes@.len() ==> #[trigger] same_links(g1.nodes@[j], t0.nodes@[j]));
            assert(propagated(g1, g0, g0.nodes@[i as int]));
        }
        self.put_node(i, n);
        proof {
            self.pulls@ = self.pulls@.update(i as int, g1.pulls@[i as int] + 1);
            self.lemma_wf_after_put(g0, g1, i as int);
            assert(self.hist@ =~= g1.hist@.update(i as int, self.hist@[i as int]));
            self.lemma_coherent_after_put(g0, g1, i as int);
            lemma_shape_links(self.nodes@[i as int], g0.nodes@[i as int]);
            self.lemma_inputs_after_put(g0, g1, i as int);
            assert forall|j: int| 0 <= j < self.nodes@.len() implies #[trigger] same_links(self.nodes@[j], g0.nodes@[j]) by {
                if j != i {
                    assert(self.nodes@[j] == g1.nodes@[j]);
                    assert(same_links(g1.nodes@[j], t0.nodes@[j]));
                    assert(t0.nodes@[j] == g0.nodes@[j]);
                }
            }
            lemma_flags_kept_put(g0, t0, *self, i as int);
        }
        Ok(())
    }

    /// Pulls for `i` leave alone what a node other than `i`, consumed from
    /// outside the graph, has emitted.
    pub proof fn lemma_outside_unpulled(&self, prev: Graph, i: int, k: int)
        requires
            self.pulled_by_owners(prev, i),
            0 <= k < prev.pulls@.len(),
            k != i,
            prev.owner@[k] is Outside,
        ensures
            self.hist@[k] == prev.hist@[k],
            !pulled_more(self.pulls@, prev.pulls@, k),
    {
    }

    /// Pulls of `x`, whose consumer is `i` or nothing, count as pulls for `i`.
    proof fn lemma_pbo_child(&self, prev: Graph, x: int, i: int)
        requires
            self.pulled_by_owners(prev, x),
            0 <= x < prev.pulls@.len(),
            pulled_more(self.pulls@, prev.pulls@, x),
            (prev.owner@[x] matches Owner::Node(p) && p as int == i) || prev.owner@[x] is Free,
        ensures
            self.pulled_by_owners(prev, i),
    {
        assert forall|c: int|
            0 <= c < prev.pulls@.len() && c != i && #[trigger] pulled_more(self.pulls@, prev.pulls@, c) implies (prev.owner@[c] is Free
            || (prev.owner@[c] matches Owner::Node(p) && (p == i || (p < prev.pulls@.len() && pulled_more(self.pulls@, prev.pulls@, p as int))))) by {
            if c != x {
                assert(pulled_more(self.pulls@, prev.pulls@, c));
            }
        }
    }

    /// Pulls for `i` from `a` to `b` and from `b` to `self` are pulls for
    /// `i` from `a` to `self`.
    proof fn lemma_pbo_trans(&self, a: Graph, b: Graph, i: int)
        requires
            b.pulled_by_owners(a, i),
            self.pulled_by_owners(b, i),
        ensures
            self.pulled_by_owners(a, i),
    {
        assert forall|c: int| 0 <= c < a.pulls@.len() implies #[trigger] self.pulls@[c] >= a.pulls@[c] by {
            assert(b.pulls@[c] >= a.pulls@[c]);
            assert(self.pulls@[c] >= b.pulls@[c]);
        }
        assert forall|c: int|
            0 <= c < a.pulls@.len() && (!pulled_more(self.pulls@, a.pulls@, c) || a.owner@[c] is Free) implies #[trigger] self.hist@[c]
                == a.hist@[c] by {
            assert(b.pulls@[c] >= a.pulls@[c]);
            assert(self.pulls@[c] >= b.pulls@[c]);
            assert(!pulled_more(b.pulls@, a.pulls@, c) || a.owner@[c] is Free);
            assert(!pulled_more(self.pulls@, b.pulls@, c) || b.owner@[c] is Free);
        }
        assert forall|c: int|
            0 <= c < a.pulls@.len() && c != i && #[trigger] pulled_more(self.pulls@, a.pulls@, c) implies (a.owner@[c] is Free || (
            a.owner@[c] matches Owner::Node(p) && (p == i || (p < a.pulls@.len() && pulled_more(self.pulls@, a.pulls@, p as int))))) by {
            assert(b.pulls@[c] >= a.pulls@[c]);
            assert(self.pulls@[c] >= b.pulls@[c]);
            if pulled_more(b.pulls@, a.pulls@, c) {
                if let Owner::Node(p) = a.owner@[c] {
                    if p != i {
                        assert(pulled_more(b.pulls@, a.pulls@, p as int));
                        assert(b.pulls@[p as int] >= a.pulls@[p as int]);
                        assert(self.pulls@[p as int] >= b.pulls@[p as int]);
                    }
                }
            } else {
                assert(pulled_more(self.pulls@, b.pulls@, c));
                if let Owner::Node(p) = a.owner@[c] {
                    if p != i {
                        assert(pulled_more(self.pulls@, b.pulls@, p as int));
                        assert(b.pulls@[p as int] >= a.pulls@[p as int]);
                    }
                }
            }
        }
    }

    /// A pull of `x` leaves alone a node `c` other than `x` whose consumer
    /// comes after `x`.
    proof fn lemma_unpulled(&self, prev: Graph, x: int, c: int)
        requires
            self.pulled_by_owners(prev, x),
            self.pulled(prev, x),
            prev.sizes_ok(),
            prev.links_ok(),
            0 <= c < prev.nodes@.len(),
            c != x,
            prev.owner@[c] matches Owner::Node(p) && p > x,
        ensures
            self.hist@[c] == prev.hist@[c],
            !pulled_more(self.pulls@, prev.pulls@, c),
    {
        assert(prev.owner@[c] matches Owner::Node(p) ==> c < p < prev.nodes@.len());
        if pulled_more(self.pulls@, prev.pulls@, c) {
            let p = prev.owner@[c]->Node_0;
            assert(self.pulls@[p as int] == prev.pulls@[p as int]);
        }
    }

    /// Taking a node out of a coherent graph leaves it coherent.
    proof fn lemma_coherent_after_take(&self, g0: Graph, i: int)
        requires
            g0.coherent(),
            g0.sizes_ok(),
            0 <= i < g0.nodes@.len(),
            self.nodes@ == g0.nodes@.update(i, Node::Empty),
            self.owner == g0.owner,
            self.hist == g0.hist,
            self.pulls == g0.pulls,
        ensures
            self.coherent(),
    {
        assert forall|k: int| 0 <= k < self.nodes@.len() implies #[trigger] owned_by(self.owner@, self.nodes@[k], k) by {
            if k != i {
                assert(owned_by(g0.owner@, g0.nodes@[k], k));
            }
        }
        assert forall|c: int| 0 <= c < self.nodes@.len() && is_source(#[trigger] self.nodes@[c]) implies self.owner@[c] is Free by {
            assert(is_source(g0.nodes@[c]));
        }
        assert forall|k: int| 0 <= k < self.nodes@.len() implies #[trigger] sem_of(self.nodes@[k], self.hist@, self.hist@[k]) by {
            if k != i {
                assert(sem_of(g0.nodes@[k], g0.hist@, g0.hist@[k]));
            }
        }
    }

    /// The children of a node standing at `i` come before it.
    proof fn lemma_children_before(&self, n: Node, i: int)
        requires
            self.node_ok(n, i),
        ensures
            forall|c: int| #[trigger] is_child(n, c) ==> c < i,
    {
    }

    /// Nodes of the same shape have the same children.
    proof fn lemma_same_shape_children(a: Node, b: Node)
        requires
            same_shape(a, b),
        ensures
            forall|c: int| #[trigger] is_child(a, c) == is_child(b, c),
            distinct_children(a) == distinct_children(b),
    {
    }

    /// Putting node `i` back, after it took what its children emitted and
    /// appended its own changes to its history, leaves the graph coherent,
    /// and what was pulled meanwhile was pulled for `i`.
    proof fn lemma_coherent_after_put(&self, g0: Graph, g1: Graph, i: int)
        requires
            g0.coherent(),
            g0.sizes_ok(),
            0 <= i < g0.nodes@.len(),
            g0.node_ok(g0.nodes@[i], i),
            g0.pullable(i) || (g0.owner@[i] is Free && self.hist@[i] == g0.hist@[i]),
            g1.coherent(),
            g1.sizes_ok(),
            g1.pulled_by_owners(g0, i),
            g1.pulled(g0, i),
            g1.nodes@[i] is Empty,
            g1.pulls@[i] == g0.pulls@[i],
            same_shape(self.nodes@[i], g0.nodes@[i]),
            sem_of(self.nodes@[i], g1.hist@, self.hist@[i]),
            self.nodes@ == g1.nodes@.update(i, self.nodes@[i]),
            self.owner == g1.owner,
            self.hist@ == g1.hist@.update(i, self.hist@[i]),
            self.pulls@ == g1.pulls@.update(i, g1.pulls@[i] + 1),
        ensures
            self.coherent(),
            self.pulled_by_owners(g0, i),
    {
        let n = self.nodes@[i];
        Self::lemma_same_shape_children(n, g0.nodes@[i]);
        g0.lemma_children_before(g0.nodes@[i], i);
        assert forall|k: int| 0 <= k < self.nodes@.len() implies #[trigger] owned_by(self.owner@, self.nodes@[k], k) by {
            if k == i {
                assert(owned_by(g0.owner@, g0.nodes@[i], i));
                assert forall|c: int| #[trigger] is_child(n, c) implies 0 <= c < k && (self.owner@[c] matches Owner::Node(
                    p,
                ) && p as int == k) by {
                    assert(is_child(g0.nodes@[i], c));
                }
            } else {
                assert(owned_by(g1.owner@, g1.nodes@[k], k));
            }
        }
        assert forall|c: int| 0 <= c < self.nodes@.len() && self.owner@[c] is Free implies (#[trigger] self.hist@[c]).len()
            == 0 by {
            if c == i {
                assert(g0.hist@[i].len() == 0);
            } else {
                assert(g1.owner@[c] is Free);
                assert(g1.hist@[c].len() == 0);
            }
        }
        assert forall|c: int| 0 <= c < self.nodes@.len() && is_source(#[trigger] self.nodes@[c]) implies self.owner@[c] is Free by {
            if c == i {
                assert(is_source(g0.nodes@[i]));
            } else {
                assert(is_source(g1.nodes@[c]));
            }
        }
        assert forall|k: int| 0 <= k < self.nodes@.len() implies #[trigger] sem_of(self.nodes@[k], self.hist@, self.hist@[k]) by {
            if k == i {
                lemma_sem_frame(n, g1.hist@, self.hist@, self.hist@[i]);
            } else {
                assert(sem_of(g1.nodes@[k], g1.hist@, g1.hist@[k]));
                let nk = g1.nodes@[k];
                if is_child(nk, i) {
                    assert(owned_by(g1.owner@, nk, k));
                    assert(g0.owner@[i] matches Owner::Node(p) && p as int == k);
                    assert(k > i);
                    assert(g0.pullable(i));
                    assert(g0.nodes@[k] is Empty);
                    assert(g1.nodes@[k] == g0.nodes@[k]);
                    assert(false);
                }
                assert forall|c: int| #[trigger] is_child(nk, c) implies g1.hist@[c] == self.hist@[c] by {
                    assert(owned_by(g1.owner@, nk, k));
                    assert(0 <= c < k);
                    assert(c != i);
                }
                lemma_sem_frame(nk, g1.hist@, self.hist@, g1.hist@[k]);
            }
        }
        assert forall|c: int| 0 <= c < g0.pulls@.len() implies #[trigger] self.pulls@[c] >= g0.pulls@[c] by {
            assert(g1.pulls@[c] >= g0.pulls@[c]);
        }
        assert forall|c: int|
            0 <= c < g0.pulls@.len() && (!pulled_more(self.pulls@, g0.pulls@, c) || g0.owner@[c] is Free) implies #[trigger] self.hist@[c]
                == g0.hist@[c] by {
            if c != i {
                assert(g1.pulls@[c] >= g0.pulls@[c]);
                assert(!pulled_more(g1.pulls@, g0.pulls@, c) || g0.owner@[c] is Free);
            }
        }
        assert forall|c: int|
            0 <= c < g0.pulls@.len() && c != i && #[trigger] pulled_more(self.pulls@, g0.pulls@, c) implies (g0.owner@[c] is Free || (
            g0.owner@[c] matches Owner::Node(p) && (p == i || (p < g0.pulls@.len() && pulled_more(self.pulls@, g0.pulls@, p as int))))) by {
            assert(pulled_more(g1.pulls@, g0.pulls@, c));
            if let Owner::Node(p) = g0.owner@[c] {
                if p != i && pulled_more(g1.pulls@, g0.pulls@, p as int) {
                    assert(g1.pulls@[p as int] >= g0.pulls@[p as int]);
                }
            }
        }
    }

    /// Nodes stay well formed when stores only grow.
    pub proof fn lemma_wf_grow(&self, prev: Graph)
        requires
            prev.wf(),
            self.sizes_ok(),
            self.nodes@ == prev.nodes@,
            self.owner == prev.owner,
            self.hist == prev.hist,
            self.input_bufs == prev.input_bufs,
            self.pipes == prev.pipes || self.inputs_ok(),
            self.pipes.buffers@.len() >= prev.pipes.buffers@.len(),
            self.dirty.nodes@.len() >= prev.dirty.nodes@.len(),
        ensures
            self.wf(),
    {
        if self.pipes == prev.pipes {
            assert forall|k: int| 0 <= k < self.nodes@.len() implies match #[trigger] self.nodes@[k] {
                Node::Input { buffer } => self.input_bufs@.contains(buffer) && self.hist@[k] + self.pipes.pending(buffer)
                    == self.pipes.sent@[buffer as int],
                Node::Read { buffer, .. } => !self.input_bufs@.contains(buffer),
                Node::Save { readers, .. } => forall|j: int| 0 <= j < readers@.len() ==> !self.input_bufs@.contains(#[trigger] readers@[j]),
                Node::Split { left_buffer, right_buffer, .. } => !self.input_bufs@.contains(left_buffer) && !self.input_bufs@.contains(right_buffer),
                _ => true,
            } by {
                assert(prev.nodes@[k] == self.nodes@[k]);
            }
        }
        assert forall|j: int| 0 <= j <= self.nodes@.len() - 1 && j < self.nodes@.len() implies #[trigger] self.node_wf(j) by {
            assert(prev.node_wf(j));
            match self.nodes@[j] {
                Node::Save { src, readers, dirty } => {
                    assert forall|k: int| 0 <= k < readers@.len() implies #[trigger] readers@[k] < self.pipes.buffers@.len() by {
                        assert(readers@[k] < prev.pipes.buffers@.len());
                    }
                },
                _ => {},
            }
        }
    }

    /// `node` can join the graph without breaking the invariant of input
    /// nodes: an input node gets a new buffer that nothing uses and nothing
    /// was sent to; other nodes use no buffer of an input node.
    pub open spec fn io_fresh(&self, node: Node) -> bool {
        match node {
            Node::Input { buffer } => {
                &&& !self.input_bufs@.contains(buffer)
                &&& self.pipes.pending(buffer).len() == 0
                &&& self.pipes.sent@[buffer as int].len() == 0
                &&& forall|m: int| 0 <= m < self.nodes@.len() ==> !uses_buffer(#[trigger] self.nodes@[m], buffer)
            },
            Node::Read { buffer, .. } => !self.input_bufs@.contains(buffer),
            Node::Save { readers, .. } => forall|j: int| 0 <= j < readers@.len() ==> !self.input_bufs@.contains(#[trigger] readers@[j]),
            Node::Split { left_buffer, right_buffer, .. } => !self.input_bufs@.contains(left_buffer) && !self.input_bufs@.contains(right_buffer),
            _ => true,
        }
    }

    /// A graph with the same nodes, histories, buffers and input buffers
    /// keeps the invariant of input nodes.
    pub proof fn lemma_inputs_same(&self, prev: Graph)
        requires
            prev.inputs_ok(),
            self.nodes@ == prev.nodes@,
            self.hist == prev.hist,
            self.pipes == prev.pipes,
            self.input_bufs == prev.input_bufs,
        ensures
            self.inputs_ok(),
    {
        assert forall|k: int| 0 <= k < self.nodes@.len() implies match #[trigger] self.nodes@[k] {
            Node::Input { buffer } => self.input_bufs@.contains(buffer) && self.hist@[k] + self.pipes.pending(buffer)
                == self.pipes.sent@[buffer as int],
            Node::Read { buffer, .. } => !self.input_bufs@.contains(buffer),
            Node::Save { readers, .. } => forall|j: int| 0 <= j < readers@.len() ==> !self.input_bufs@.contains(#[trigger] readers@[j]),
            Node::Split { left_buffer, right_buffer, .. } => !self.input_bufs@.contains(left_buffer) && !self.input_bufs@.contains(right_buffer),
            _ => true,
        } by {
            assert(prev.nodes@[k] == self.nodes@[k]);
        }
    }

    /// Appending a node that can join keeps the invariant of input nodes.
    proof fn lemma_inputs_after_add(&self, prev: Graph, node: Node)
        requires
            prev.inputs_ok(),
            prev.io_fresh(node),
            prev.node_ok(node, prev.nodes@.len() as int),
            prev.hist@.len() == prev.nodes@.len(),
            self.nodes@ == prev.nodes@.push(node),
            self.hist@ == prev.hist@.push(Seq::empty()),
            self.pipes == prev.pipes,
            self.input_bufs@ == (if node is Input {
                prev.input_bufs@.insert(node->Input_buffer)
            } else {
                prev.input_bufs@
            }),
        ensures
            self.inputs_ok(),
    {
        let r = prev.nodes@.len() as int;
        assert forall|b: usize| #[trigger] self.input_bufs@.contains(b) implies b < self.pipes.buffers@.len() by {
            if !prev.input_bufs@.contains(b) {
                assert(node is Input && b == node->Input_buffer);
            }
        }
        assert forall|k: int| 0 <= k < self.nodes@.len() implies match #[trigger] self.nodes@[k] {
            Node::Input { buffer } => self.input_bufs@.contains(buffer) && self.hist@[k] + self.pipes.pending(buffer)
                == self.pipes.sent@[buffer as int],
            Node::Read { buffer, .. } => !self.input_bufs@.contains(buffer),
            Node::Save { readers, .. } => forall|j: int| 0 <= j < readers@.len() ==> !self.input_bufs@.contains(#[trigger] readers@[j]),
            Node::Split { left_buffer, right_buffer, .. } => !self.input_bufs@.contains(left_buffer) && !self.input_bufs@.contains(right_buffer),
            _ => true,
        } by {
            if k < r {
                let nk = prev.nodes@[k];
                assert(self.nodes@[k] == nk);
                if node is Input {
                    let b = node->Input_buffer;
                    assert(!uses_buffer(nk, b));
                    match nk {
                        Node::Save { readers, .. } => {
                            assert forall|j: int| 0 <= j < readers@.len() implies !self.input_bufs@.contains(#[trigger] readers@[j]) by {
                                assert(readers@[j] != b) by {
                                    if readers@[j] == b {
                                        assert(readers@.contains(b));
                                    }
                                }
                            }
                        },
                        _ => {},
                    }
                }
            } else {
                assert(self.nodes@[k] == node);
                if node is Input {
                    assert(self.hist@[k] + self.pipes.pending(node->Input_buffer) =~= self.pipes.sent@[node->Input_buffer as int]);
                }
            }
        }
        assert forall|k1: int, k2: int|
            #![trigger self.nodes@[k1], self.nodes@[k2]]
            0 <= k1 < self.nodes@.len() && 0 <= k2 < self.nodes@.len() && k1 != k2 && self.nodes@[k1] is Input
                && self.nodes@[k2] is Input implies self.nodes@[k1]->Input_buffer != self.nodes@[k2]->Input_buffer by {
            if k1 < r && k2 < r {
                assert(prev.nodes@[k1] == self.nodes@[k1] && prev.nodes@[k2] == self.nodes@[k2]);
            } else if k1 < r {
                assert(!uses_buffer(prev.nodes@[k1], node->Input_buffer));
            } else {
                assert(!uses_buffer(prev.nodes@[k2], node->Input_buffer));
            }
        }
    }

    /// Sending `d` to the buffer of input node `k` keeps the invariant of
    /// input nodes: the node has taken nothing more, and both what waits in
    /// its buffer and what was sent to it grow by `d`.
    pub proof fn lemma_inputs_after_feed(&self, prev: Graph, k: int, d: Seq<Delta>)
        requires
            prev.inputs_ok(),
            prev.sizes_ok(),
            0 <= k < prev.nodes@.len(),
            prev.nodes@[k] is Input,
            self.nodes == prev.nodes,
            self.hist == prev.hist,
            self.input_bufs == prev.input_bufs,
            self.pipes.buffers@.len() == prev.pipes.buffers@.len(),
            self.pipes.pending(prev.nodes@[k]->Input_buffer) == prev.pipes.pending(prev.nodes@[k]->Input_buffer) + d,
            self.pipes.sent@ == prev.pipes.sent@.update(
                prev.nodes@[k]->Input_buffer as int,
                prev.pipes.sent@[prev.nodes@[k]->Input_buffer as int] + d,
            ),
            forall|b: usize|
                b != prev.nodes@[k]->Input_buffer && b < prev.pipes.buffers@.len() ==> #[trigger] self.pipes.pending(b)
                    == prev.pipes.pending(b),
        ensures
            self.inputs_ok(),
    {
        let bk = prev.nodes@[k]->Input_buffer;
        assert(prev.input_bufs@.contains(bk));
        assert forall|m: int| 0 <= m < self.nodes@.len() implies match #[trigger] self.nodes@[m] {
            Node::Input { buffer } => self.input_bufs@.contains(buffer) && self.hist@[m] + self.pipes.pending(buffer)
                == self.pipes.sent@[buffer as int],
            Node::Read { buffer, .. } => !self.input_bufs@.contains(buffer),
            Node::Save { readers, .. } => forall|j: int| 0 <= j < readers@.len() ==> !self.input_bufs@.contains(#[trigger] readers@[j]),
            Node::Split { left_buffer, right_buffer, .. } => !self.input_bufs@.contains(left_buffer) && !self.input_bufs@.contains(right_buffer),
            _ => true,
        } by {
            assert(prev.nodes@[m] == self.nodes@[m]);
            if self.nodes@[m] is Input {
                let b = self.nodes@[m]->Input_buffer;
                assert(prev.input_bufs@.contains(b));
                assert(b < prev.pipes.buffers@.len());
                if m == k {
                    assert(self.hist@[m] + self.pipes.pending(b) =~= prev.hist@[m] + prev.pipes.pending(b) + d);
                } else {
                    assert(b != bk);
                }
            }
        }
    }

    /// Sets the consumer of node `c` to `o`.
    fn set_owner(&mut self, c: usize, o: Owner)
        requires
            c < old(self).owner@.len(),
        ensures
            final(self).owner@ == old(self).owner@.update(c as int, o),
            final(self).nodes == old(self).nodes,
            final(self).pipes == old(self).pipes,
            final(self).dirty == old(self).dirty,
            final(self).tracker == old(self).tracker,
            final(self).counters == old(self).counters,
            final(self).hist == old(self).hist,
            final(self).pulls == old(self).pulls,
            final(self).input_bufs == old(self).input_bufs,
    {
        self.owner.set(c, o);
    }

    /// Appends `node`, tracked as a relation of kind `kind` computed from
    /// `deps`. Its children, which were consumed by nothing in the graph and
    /// had emitted nothing, become consumed by it; it has no consumer yet.
    pub fn add_node(&mut self, node: Node, kind: String, deps: Vec<usize>) -> (r: usize)
        requires
            old(self).wf(),
            old(self).node_ok(node, old(self).nodes@.len() as int),
            forall|j: int| 0 <= j < deps@.len() ==> #[trigger] deps@[j] < old(self).nodes@.len(),
            fresh_state(node),
            distinct_children(node),
            forall|c: int| #[trigger] is_child(node, c) ==> old(self).owner@[c] is Outside && old(self).hist@[c].len()
                == 0,
            old(self).io_fresh(node),
        ensures
            final(self).wf(),
            r == old(self).nodes@.len(),
            final(self).nodes@ == old(self).nodes@.push(node),
            final(self).pipes == old(self).pipes,
            final(self).dirty == old(self).dirty,
            final(self).tracker.infos@.len() == r + 1,
            final(self).tracker.infos@[r as int].kind_name@ == kind@,
            final(self).tracker.infos@[r as int].deps@ == deps@,
            !final(self).tracker.infos@[r as int].hidden,
            final(self).tracker.infos@[r as int].name matches Some(n) && n@ == default_name(r as nat),
            forall|j: int| 0 <= j < r ==> #[trigger] final(self).tracker.infos@[j] == old(self).tracker.infos@[j],
            final(self).owner@[r as int] is Free,
            final(self).hist@ == old(self).hist@.push(Seq::empty()),
            !(node is Input) ==> final(self).input_bufs == old(self).input_bufs,
            forall|j: int| 0 <= j < r && !is_child(node, j) ==> #[trigger] final(self).owner@[j] == old(self).owner@[j],
    {
        let r = self.nodes.len();
        let ghost prev = *self;
        proof {
            self.lemma_children_before(node, r as int);
        }
        match &node {
            Node::FlatMap { src, .. } => self.set_owner(*src, Owner::Node(r)),
            Node::Consolidate { src } => self.set_owner(*src, Owner::Node(r)),
            Node::Reduce { src, .. } => self.set_owner(*src, Owner::Node(r)),
            Node::Dynamic { src } => self.set_owner(*src, Owner::Node(r)),
            Node::Save { src, .. } => self.set_owner(*src, Owner::Node(r)),
            Node::Split { src, .. } => self.set_owner(*src, Owner::Node(r)),
            Node::Concat { left, right } => {
                self.set_owner(*left, Owner::Node(r));
                self.set_owner(*right, Owner::Node(r));
            },
            Node::Join { left, right, .. } => {
                self.set_owner(*left, Owner::Node(r));
                self.set_owner(*right, Owner::Node(r));
            },
            Node::AntiJoin { left, right, .. } => {
                self.set_owner(*left, Owner::Node(r));
                self.set_owner(*right, Owner::Node(r));
            },
            Node::Triangles { first, second, third, .. } => {
                self.set_owner(*first, Owner::Node(r));
                self.set_owner(*second, Owner::Node(r));
                self.set_owner(*third, Owner::Node(r));
            },
            _ => {},
        }
        let ghost claimed = self.owner@;
        proof {
            assert forall|c: int| 0 <= c < r implies #[trigger] claimed[c] == (if is_child(node, c) {
                Owner::Node(r)
            } else {
                prev.owner@[c]
            }) by {
                match node {
                    Node::Concat { left, right } => {},
                    Node::Join { left, right, .. } => {},
                    Node::AntiJoin { left, right, .. } => {},
                    Node::Triangles { first, second, third, .. } => {},
                    _ => {},
                }
            }
        }
        let ghost node_g = node;
        self.nodes.push(node);
        self.tracker.add_relation(kind, deps);
        crate::pipes::new_count(&mut self.counters);
        self.owner.push(Owner::Free);
        proof {
            self.hist@ = self.hist@.push(Seq::empty());
            self.pulls@ = self.pulls@.push(0);
            if node_g is Input {
                self.input_bufs@ = self.input_bufs@.insert(node_g->Input_buffer);
            }
            self.lemma_inputs_after_add(prev, node_g);
        }
        proof {
            assert forall|j: int| 0 <= j <= self.nodes@.len() - 1 && j < self.nodes@.len() implies #[trigger] self.node_wf(j) by {
                if j < r {
                    assert(prev.node_wf(j));
                    assert(self.nodes@[j] == prev.nodes@[j]);
                    match self.nodes@[j] {
                        Node::Read { from, buffer } => {
                            assert(self.nodes@[from as int] == prev.nodes@[from as int]);
                        },
                        _ => {},
                    }
                } else {
                    match node {
                        Node::Read { from, buffer } => {
                            assert(self.nodes@[from as int] == prev.nodes@[from as int]);
                        },
                        _ => {},
                    }
                }
            }
            self.lemma_coherent_after_add(prev, node, r as int);
        }
        r
    }

    /// Appending a node whose state has seen nothing, and handing it the
    /// nodes it reads, keeps the graph coherent.
    proof fn lemma_coherent_after_add(&self, prev: Graph, node: Node, r: int)
        requires
            prev.wf(),
            r == prev.nodes@.len(),
            r <= usize::MAX,
            prev.node_ok(node, r),
            fresh_state(node),
            distinct_children(node),
            forall|c: int| #[trigger] is_child(node, c) ==> prev.owner@[c] is Outside && prev.hist@[c].len() == 0,
            forall|c: int| #[trigger] is_child(node, c) ==> c < r,
            self.nodes@ == prev.nodes@.push(node),
            self.hist@ == prev.hist@.push(Seq::empty()),
            self.owner@.len() == r + 1,
            self.owner@[r] is Free,
            forall|c: int| 0 <= c < r ==> #[trigger] self.owner@[c] == (if is_child(node, c) {
                Owner::Node(r as usize)
            } else {
                prev.owner@[c]
            }),
        ensures
            self.coherent(),
    {
        assert forall|c: int| 0 <= c < self.nodes@.len() implies (#[trigger] self.owner@[c] matches Owner::Node(p) ==> c
            < p < self.nodes@.len()) by {
            if c < r && !is_child(node, c) {
                assert(prev.owner@[c] matches Owner::Node(p) ==> c < p < prev.nodes@.len());
            }
        }
        assert forall|c: int| 0 <= c < self.nodes@.len() && self.owner@[c] is Free implies (#[trigger] self.hist@[c]).len()
            == 0 by {
            if c < r {
                assert(prev.owner@[c] is Free);
                assert(prev.hist@[c].len() == 0);
            }
        }
        assert forall|c: int| 0 <= c < self.nodes@.len() && is_source(#[trigger] self.nodes@[c]) implies self.owner@[c] is Free by {
            if c < r {
                assert(is_source(prev.nodes@[c]));
                assert(prev.owner@[c] is Free);
                if is_child(node, c) {
                    assert(prev.owner@[c] is Outside);
                }
            }
        }
        assert forall|k: int| 0 <= k < self.nodes@.len() implies #[trigger] owned_by(self.owner@, self.nodes@[k], k) by {
            if k < r {
                let nk = prev.nodes@[k];
                assert(owned_by(prev.owner@, nk, k));
                assert forall|c: int| #[trigger] is_child(nk, c) implies 0 <= c < k && (self.owner@[c] matches Owner::Node(
                    p,
                ) && p as int == k) by {
                    assert(prev.owner@[c] matches Owner::Node(p) && p as int == k);
                    if is_child(node, c) {
                        assert(prev.owner@[c] is Outside);
                    }
                }
            } else {
                assert forall|c: int| #[trigger] is_child(node, c) implies 0 <= c < k && (self.owner@[c] matches Owner::Node(
                    p,
                ) && p as int == k) by {
                    assert(self.owner@[c] == Owner::Node(r as usize));
                }
            }
        }
        assert forall|k: int| 0 <= k < self.nodes@.len() implies #[trigger] sem_of(self.nodes@[k], self.hist@, self.hist@[k]) by {
            if k < r {
                let nk = prev.nodes@[k];
                assert(sem_of(nk, prev.hist@, prev.hist@[k]));
                assert(owned_by(prev.owner@, nk, k));
                assert forall|c: int| #[trigger] is_child(nk, c) implies prev.hist@[c] == self.hist@[c] by {
                    assert(0 <= c < k);
                }
                lemma_sem_frame(nk, prev.hist@, self.hist@, prev.hist@[k]);
            } else {
                assert forall|c: int| #[trigger] is_child(node, c) implies self.hist@[c].len() == 0 by {
                    assert(self.hist@[c] == prev.hist@[c]);
                }
                lemma_fresh_sem(node, self.hist@);
            }
        }
    }

    /// Node `i`, which nothing consumed yet, is now consumed from outside
    /// the graph.
    pub fn claim(&mut self, i: usize)
        requires
            old(self).wf(),
            i < old(self).nodes@.len(),
            old(self).owner@[i as int] is Free,
            !is_source(old(self).nodes@[i as int]),
        ensures
            final(self).wf(),
            final(self).owner@ == old(self).owner@.update(i as int, Owner::Outside),
            final(self).nodes == old(self).nodes,
            final(self).pipes == old(self).pipes,
            final(self).dirty == old(self).dirty,
            final(self).tracker == old(self).tracker,
            final(self).hist == old(self).hist,
    {
        let ghost prev = *self;
        self.set_owner(i, Owner::Outside);
        proof {
            self.lemma_inputs_same(prev);
            assert forall|j: int| 0 <= j <= self.nodes@.len() - 1 && j < self.nodes@.len() implies #[trigger] self.node_wf(j) by {
                assert(prev.node_wf(j));
            }
            assert forall|c: int| 0 <= c < self.nodes@.len() && self.owner@[c] is Free implies (#[trigger] self.hist@[c]).len()
                == 0 by {
                assert(prev.owner@[c] is Free);
            }
            assert forall|c: int| 0 <= c < self.nodes@.len() && is_source(#[trigger] self.nodes@[c]) implies self.owner@[c] is Free by {
                assert(prev.owner@[c] is Free);
            }
            assert forall|k: int| 0 <= k < self.nodes@.len() implies #[trigger] owned_by(self.owner@, self.nodes@[k], k) by {
                let nk = prev.nodes@[k];
                assert(owned_by(prev.owner@, nk, k));
                assert forall|c: int| #[trigger] is_child(nk, c) implies 0 <= c < k && (self.owner@[c] matches Owner::Node(
                    p,
                ) && p as int == k) by {
                    assert(prev.owner@[c] matches Owner::Node(p) && p as int == k);
                }
            }
            assert forall|c: int| 0 <= c < self.nodes@.len() implies (#[trigger] self.owner@[c] matches Owner::Node(p) ==> c
                < p < self.nodes@.len()) by {
                assert(prev.owner@[c] matches Owner::Node(p) ==> c < p < prev.nodes@.len());
            }
            assert forall|k: int| 0 <= k < self.nodes@.len() implies #[trigger] sem_of(self.nodes@[k], self.hist@, self.hist@[k]) by {
                assert(sem_of(prev.nodes@[k], prev.hist@, prev.hist@[k]));
            }
        }
    }

    /// A new buffer.
    pub fn new_buffer(&mut self) -> (r: usize)
        requires
            old(self).wf(),
        ensures
            final(self).wf(),
            r == old(self).pipes.buffers@.len(),
            final(self).pipes.buffers@.len() == r + 1,
            final(self).pipes.pending(r) == Seq::<Delta>::empty(),
            forall|b: usize| b < old(self).pipes.buffers@.len() ==> #[trigger] final(self).pipes.pending(b) == old(self).pipes.pending(b),
            final(self).nodes == old(self).nodes,
            final(self).dirty == old(self).dirty,
            final(self).tracker == old(self).tracker,
            final(self).counters == old(self).counters,
            final(self).owner == old(self).owner,
            final(self).hist == old(self).hist,
            final(self).input_bufs == old(self).input_bufs,
            final(self).pipes.sent@[r as int].len() == 0,
    {
        let ghost prev = *self;
        let (s, _) = crate::pipes::new(&mut self.pipes);
        proof {
            assert forall|b: usize| #[trigger] prev.input_bufs@.contains(b) implies self.pipes.pending(b) == prev.pipes.pending(b)
                && self.pipes.sent@[b as int] == prev.pipes.sent@[b as int] by {
                assert(b < prev.pipes.buffers@.len());
            }
            self.lemma_inputs_pipes_frame(prev);
            self.lemma_wf_grow(prev);
        }
        s.id
    }

    /// Pulls node `i` of a well-formed graph; on success the graph stays well
    /// formed, with its sizes, tracker and nodes' kinds as they were.
    pub fn pull_node(&mut self, i: usize) -> (r: Result<Vec<Delta>, Error>)
        requires
            old(self).wf(),
            i < old(self).nodes@.len(),
            old(self).coherent(),
            old(self).owner@[i as int] is Outside,
        ensures
            r is Ok ==> final(self).coherent(),
            r is Ok ==> final(self).pulled_by_owners(*old(self), i as int),
            r is Ok ==> final(self).pulls@[i as int] == old(self).pulls@[i as int] + 1,
            r matches Ok(v) ==> final(self).hist@[i as int] == old(self).hist@[i as int] + v@,
            r is Ok ==> final(self).inputs_taken(*old(self)),
            r is Ok ==> inputs_drained(*final(self), i as int),
            final(self).sizes_ok(),
            r is Err ==> r->Err_0 is CountOverflow,
            safe_pull(*old(self), i as int) ==> r is Ok,
            final(self).pulled(*old(self), i as int),
            r is Ok ==> final(self).wf(),
            r is Ok ==> forall|j: int| 0 <= j < old(self).nodes@.len() ==> same_reads(#[trigger] final(self).nodes@[j], old(self).nodes@[j]),
            old(self).nodes@[i as int] is Input ==> (r matches Ok(v) && v@ == old(self).pipes.pending(
                old(self).nodes@[i as int]->Input_buffer,
            )),
            r is Ok ==> flags_kept(*final(self), *old(self)),
            r matches Ok(v) ==> pulled_shape(old(self).nodes@[i as int], *final(self), *old(self), v@),
    {
        let ghost g0 = *self;
        let r = self.pull(i);
        proof {
            if r is Ok {
                self.lemma_wf_after_pull(g0, i as int, self.nodes@.len() - 1);
                assert forall|j: int| 0 <= j < g0.nodes@.len() implies same_reads(#[trigger] self.nodes@[j], g0.nodes@[j]) by {
                    if j > i {
                        assert(self.nodes@[j] == g0.nodes@[j]);
                    }
                }
            }
        }
        r
    }

    /// Propagates node `i` (a save or a split) of a well-formed graph; on
    /// success the graph stays well formed, with its sizes, tracker and
    /// nodes' kinds as they were.
    pub fn propagate_node(&mut self, i: usize) -> (r: Result<(), Error>)
        requires
            old(self).wf(),
            i < old(self).nodes@.len(),
            is_source(old(self).nodes@[i as int]),
            old(self).coherent(),
        ensures
            r is Ok ==> final(self).coherent(),
            r is Ok ==> final(self).pulled_by_owners(*old(self), i as int),
            r is Ok ==> final(self).inputs_taken(*old(self)),
            final(self).sizes_ok(),
            r is Err ==> r->Err_0 is CountOverflow,
            safe_pull(*old(self), i as int) ==> r is Ok,
            !old(self).dirty.nodes@[flag_of(old(self).nodes@[i as int])].dirty ==> r is Ok,
            final(self).pulled(*old(self), i as int),
            r is Ok ==> final(self).wf(),
            r is Ok ==> forall|j: int| 0 <= j < old(self).nodes@.len() ==> same_reads(#[trigger] final(self).nodes@[j], old(self).nodes@[j]),
            r is Ok ==> flags_kept(*final(self), *old(self)),
            r is Ok ==> propagated(*final(self), *old(self), old(self).nodes@[i as int]),
            r is Ok ==> final(self).pulls@[i as int] == old(self).pulls@[i as int] + 1,
    {
        let ghost g0 = *self;
        let r = self.propagate(i);
        proof {
            if r is Ok {
                self.lemma_wf_after_pull(g0, i as int, self.nodes@.len() - 1);
                assert forall|j: int| 0 <= j < g0.nodes@.len() implies same_reads(#[trigger] self.nodes@[j], g0.nodes@[j]) by {
                    if j > i {
                        assert(self.nodes@[j] == g0.nodes@[j]);
                    }
                }
            }
        }
        r
    }

    /// Adds `buffer` to the readers of the save node `i`.
    pub fn add_reader(&mut self, i: usize, buffer: usize)
        requires
            old(self).wf(),
            i < old(self).nodes@.len(),
            old(self).nodes@[i as int] is Save,
            buffer < old(self).pipes.buffers@.len(),
            !old(self).input_bufs@.contains(buffer),
        ensures
            final(self).wf(),
            final(self).nodes@.len() == old(self).nodes@.len(),
            final(self).nodes@[i as int] is Save,
            final(self).nodes@[i as int]->Save_readers@ == old(self).nodes@[i as int]->Save_readers@.push(buffer),
            final(self).nodes@[i as int]->Save_dirty == old(self).nodes@[i as int]->Save_dirty,
            final(self).nodes@[i as int]->Save_src == old(self).nodes@[i as int]->Save_src,
            forall|j: int| 0 <= j < old(self).nodes@.len() && j != i ==> #[trigger] final(self).nodes@[j] == old(self).nodes@[j],
            forall|j: int| 0 <= j < old(self).nodes@.len() ==> same_reads(#[trigger] final(self).nodes@[j], old(self).nodes@[j]),
            final(self).pipes == old(self).pipes,
            final(self).dirty == old(self).dirty,
            final(self).tracker == old(self).tracker,
            final(self).counters == old(self).counters,
            final(self).owner == old(self).owner,
            final(self).hist == old(self).hist,
            final(self).input_bufs == old(self).input_bufs,
    {
        let ghost g0 = *self;
        assert(self.node_wf(i as int));
        let node = self.take_node(i);
        match node {
            Node::Save { src, readers, dirty } => {
                let mut readers = readers;
                readers.push(buffer);
                self.put_node(i, Node::Save { src, readers, dirty });
                proof {
                    assert forall|c: int| 0 <= c < self.nodes@.len() && self.owner@[c] is Free implies (
                    #[trigger] self.hist@[c]).len() == 0 by {
                        assert(g0.owner@[c] is Free);
                    }
                    assert forall|c: int| 0 <= c < self.nodes@.len() && is_source(#[trigger] self.nodes@[c]) implies self.owner@[c] is Free by {
                        assert(is_source(g0.nodes@[c]));
                    }
                    assert forall|k: int| 0 <= k < self.nodes@.len() implies #[trigger] owned_by(self.owner@, self.nodes@[k], k) by {
                        assert(owned_by(g0.owner@, g0.nodes@[k], k));
                        if k == i {
                            assert forall|c: int| #[trigger] is_child(self.nodes@[k], c) implies is_child(g0.nodes@[k], c) by {}
                        }
                    }
                    assert forall|c: int| 0 <= c < self.nodes@.len() implies (#[trigger] self.owner@[c] matches Owner::Node(p)
                        ==> c < p < self.nodes@.len()) by {
                        assert(g0.owner@[c] matches Owner::Node(p) ==> c < p < g0.nodes@.len());
                    }
                    assert forall|k: int| 0 <= k < self.nodes@.len() implies #[trigger] sem_of(self.nodes@[k], self.hist@, self.hist@[k]) by {
                        assert(sem_of(g0.nodes@[k], g0.hist@, g0.hist@[k]));
                    }
                    assert forall|j: int| 0 <= j <= self.nodes@.len() - 1 && j < self.nodes@.len() implies #[trigger] self.node_wf(j) by {
                        assert(g0.node_wf(j));
                        if j != i {
                            assert(self.nodes@[j] == g0.nodes@[j]);
                            match self.nodes@[j] {
                                Node::Read { from, buffer } => {
                                    if from != i {
                                        assert(self.nodes@[from as int] == g0.nodes@[from as int]);
                                    }
                                },
                                _ => {},
                            }
                        } else {
                            assert forall|k: int| 0 <= k < readers@.len() implies #[trigger] readers@[k] < self.pipes.buffers@.len() by {
                                if k < readers@.len() - 1 {
                                    assert(readers@[k] == g0.nodes@[i as int]->Save_readers@[k]);
                                }
                            }
                        }
                    }
                }
            },
            n => {
                self.put_node(i, n);
                proof {
                    assert(self.nodes@ =~= g0.nodes@);
                }
            },
        }
    }

    /// A graph stays well formed when only its tracker changes, keeping its
    /// size and well-formedness.
    pub proof fn lemma_wf_tracker(&self, prev: Graph)
        requires
            prev.wf(),
            self.nodes == prev.nodes,
            self.pipes == prev.pipes,
            self.dirty == prev.dirty,
            self.counters == prev.counters,
            self.owner == prev.owner,
            self.hist == prev.hist,
            self.pulls == prev.pulls,
            self.input_bufs == prev.input_bufs,
            self.tracker.wf(),
            self.tracker.infos@.len() == prev.tracker.infos@.len(),
        ensures
            self.wf(),
    {
        assert forall|j: int| 0 <= j <= self.nodes@.len() - 1 && j < self.nodes@.len() implies #[trigger] self.node_wf(j) by {
            assert(prev.node_wf(j));
        }
    }

    /// After a pull of `k`, the nodes up to `upto` are still well formed.
    proof fn lemma_wf_after_pull(&self, prev: Graph, k: int, upto: int)
        requires
            prev.wf_upto(upto),
            k <= upto < prev.nodes@.len(),
            self.nodes@.len() == prev.nodes@.len(),
            self.pipes.buffers@.len() == prev.pipes.buffers@.len(),
            self.dirty.nodes@.len() == prev.dirty.nodes@.len(),
            forall|j: int| 0 <= j <= k ==> #[trigger] self.node_wf(j),
            forall|j: int| 0 <= j <= k ==> same_kind(#[trigger] self.nodes@[j], prev.nodes@[j]),
            forall|j: int| k < j < self.nodes@.len() ==> #[trigger] self.nodes@[j] == prev.nodes@[j],
        ensures
            self.wf_upto(upto),
    {
        assert forall|j: int| 0 <= j <= upto && j < self.nodes@.len() implies #[trigger] self.node_wf(j) by {
            if j > k {
                assert(prev.node_wf(j));
                assert(self.nodes@[j] == prev.nodes@[j]);
                match self.nodes@[j] {
                    Node::Read { from, buffer } => {
                        if from <= k {
                            assert(same_kind(self.nodes@[from as int], prev.nodes@[from as int]));
                        } else {
                            assert(self.nodes@[from as int] == prev.nodes@[from as int]);
                        }
                    },
                    _ => {},
                }
            }
        }
    }

    proof fn lemma_wf_after_take(&self, g0: Graph, i: int)
        requires
            g0.sizes_ok(),
            0 <= i < g0.nodes@.len(),
            g0.wf_upto(i),
            self.nodes@ == g0.nodes@.update(i, Node::Empty),
            self.pipes == g0.pipes,
            self.dirty == g0.dirty,
            self.tracker == g0.tracker,
            self.counters == g0.counters,
            self.owner == g0.owner,
            self.hist == g0.hist,
            self.pulls == g0.pulls,
        ensures
            self.sizes_ok(),
            forall|j: int| 0 <= j < i ==> #[trigger] self.node_wf(j),
            self.wf_upto(i),
    {
        assert forall|j: int| 0 <= j <= i && j < self.nodes@.len() implies #[trigger] self.node_wf(j) by {
            if j < i {
                assert(g0.node_wf(j));
                assert(self.nodes@[j] == g0.nodes@[j]);
                match self.nodes@[j] {
                    Node::Read { from, buffer } => {
                        assert(self.nodes@[from as int] == g0.nodes@[from as int]);
                    },
                    _ => {},
                }
            }
        }
    }

    proof fn lemma_wf_after_put(&self, g0: Graph, g1: Graph, i: int)
        requires
            0 <= i < g0.nodes@.len(),
            g0.node_wf(i),
            g1.sizes_ok(),
            g1.pulled(g0, i),
            forall|j: int| 0 <= j < i ==> #[trigger] g1.node_wf(j),
            forall|j: int| 0 <= j < i ==> same_kind(#[trigger] g1.nodes@[j], g0.nodes@[j]),
            g1.pipes.buffers@.len() == g0.pipes.buffers@.len(),
            g1.dirty.nodes@.len() == g0.dirty.nodes@.len(),
            same_shape(self.nodes@[i], g0.nodes@[i]),
            self.nodes@ == g1.nodes@.update(i, self.nodes@[i]),
            self.pipes == g1.pipes,
            self.dirty == g1.dirty,
            self.tracker == g1.tracker,
            self.counters.counts@.len() == g1.counters.counts@.len(),
            self.owner == g1.owner,
            self.hist@.len() == g1.hist@.len(),
            self.pulls@.len() == g1.pulls@.len(),
            forall|j: int| i < j < self.nodes@.len() ==> #[trigger] self.hist@[j] == g1.hist@[j],
            forall|j: int| i < j < self.nodes@.len() ==> #[trigger] self.pulls@[j] == g1.pulls@[j],
        ensures
            self.wf_upto(i),
            self.pulled(g0, i),
            forall|j: int| 0 <= j <= i ==> same_kind(#[trigger] self.nodes@[j], g0.nodes@[j]),
    {
        assert forall|j: int| 0 <= j <= i && j < self.nodes@.len() implies #[trigger] self.node_wf(j) by {
            if j < i {
                assert(g1.node_wf(j));
                assert(self.nodes@[j] == g1.nodes@[j]);
                match self.nodes@[j] {
                    Node::Read { from, buffer } => {
                        assert(self.nodes@[from as int] == g1.nodes@[from as int]);
                    },
                    _ => {},
                }
            } else {
                match self.nodes@[j] {
                    Node::Read { from, buffer } => {
                        assert(same_kind(g1.nodes@[from as int], g0.nodes@[from as int]));
                        assert(self.nodes@[from as int] == g1.nodes@[from as int]);
                    },
                    _ => {},
                }
            }
        }
    }
}

/// How many times `b` occurs in `s`.
pub open spec fn occurrences(s: Seq<usize>, b: usize) -> nat
    decreases s.len(),
{
    if s.len() == 0 {
        0
    } else {
        occurrences(s.drop_last(), b) + if s.last() == b {
            1nat
        } else {
            0nat
        }
    }
}

/// `data`, `n` times over.
pub open spec fn repeated(data: Seq<Delta>, n: nat) -> Seq<Delta>
    decreases n,
{
    if n == 0 {
        Seq::empty()
    } else {
        repeated(data, (n - 1) as nat) + data
    }
}

/// Sends a copy of `data` to each buffer of `readers`: a buffer that occurs
/// `n` times among the readers gets `n` copies.
#[verifier::spinoff_prover]
pub fn send_to_all(pipes: &mut Pipes<Delta>, readers: &Vec<usize>, data: &Vec<Delta>)
    requires
        forall|j: int| 0 <= j < readers@.len() ==> #[trigger] readers@[j] < old(pipes).buffers@.len(),
        old(pipes).sent@.len() == old(pipes).buffers@.len(),
    ensures
        final(pipes).buffers@.len() == old(pipes).buffers@.len(),
        final(pipes).sent@.len() == old(pipes).sent@.len(),
        forall|b: usize|
            b < old(pipes).buffers@.len() && !readers@.contains(b) ==> #[trigger] final(pipes).pending(b) == old(
                pipes,
            ).pending(b) && final(pipes).sent@[b as int] == old(pipes).sent@[b as int],
        forall|b: usize|
            b < old(pipes).buffers@.len() ==> #[trigger] final(pipes).pending(b) == old(pipes).pending(b) + repeated(
                data@,
                occurrences(readers@, b),
            ) && final(pipes).sent@[b as int] == old(pipes).sent@[b as int] + repeated(data@, occurrences(readers@, b)),
{
    let mut k: usize = 0;
    proof {
        assert forall|b: usize| b < old(pipes).buffers@.len() implies #[trigger] pipes.pending(b) == old(pipes).pending(b)
            + repeated(data@, occurrences(readers@.take(0), b)) && pipes.sent@[b as int] == old(pipes).sent@[b as int]
            + repeated(data@, occurrences(readers@.take(0), b)) by {
            assert(occurrences(readers@.take(0), b) == 0);
            assert(pipes.pending(b) + Seq::<Delta>::empty() =~= pipes.pending(b));
            assert(pipes.sent@[b as int] + Seq::<Delta>::empty() =~= pipes.sent@[b as int]);
        }
    }
    while k < readers.len()
        invariant
            k <= readers@.len(),
            pipes.buffers@.len() == old(pipes).buffers@.len(),
            pipes.sent@.len() == old(pipes).sent@.len(),
            old(pipes).sent@.len() == old(pipes).buffers@.len(),
            forall|j: int| 0 <= j < readers@.len() ==> #[trigger] readers@[j] < old(pipes).buffers@.len(),
            forall|b: usize|
                b < old(pipes).buffers@.len() && !readers@.contains(b) ==> #[trigger] pipes.pending(b) == old(
                    pipes,
                ).pending(b) && pipes.sent@[b as int] == old(pipes).sent@[b as int],
            forall|b: usize|
                b < old(pipes).buffers@.len() ==> #[trigger] pipes.pending(b) == old(pipes).pending(b) + repeated(
                    data@,
                    occurrences(readers@.take(k as int), b),
                ) && pipes.sent@[b as int] == old(pipes).sent@[b as int] + repeated(
                    data@,
                    occurrences(readers@.take(k as int), b),
                ),
        decreases readers@.len() - k,
    {
        let copy = copy_deltas(data);
        let ghost p0 = *pipes;
        Sender { id: readers[k] }.send_all(pipes, copy);
        proof {
            let t0 = readers@.take(k as int);
            let t1 = readers@.take(k as int + 1);
            assert(t1.drop_last() =~= t0);
            assert(t1.last() == readers@[k as int]);
            assert forall|b: usize| b < old(pipes).buffers@.len() implies #[trigger] pipes.pending(b) == old(pipes).pending(b)
                + repeated(data@, occurrences(t1, b)) && pipes.sent@[b as int] == old(pipes).sent@[b as int]
                + repeated(data@, occurrences(t1, b)) by {
                assert(p0.pending(b) == old(pipes).pending(b) + repeated(data@, occurrences(t0, b)));
                assert(p0.sent@[b as int] == old(pipes).sent@[b as int] + repeated(data@, occurrences(t0, b)));
                if b == readers@[k as int] {
                    assert(occurrences(t1, b) == occurrences(t0, b) + 1);
                    assert(repeated(data@, occurrences(t1, b)) == repeated(data@, occurrences(t0, b)) + data@);
                    assert(pipes.pending(b) == p0.pending(b) + data@);
                    assert(pipes.sent@[b as int] == p0.sent@[b as int] + data@);
                    assert(pipes.pending(b) =~= old(pipes).pending(b) + repeated(data@, occurrences(t1, b)));
                    assert(pipes.sent@[b as int] =~= old(pipes).sent@[b as int] + repeated(data@, occurrences(t1, b)));
                } else {
                    assert(occurrences(t1, b) == occurrences(t0, b));
                    assert(pipes.pending(b) == p0.pending(b));
                    assert(pipes.sent@[b as int] == p0.sent@[b as int]);
                }
            }
            assert(readers@.contains(readers@[k as int]));
            assert forall|b: usize| b < old(pipes).buffers@.len() && !readers@.contains(b) implies #[trigger] pipes.pending(b)
                == old(pipes).pending(b) && pipes.sent@[b as int] == old(pipes).sent@[b as int] by {
                assert(b != readers@[k as int]);
                assert(p0.pending(b) == old(pipes).pending(b));
            }
        }
        k = k + 1;
    }
    proof {
        assert(readers@.take(k as int) =~= readers@);
        assert forall|b: usize| b < old(pipes).buffers@.len() implies #[trigger] pipes.pending(b) == old(pipes).pending(b)
            + repeated(data@, occurrences(readers@, b)) && pipes.sent@[b as int] == old(pipes).sent@[b as int]
            + repeated(data@, occurrences(readers@, b)) by {
            assert(pipes.pending(b) == old(pipes).pending(b) + repeated(data@, occurrences(readers@.take(k as int), b)));
        }
    }
}

/// The left and right components of the pairs among the changes, each with
/// the pair's count; changes to other values are left out.
pub fn split_deltas(data: &Vec<Delta>) -> (r: (Vec<Delta>, Vec<Delta>))
    ensures
        r.0@ == split_side(data@, true),
        r.1@ == split_side(data@, false),
{
    let mut l: Vec<Delta> = Vec::new();
    let mut r: Vec<Delta> = Vec::new();
    let mut i: usize = 0;
    while i < data.len()
        invariant
            i <= data@.len(),
            l@ == split_side(data@.take(i as int), true),
            r@ == split_side(data@.take(i as int), false),
        decreases data@.len() - i,
    {
        proof {
            assert(data@.take(i as int + 1).drop_last() =~= data@.take(i as int));
            assert(data@.take(i as int + 1).last() == data@[i as int]);
        }
        match &data[i].0 {
            Datum::Pair(a, b) => {
                l.push((a.duplicate(), data[i].1));
                r.push((b.duplicate(), data[i].1));
            },
            _ => {},
        }
        i = i + 1;
    }
    assert(data@.take(data@.len() as int) =~= data@);
    (l, r)
}

/// The left (or right) components of the pairs of `s`, each with its count.
pub open spec fn split_side(s: Seq<Delta>, left: bool) -> Seq<Delta>
    decreases s.len(),
{
    if s.len() == 0 {
        Seq::empty()
    } else {
        let rest = split_side(s.drop_last(), left);
        match s.last().0 {
            Datum::Pair(a, b) => rest.push((if left {
                *a
            } else {
                *b
            }, s.last().1)),
            _ => rest,
        }
    }
}

} // verus!
