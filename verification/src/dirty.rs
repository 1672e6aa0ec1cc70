use vstd::prelude::*;
use crate::rc_collection::RcCollection;

verus! {

/// A node of the graph of dirty flags.
pub struct DirtyNode {
    pub dirty: bool,
    pub targets: RcCollection,
    pub listeners: Vec<usize>,
}

/// Which parts of a relational graph have pending changes.
///
/// Inputs own send nodes; outputs, saves and splits own receive nodes. Setting
/// a node dirty sets every node downstream of it dirty, stopping at nodes that
/// are dirty already, and reports the listeners of each node it sets.
pub struct DirtyGraph {
    pub nodes: Vec<DirtyNode>,
    pub notified: Vec<usize>,
}

/// The handle of an input's send node.
pub struct DirtySend {
    pub id: usize,
}

/// The handle of a receive node.
pub struct DirtyReceive {
    pub id: usize,
}

/// The nodes that a receive node yet to be made will listen to.
pub struct ReceiveBuilder {
    pub sources: RcCollection,
}

/// `a` and `b` have the same nodes, edges and listeners.
pub open spec fn same_structure(a: DirtyGraph, b: DirtyGraph) -> bool {
    &&& a.nodes@.len() == b.nodes@.len()
    &&& forall|i: int| 0 <= i < a.nodes@.len() ==> (#[trigger] a.nodes@[i]).targets == b.nodes@[i].targets
        && a.nodes@[i].listeners == b.nodes@[i].listeners
}

impl DirtyGraph {
    /// Every edge goes from a node to a later one.
    pub open spec fn wf(&self) -> bool {
        forall|i: int| 0 <= i < self.nodes@.len() ==> {
            &&& (#[trigger] self.nodes@[i]).targets.wf()
            &&& forall|j: int| 0 <= j < self.nodes@[i].targets@.len() ==> i < #[trigger] self.nodes@[i].targets@[j]
                < self.nodes@.len()
        }
    }

    pub open spec fn is_dirty(&self, i: int) -> bool {
        self.nodes@[i].dirty
    }

    pub fn new() -> (r: DirtyGraph)
        ensures
            r.wf(),
            r.nodes@.len() == 0,
            r.notified@.len() == 0,
    {
        DirtyGraph { nodes: Vec::new(), notified: Vec::new() }
    }

    fn add_node(&mut self) -> (r: usize)
        requires
            old(self).wf(),
        ensures
            final(self).wf(),
            r == old(self).nodes@.len(),
            final(self).nodes@.len() == r + 1,
            !final(self).nodes@[r as int].dirty,
            final(self).nodes@[r as int].targets@.len() == 0,
            final(self).nodes@[r as int].listeners@.len() == 0,
            forall|i: int| 0 <= i < r ==> #[trigger] final(self).nodes@[i] == old(self).nodes@[i],
            final(self).notified == old(self).notified,
    {
        let r = self.nodes.len();
        self.nodes.push(DirtyNode { dirty: false, targets: RcCollection::new(), listeners: Vec::new() });
        proof {
            assert forall|i: int| 0 <= i < self.nodes@.len() implies {
                &&& (#[trigger] self.nodes@[i]).targets.wf()
                &&& forall|j: int| 0 <= j < self.nodes@[i].targets@.len() ==> i < #[trigger] self.nodes@[i].targets@[j]
                    < self.nodes@.len()
            } by {
                if i < r {
                    assert(self.nodes@[i] == old(self).nodes@[i]);
                }
            }
        }
        r
    }
}

/// A new send node, and a builder listening to it.
pub fn new(g: &mut DirtyGraph) -> (r: (DirtySend, ReceiveBuilder))
    requires
        old(g).wf(),
    ensures
        final(g).wf(),
        r.0.id == old(g).nodes@.len(),
        final(g).nodes@.len() == old(g).nodes@.len() + 1,
        r.1.sources.wf(),
        r.1.sources@ == seq![r.0.id],
        forall|i: int| 0 <= i < old(g).nodes@.len() ==> #[trigger] final(g).nodes@[i] == old(g).nodes@[i],
        final(g).notified == old(g).notified,
{
    let id = g.add_node();
    (DirtySend { id }, ReceiveBuilder { sources: RcCollection::singleton(id) })
}

impl ReceiveBuilder {
    /// Makes a receive node that every source of the builder now targets.
    pub fn into_receive(self, g: &mut DirtyGraph) -> (r: DirtyReceive)
        requires
            old(g).wf(),
            self.sources.wf(),
            forall|i: int| 0 <= i < self.sources@.len() ==> #[trigger] self.sources@[i] < old(g).nodes@.len(),
        ensures
            final(g).wf(),
            r.id == old(g).nodes@.len(),
            final(g).nodes@.len() == old(g).nodes@.len() + 1,
            !final(g).nodes@[r.id as int].dirty,
            final(g).nodes@[r.id as int].targets@.len() == 0,
            final(g).nodes@[r.id as int].listeners@.len() == 0,
            forall|i: int| 0 <= i < old(g).nodes@.len() ==> #[trigger] final(g).nodes@[i].dirty == old(g).nodes@[i].dirty,
            forall|i: int| 0 <= i < old(g).nodes@.len() ==> #[trigger] final(g).nodes@[i].listeners == old(g).nodes@[i].listeners,
            forall|i: int, t: usize| 0 <= i < old(g).nodes@.len() ==> (#[trigger] final(g).nodes@[i].targets@.contains(t)
                <==> (old(g).nodes@[i].targets@.contains(t) || (t == r.id && self.sources@.contains(i as usize)))),
            final(g).notified == old(g).notified,
    {
        let id = g.add_node();
        let ghost g1 = *g;
        let srcs = self.sources.to_vec();
        let mut k: usize = 0;
        while k < srcs.len()
            invariant
                k <= srcs@.len(),
                srcs@ == self.sources@,
                self.sources.wf(),
                forall|i: int| 0 <= i < srcs@.len() ==> #[trigger] srcs@[i] < id,
                g.wf(),
                g.nodes@.len() == id + 1,
                !g.nodes@[id as int].dirty,
                g.nodes@[id as int].targets@.len() == 0,
                g.nodes@[id as int].listeners@.len() == 0,
                id == g1.nodes@.len() - 1,
                forall|i: int| 0 <= i < id ==> #[trigger] g.nodes@[i].dirty == g1.nodes@[i].dirty,
                forall|i: int| 0 <= i < id ==> #[trigger] g.nodes@[i].listeners == g1.nodes@[i].listeners,
                forall|i: int, t: usize| 0 <= i < id ==> (#[trigger] g.nodes@[i].targets@.contains(t)
                    <==> (g1.nodes@[i].targets@.contains(t) || (t == id && srcs@.take(k as int).contains(i as usize)))),
                g.notified == g1.notified,
                forall|i: int| 0 <= i < id ==> #[trigger] g1.nodes@[i] == old(g).nodes@[i],
            decreases srcs@.len() - k,
        {
            let s = srcs[k];
            let ghost before = *g;
            let mut node = DirtyNode { dirty: false, targets: RcCollection::new(), listeners: Vec::new() };
            std::mem::swap(&mut node, &mut g.nodes[s]);
            node.targets.insert(id);
            std::mem::swap(&mut node, &mut g.nodes[s]);
            proof {
                assert(srcs@.take(k as int + 1) =~= srcs@.take(k as int).push(s));
                assert forall|i: int, t: usize| 0 <= i < id implies (#[trigger] g.nodes@[i].targets@.contains(t)
                    <==> (g1.nodes@[i].targets@.contains(t) || (t == id && srcs@.take(k as int + 1).contains(i as usize)))) by {
                    if i == s {
                        assert(g.nodes@[i].targets@.contains(t) <==> (before.nodes@[i].targets@.contains(t) || t == id)) by {
                            if g.nodes@[i].targets@.contains(t) && t != id {
                                let j = choose|j: int| 0 <= j < g.nodes@[i].targets@.len() && #[trigger] g.nodes@[i].targets@[j] == t;
                                if j < before.nodes@[i].targets@.len() {
                                    assert(before.nodes@[i].targets@[j] == t);
                                } else {
                                    assert(g.nodes@[i].targets@ == before.nodes@[i].targets@.push(id));
                                }
                            }
                            if before.nodes@[i].targets@.contains(t) {
                                let j = choose|j: int| 0 <= j < before.nodes@[i].targets@.len() && #[trigger] before.nodes@[i].targets@[j] == t;
                                assert(g.nodes@[i].targets@[j] == t);
                            }
                            if t == id && !before.nodes@[i].targets@.contains(id) {
                                assert(g.nodes@[i].targets@[before.nodes@[i].targets@.len() as int] == id);
                            }
                        }
                        assert(srcs@.take(k as int + 1)[k as int] == s);
                    } else {
                        assert(g.nodes@[i] == before.nodes@[i]);
                    }
                    assert(srcs@.take(k as int + 1).contains(i as usize) <==> (srcs@.take(k as int).contains(i as usize) || s == i)) by {
                        if srcs@.take(k as int).contains(i as usize) {
                            let j = choose|j: int| 0 <= j < k && #[trigger] srcs@.take(k as int)[j] == i as usize;
                            assert(srcs@.take(k as int + 1)[j] == i as usize);
                        }
                        if srcs@.take(k as int + 1).contains(i as usize) && s != i {
                            let j = choose|j: int| 0 <= j < k + 1 && #[trigger] srcs@.take(k as int + 1)[j] == i as usize;
                            assert(srcs@.take(k as int)[j] == i as usize);
                        }
                    }
                }
                assert forall|i: int| 0 <= i < g.nodes@.len() implies {
                    &&& (#[trigger] g.nodes@[i]).targets.wf()
                    &&& forall|j: int| 0 <= j < g.nodes@[i].targets@.len() ==> i < #[trigger] g.nodes@[i].targets@[j]
                        < g.nodes@.len()
                } by {
                    if i == s {
                        assert forall|j: int| 0 <= j < g.nodes@[i].targets@.len() implies i < #[trigger] g.nodes@[i].targets@[j]
                            < g.nodes@.len() by {
                            if j < before.nodes@[i].targets@.len() {
                                assert(g.nodes@[i].targets@[j] == before.nodes@[i].targets@[j]);
                            }
                        }
                    } else {
                        assert(g.nodes@[i] == before.nodes@[i]);
                    }
                }
            }
            k = k + 1;
        }
        proof {
            assert(srcs@.take(srcs@.len() as int) =~= srcs@);
        }
        DirtyReceive { id }
    }

    /// The same as `into_receive`.
    pub fn to_receive(self, g: &mut DirtyGraph) -> (r: DirtyReceive)
        requires
            old(g).wf(),
            self.sources.wf(),
            forall|i: int| 0 <= i < self.sources@.len() ==> #[trigger] self.sources@[i] < old(g).nodes@.len(),
        ensures
            final(g).wf(),
            r.id == old(g).nodes@.len(),
            final(g).nodes@.len() == old(g).nodes@.len() + 1,
            !final(g).nodes@[r.id as int].dirty,
            final(g).nodes@[r.id as int].targets@.len() == 0,
            final(g).nodes@[r.id as int].listeners@.len() == 0,
            forall|i: int| 0 <= i < old(g).nodes@.len() ==> #[trigger] final(g).nodes@[i].dirty == old(g).nodes@[i].dirty,
            forall|i: int| 0 <= i < old(g).nodes@.len() ==> #[trigger] final(g).nodes@[i].listeners == old(g).nodes@[i].listeners,
            forall|i: int, t: usize| 0 <= i < old(g).nodes@.len() ==> (#[trigger] final(g).nodes@[i].targets@.contains(t)
                <==> (old(g).nodes@[i].targets@.contains(t) || (t == r.id && self.sources@.contains(i as usize)))),
            final(g).notified == old(g).notified,
    {
        self.into_receive(g)
    }

    /// A builder listening to the sources of both builders.
    pub fn or(self, other: ReceiveBuilder) -> (r: ReceiveBuilder)
        requires
            self.sources.wf(),
        ensures
            r.sources.wf(),
            forall|x: usize| #![trigger r.sources@.contains(x)] r.sources@.contains(x) <==> (self.sources@.contains(x)
                || other.sources@.contains(x)),
    {
        let mut result = self.sources;
        result.extend(other.sources);
        ReceiveBuilder { sources: result }
    }
}

impl DirtyReceive {
    /// A builder listening to this receive node.
    pub fn add_target(&self) -> (r: ReceiveBuilder)
        ensures
            r.sources.wf(),
            r.sources@ == seq![self.id],
    {
        ReceiveBuilder { sources: RcCollection::singleton(self.id) }
    }

    /// Whether the node is dirty; clears it.
    pub fn take_status(&self, g: &mut DirtyGraph) -> (r: bool)
        requires
            old(g).wf(),
            self.id < old(g).nodes@.len(),
        ensures
            final(g).wf(),
            r == old(g).nodes@[self.id as int].dirty,
            same_structure(*final(g), *old(g)),
            !final(g).nodes@[self.id as int].dirty,
            forall|i: int| 0 <= i < old(g).nodes@.len() && i != self.id ==> #[trigger] final(g).nodes@[i].dirty
                == old(g).nodes@[i].dirty,
            final(g).notified == old(g).notified,
    {
        let dirty = g.nodes[self.id].dirty;
        if dirty {
            set_flag(g, self.id, false);
        }
        dirty
    }

    /// Registers `listener` to be reported each time the node becomes dirty.
    pub fn add_listener(&self, g: &mut DirtyGraph, listener: usize)
        requires
            old(g).wf(),
            self.id < old(g).nodes@.len(),
        ensures
            final(g).wf(),
            final(g).nodes@.len() == old(g).nodes@.len(),
            final(g).nodes@[self.id as int].listeners@ == old(g).nodes@[self.id as int].listeners@.push(listener),
            final(g).nodes@[self.id as int].dirty == old(g).nodes@[self.id as int].dirty,
            final(g).nodes@[self.id as int].targets == old(g).nodes@[self.id as int].targets,
            forall|i: int| 0 <= i < old(g).nodes@.len() && i != self.id ==> #[trigger] final(g).nodes@[i] == old(g).nodes@[i],
            final(g).notified == old(g).notified,
    {
        let mut node = DirtyNode { dirty: false, targets: RcCollection::new(), listeners: Vec::new() };
        std::mem::swap(&mut node, &mut g.nodes[self.id]);
        node.listeners.push(listener);
        std::mem::swap(&mut node, &mut g.nodes[self.id]);
        proof {
            assert forall|i: int| 0 <= i < g.nodes@.len() implies {
                &&& (#[trigger] g.nodes@[i]).targets.wf()
                &&& forall|j: int| 0 <= j < g.nodes@[i].targets@.len() ==> i < #[trigger] g.nodes@[i].targets@[j]
                    < g.nodes@.len()
            } by {
                assert(g.nodes@[i].targets == old(g).nodes@[i].targets);
            }
        }
    }
}

fn set_flag(g: &mut DirtyGraph, n: usize, v: bool)
    requires
        old(g).wf(),
        n < old(g).nodes@.len(),
    ensures
        final(g).wf(),
        same_structure(*final(g), *old(g)),
        final(g).nodes@[n as int].dirty == v,
        forall|i: int| 0 <= i < old(g).nodes@.len() && i != n ==> #[trigger] final(g).nodes@[i] == old(g).nodes@[i],
        final(g).notified == old(g).notified,
{
    let mut node = DirtyNode { dirty: false, targets: RcCollection::new(), listeners: Vec::new() };
    std::mem::swap(&mut node, &mut g.nodes[n]);
    node.dirty = v;
    std::mem::swap(&mut node, &mut g.nodes[n]);
    proof {
        assert forall|i: int| 0 <= i < g.nodes@.len() implies {
            &&& (#[trigger] g.nodes@[i]).targets.wf()
            &&& forall|j: int| 0 <= j < g.nodes@[i].targets@.len() ==> i < #[trigger] g.nodes@[i].targets@[j]
                < g.nodes@.len()
        } by {
            assert(g.nodes@[i].targets == old(g).nodes@[i].targets);
        }
    }
}

/// Every node that became dirty between `a` and `b` has all its targets dirty in `b`.
pub open spec fn newly_dirty_closed(a: DirtyGraph, b: DirtyGraph) -> bool {
    forall|m: int| 0 <= m < a.nodes@.len() && !a.nodes@[m].dirty && #[trigger] b.nodes@[m].dirty ==>
        forall|j: int| 0 <= j < b.nodes@[m].targets@.len() ==> b.nodes@[#[trigger] b.nodes@[m].targets@[j] as int].dirty
}

/// The listeners of the nodes `vs` of `g`, node after node, each node's in
/// the order they were registered.
pub open spec fn listeners_of(g: DirtyGraph, vs: Seq<int>) -> Seq<usize>
    decreases vs.len(),
{
    if vs.len() == 0 {
        Seq::empty()
    } else {
        listeners_of(g, vs.drop_last()) + g.nodes@[vs.last()].listeners@
    }
}

/// Every node turned dirty between `a` and `b`, but `n`, is a target of
/// another node turned dirty: so each was reached from `n` through nodes
/// turned dirty.
pub open spec fn dirtied_from(b: DirtyGraph, a: DirtyGraph, n: int) -> bool {
    forall|m: int|
        0 <= m < a.nodes@.len() && !a.nodes@[m].dirty && #[trigger] b.nodes@[m].dirty && m != n ==> exists|p: int|
            0 <= p < a.nodes@.len() && !a.nodes@[p].dirty && b.nodes@[p].dirty && #[trigger] a.nodes@[p].targets@.contains(
                m as usize,
            )
}

/// Between `a` and `b` the nodes turned dirty are exactly those of `vs`,
/// each once, and `b` has reported, after what `a` had reported, the
/// listeners of each of them, node after node in the order of `vs`.
pub open spec fn reported(b: DirtyGraph, a: DirtyGraph, vs: Seq<int>) -> bool {
    &&& turned_dirty(b, a, vs)
    &&& b.notified@ == a.notified@ + listeners_of(a, vs)
}

/// Between `a` and `b` the nodes turned dirty are exactly those of `vs`,
/// each once.
pub open spec fn turned_dirty(b: DirtyGraph, a: DirtyGraph, vs: Seq<int>) -> bool {
    &&& vs.no_duplicates()
    &&& forall|m: int| #[trigger] vs.contains(m) <==> (0 <= m < a.nodes@.len() && !a.nodes@[m].dirty && b.nodes@[m].dirty)
}

/// Nothing turns dirty and nothing is reported between a graph and itself.
pub proof fn lemma_reported_refl(a: DirtyGraph)
    ensures
        reported(a, a, Seq::empty()),
{
    assert(listeners_of(a, Seq::empty()) =~= Seq::<usize>::empty());
    assert(a.notified@ =~= a.notified@ + listeners_of(a, Seq::empty()));
}

proof fn lemma_listeners_concat(g: DirtyGraph, a: Seq<int>, b: Seq<int>)
    ensures
        listeners_of(g, a + b) == listeners_of(g, a) + listeners_of(g, b),
    decreases b.len(),
{
    if b.len() == 0 {
        assert(a + b =~= a);
        assert(listeners_of(g, a) + listeners_of(g, b) =~= listeners_of(g, a));
    } else {
        assert((a + b).drop_last() =~= a + b.drop_last());
        lemma_listeners_concat(g, a, b.drop_last());
        assert(listeners_of(g, a + b) =~= listeners_of(g, a) + listeners_of(g, b));
    }
}

proof fn lemma_listeners_same(g1: DirtyGraph, g2: DirtyGraph, vs: Seq<int>)
    requires
        same_structure(g1, g2),
        forall|i: int| 0 <= i < vs.len() ==> 0 <= #[trigger] vs[i] < g1.nodes@.len(),
    ensures
        listeners_of(g1, vs) == listeners_of(g2, vs),
    decreases vs.len(),
{
    if vs.len() > 0 {
        assert(g1.nodes@[vs.last()].listeners == g2.nodes@[vs.last()].listeners);
        lemma_listeners_same(g1, g2, vs.drop_last());
    }
}

/// Setting target `t` of `n` dirty after `n` keeps every node turned dirty
/// reached from `n`.
proof fn lemma_dirtied_step(a0: DirtyGraph, a1: DirtyGraph, a2: DirtyGraph, n: int, t: int, k: int)
    requires
        dirtied_from(a1, a0, n),
        dirtied_from(a2, a1, t),
        0 <= n < a0.nodes@.len(),
        0 <= k < a0.nodes@[n].targets@.len(),
        a0.nodes@[n].targets@[k] == t,
        !a0.nodes@[n].dirty,
        a1.nodes@[n].dirty,
        same_structure(a1, a0),
        same_structure(a2, a1),
        forall|i: int| 0 <= i < a0.nodes@.len() && #[trigger] a0.nodes@[i].dirty ==> a1.nodes@[i].dirty,
        forall|i: int| 0 <= i < a1.nodes@.len() && #[trigger] a1.nodes@[i].dirty ==> a2.nodes@[i].dirty,
    ensures
        dirtied_from(a2, a0, n),
{
    assert forall|m: int|
        0 <= m < a0.nodes@.len() && !a0.nodes@[m].dirty && #[trigger] a2.nodes@[m].dirty && m != n implies exists|p: int|
        0 <= p < a0.nodes@.len() && !a0.nodes@[p].dirty && a2.nodes@[p].dirty
            && #[trigger] a0.nodes@[p].targets@.contains(m as usize) by {
        if !a1.nodes@[m].dirty {
            if m == t {
                assert(a0.nodes@[n].targets@[k] == t);
                assert(a0.nodes@[n].targets@.contains(m as usize));
            } else {
                let p = choose|p: int|
                    0 <= p < a1.nodes@.len() && !a1.nodes@[p].dirty && a2.nodes@[p].dirty
                        && #[trigger] a1.nodes@[p].targets@.contains(m as usize);
                assert(a1.nodes@[p].targets == a0.nodes@[p].targets);
                assert(!a0.nodes@[p].dirty);
            }
        } else {
            let p = choose|p: int|
                0 <= p < a0.nodes@.len() && !a0.nodes@[p].dirty && a1.nodes@[p].dirty
                    && #[trigger] a0.nodes@[p].targets@.contains(m as usize);
            assert(a2.nodes@[p].dirty);
        }
    }
}

/// Every node turned dirty between `a` and `b` is a target of node `n` or
/// of another node turned dirty.
pub open spec fn dirtied_below(b: DirtyGraph, a: DirtyGraph, n: int) -> bool {
    forall|m: int|
        0 <= m < a.nodes@.len() && !a.nodes@[m].dirty && #[trigger] b.nodes@[m].dirty ==> a.nodes@[n].targets@.contains(
            m as usize,
        ) || exists|p: int|
            0 <= p < a.nodes@.len() && !a.nodes@[p].dirty && b.nodes@[p].dirty && #[trigger] a.nodes@[p].targets@.contains(
                m as usize,
            )
}

/// Setting target `t` of `n` dirty keeps every node turned dirty below `n`.
proof fn lemma_dirtied_below_step(a0: DirtyGraph, a1: DirtyGraph, a2: DirtyGraph, n: int, t: int, k: int)
    requires
        dirtied_below(a1, a0, n),
        dirtied_from(a2, a1, t),
        0 <= n < a0.nodes@.len(),
        0 <= k < a0.nodes@[n].targets@.len(),
        a0.nodes@[n].targets@[k] == t,
        same_structure(a1, a0),
        same_structure(a2, a1),
        forall|i: int| 0 <= i < a0.nodes@.len() && #[trigger] a0.nodes@[i].dirty ==> a1.nodes@[i].dirty,
        forall|i: int| 0 <= i < a1.nodes@.len() && #[trigger] a1.nodes@[i].dirty ==> a2.nodes@[i].dirty,
    ensures
        dirtied_below(a2, a0, n),
{
    assert forall|m: int| 0 <= m < a0.nodes@.len() && !a0.nodes@[m].dirty && #[trigger] a2.nodes@[m].dirty implies a0.nodes@[n].targets@.contains(
        m as usize,
    ) || exists|p: int|
        0 <= p < a0.nodes@.len() && !a0.nodes@[p].dirty && a2.nodes@[p].dirty && #[trigger] a0.nodes@[p].targets@.contains(
            m as usize,
        ) by {
        if !a1.nodes@[m].dirty {
            if m == t {
                assert(a0.nodes@[n].targets@[k] == t);
            } else {
                let p = choose|p: int|
                    0 <= p < a1.nodes@.len() && !a1.nodes@[p].dirty && a2.nodes@[p].dirty
                        && #[trigger] a1.nodes@[p].targets@.contains(m as usize);
                assert(a1.nodes@[p].targets == a0.nodes@[p].targets);
                assert(!a0.nodes@[p].dirty);
            }
        } else if !a0.nodes@[n].targets@.contains(m as usize) {
            let p = choose|p: int|
                0 <= p < a0.nodes@.len() && !a0.nodes@[p].dirty && a1.nodes@[p].dirty
                    && #[trigger] a0.nodes@[p].targets@.contains(m as usize);
            assert(a2.nodes@[p].dirty);
        }
    }
}

/// Two steps that each turn nodes dirty and report their listeners do so
/// together.
pub proof fn lemma_reported_trans(a: DirtyGraph, b: DirtyGraph, c: DirtyGraph, v1: Seq<int>, v2: Seq<int>)
    requires
        reported(b, a, v1),
        reported(c, b, v2),
        same_structure(b, a),
        same_structure(c, b),
        forall|i: int| 0 <= i < a.nodes@.len() && #[trigger] a.nodes@[i].dirty ==> b.nodes@[i].dirty,
        forall|i: int| 0 <= i < b.nodes@.len() && #[trigger] b.nodes@[i].dirty ==> c.nodes@[i].dirty,
    ensures
        reported(c, a, v1 + v2),
{
    assert forall|i: int| 0 <= i < v2.len() implies 0 <= #[trigger] v2[i] < b.nodes@.len() by {
        assert(v2.contains(v2[i]));
    }
    lemma_listeners_same(b, a, v2);
    lemma_listeners_concat(a, v1, v2);
    assert forall|m: int| #[trigger] (v1 + v2).contains(m) <==> (0 <= m < a.nodes@.len() && !a.nodes@[m].dirty
        && c.nodes@[m].dirty) by {
        if (v1 + v2).contains(m) {
            let i = choose|i: int| 0 <= i < (v1 + v2).len() && (v1 + v2)[i] == m;
            if i < v1.len() {
                assert(v1.contains(v1[i]));
            } else {
                assert(v2.contains(v2[i - v1.len()]));
            }
        }
        if 0 <= m < a.nodes@.len() && !a.nodes@[m].dirty && c.nodes@[m].dirty {
            if b.nodes@[m].dirty {
                assert(v1.contains(m));
                let i = choose|i: int| 0 <= i < v1.len() && v1[i] == m;
                assert((v1 + v2)[i] == m);
            } else {
                assert(v2.contains(m));
                let i = choose|i: int| 0 <= i < v2.len() && v2[i] == m;
                assert((v1 + v2)[v1.len() + i] == m);
            }
        }
    }
    assert forall|i: int, j: int| 0 <= i < (v1 + v2).len() && 0 <= j < (v1 + v2).len() && i != j implies (v1
        + v2)[i] != (v1 + v2)[j] by {
        if i < v1.len() && j >= v1.len() {
            assert(v1.contains(v1[i]));
            assert(v2.contains(v2[j - v1.len()]));
        } else if j < v1.len() && i >= v1.len() {
            assert(v1.contains(v1[j]));
            assert(v2.contains(v2[i - v1.len()]));
        }
    }
    assert(c.notified@ =~= a.notified@ + listeners_of(a, v1 + v2));
}

/// Sets `n` dirty; if it was clean, reports its listeners and sets its
/// targets dirty the same way.
#[verifier::spinoff_prover]
#[verifier::rlimit(40)]
pub fn set_dirty_inner(g: &mut DirtyGraph, n: usize)
    requires
        old(g).wf(),
        n < old(g).nodes@.len(),
    ensures
        final(g).wf(),
        same_structure(*final(g), *old(g)),
        final(g).nodes@[n as int].dirty,
        forall|i: int| 0 <= i < old(g).nodes@.len() && #[trigger] old(g).nodes@[i].dirty ==> final(g).nodes@[i].dirty,
        forall|i: int| 0 <= i < n ==> #[trigger] final(g).nodes@[i].dirty == old(g).nodes@[i].dirty,
        old(g).nodes@[n as int].dirty ==> final(g).nodes@ == old(g).nodes@ && final(g).notified == old(g).notified,
        newly_dirty_closed(*old(g), *final(g)),
        final(g).notified@.len() >= old(g).notified@.len(),
        forall|i: int| 0 <= i < old(g).notified@.len() ==> #[trigger] final(g).notified@[i] == old(g).notified@[i],
        exists|vs: Seq<int>| reported(*final(g), *old(g), vs),
        dirtied_from(*final(g), *old(g), n as int),
    decreases old(g).nodes@.len() - n,
{
    if g.nodes[n].dirty {
        proof {
            assert(reported(*g, *old(g), Seq::<int>::empty()));
        }
        return;
    }
    set_flag(g, n, true);
    let listeners = g.nodes[n].listeners.clone();
    let mut li: usize = 0;
    let ghost g0 = *g;
    while li < listeners.len()
        invariant
            g.nodes == g0.nodes,
            g.wf(),
            li <= listeners@.len(),
            g.notified@ == g0.notified@ + listeners@.take(li as int),
        decreases listeners@.len() - li,
    {
        proof {
            assert(listeners@.take(li as int + 1) =~= listeners@.take(li as int).push(listeners@[li as int]));
        }
        g.notified.push(listeners[li]);
        li = li + 1;
    }
    let targets = g.nodes[n].targets.to_vec();
    let ghost g1 = *g;
    let ghost mut vs: Seq<int> = seq![n as int];
    proof {
        assert(listeners@.take(listeners@.len() as int) =~= listeners@);
        assert(listeners_of(*old(g), vs) =~= old(g).nodes@[n as int].listeners@) by {
            assert(vs.drop_last() =~= Seq::<int>::empty());
            assert(vs.last() == n as int);
            assert(listeners_of(*old(g), Seq::<int>::empty()) =~= Seq::<usize>::empty());
            assert(listeners_of(*old(g), vs) =~= listeners_of(*old(g), vs.drop_last()) + old(g).nodes@[n as int].listeners@);
        }
        assert(listeners@ == old(g).nodes@[n as int].listeners@);
        assert forall|m: int| #[trigger] vs.contains(m) <==> (0 <= m < old(g).nodes@.len() && !old(g).nodes@[m].dirty
            && g.nodes@[m].dirty) by {
            if vs.contains(m) {
                let i = choose|i: int| 0 <= i < vs.len() && vs[i] == m;
            }
            if m == n {
                assert(vs[0] == m);
            }
        }
        assert(reported(*g, *old(g), vs));
    }
    let mut k: usize = 0;
    while k < targets.len()
        invariant
            k <= targets@.len(),
            targets@ == g1.nodes@[n as int].targets@,
            g1.wf(),
            g.wf(),
            n < g1.nodes@.len(),
            g1.nodes@.len() == old(g).nodes@.len(),
            same_structure(*g, g1),
            g.nodes@[n as int].dirty,
            forall|i: int| 0 <= i < g1.nodes@.len() && #[trigger] g1.nodes@[i].dirty ==> g.nodes@[i].dirty,
            forall|i: int| 0 <= i <= n ==> #[trigger] g.nodes@[i].dirty == g1.nodes@[i].dirty,
            newly_dirty_closed(g1, *g),
            forall|j: int| 0 <= j < k ==> g.nodes@[#[trigger] targets@[j] as int].dirty,
            g.notified@.len() >= g1.notified@.len(),
            forall|i: int| 0 <= i < g1.notified@.len() ==> #[trigger] g.notified@[i] == g1.notified@[i],
            reported(*g, *old(g), vs),
            same_structure(*g, *old(g)),
            forall|i: int| 0 <= i < old(g).nodes@.len() && #[trigger] old(g).nodes@[i].dirty ==> g.nodes@[i].dirty,
            dirtied_from(*g, *old(g), n as int),
            old(g).nodes@[n as int].targets == g1.nodes@[n as int].targets,
            !old(g).nodes@[n as int].dirty,
        decreases targets@.len() - k,
    {
        let t = targets[k];
        assert(g1.nodes@[n as int].targets@[k as int] == t);
        assert(n < t);
        let ghost before = *g;
        set_dirty_inner(g, t);
        proof {
            let vt = choose|vt: Seq<int>| reported(*g, before, vt);
            lemma_reported_trans(*old(g), before, *g, vs, vt);
            vs = vs + vt;
            lemma_dirtied_step(*old(g), before, *g, n as int, t as int, k as int);
        }
        proof {
            assert forall|m: int| 0 <= m < g1.nodes@.len() && !g1.nodes@[m].dirty && #[trigger] g.nodes@[m].dirty implies
                forall|j: int| 0 <= j < g.nodes@[m].targets@.len() ==> g.nodes@[#[trigger] g.nodes@[m].targets@[j] as int].dirty by {
                assert(g.nodes@[m].targets == before.nodes@[m].targets);
                if before.nodes@[m].dirty {
                    assert forall|j: int| 0 <= j < g.nodes@[m].targets@.len() implies g.nodes@[#[trigger] g.nodes@[m].targets@[j] as int].dirty by {
                        let x = g.nodes@[m].targets@[j];
                        assert(before.nodes@[m].targets@[j] == x);
                        assert(before.wf());
                        assert(x < before.nodes@.len());
                        assert(before.nodes@[x as int].dirty);
                    }
                }
            }
        }
        k = k + 1;
    }
    proof {
        assert forall|m: int| 0 <= m < old(g).nodes@.len() && !old(g).nodes@[m].dirty && #[trigger] g.nodes@[m].dirty implies
            forall|j: int| 0 <= j < g.nodes@[m].targets@.len() ==> g.nodes@[#[trigger] g.nodes@[m].targets@[j] as int].dirty by {
            if m == n {
                assert forall|j: int| 0 <= j < g.nodes@[m].targets@.len() implies g.nodes@[#[trigger] g.nodes@[m].targets@[j] as int].dirty by {
                    assert(g.nodes@[m].targets@[j] == targets@[j]);
                }
            } else {
                assert(g1.nodes@[m].dirty == old(g).nodes@[m].dirty);
            }
        }
    }
}

impl DirtySend {
    /// Sets every target of the send node dirty.
    #[verifier::spinoff_prover]
    #[verifier::rlimit(40)]
    pub fn set_dirty(&self, g: &mut DirtyGraph)
        requires
            old(g).wf(),
            self.id < old(g).nodes@.len(),
        ensures
            final(g).wf(),
            same_structure(*final(g), *old(g)),
            forall|j: int| 0 <= j < old(g).nodes@[self.id as int].targets@.len() ==> final(g).nodes@[#[trigger] old(g).nodes@[self.id as int].targets@[j] as int].dirty,
            forall|i: int| 0 <= i < old(g).nodes@.len() && #[trigger] old(g).nodes@[i].dirty ==> final(g).nodes@[i].dirty,
            forall|i: int| 0 <= i <= self.id ==> #[trigger] final(g).nodes@[i].dirty == old(g).nodes@[i].dirty,
            newly_dirty_closed(*old(g), *final(g)),
            final(g).notified@.len() >= old(g).notified@.len(),
            forall|i: int| 0 <= i < old(g).notified@.len() ==> #[trigger] final(g).notified@[i] == old(g).notified@[i],
            exists|vs: Seq<int>| reported(*final(g), *old(g), vs),
            dirtied_below(*final(g), *old(g), self.id as int),
    {
        let targets = g.nodes[self.id].targets.to_vec();
        let ghost mut vs: Seq<int> = Seq::empty();
        proof {
            assert(listeners_of(*g, vs) =~= Seq::<usize>::empty());
            assert(g.notified@ =~= g.notified@ + listeners_of(*g, vs));
            assert(reported(*g, *old(g), vs));
        }
        let ghost g1 = *g;
        let n = self.id;
        let mut k: usize = 0;
        while k < targets.len()
            invariant
                k <= targets@.len(),
                targets@ == g1.nodes@[n as int].targets@,
                g1 == *old(g),
                g1.wf(),
                g.wf(),
                n < g1.nodes@.len(),
                same_structure(*g, g1),
                forall|i: int| 0 <= i < g1.nodes@.len() && #[trigger] g1.nodes@[i].dirty ==> g.nodes@[i].dirty,
                forall|i: int| 0 <= i <= n ==> #[trigger] g.nodes@[i].dirty == g1.nodes@[i].dirty,
                newly_dirty_closed(g1, *g),
                forall|j: int| 0 <= j < k ==> g.nodes@[#[trigger] targets@[j] as int].dirty,
                g.notified@.len() >= g1.notified@.len(),
                forall|i: int| 0 <= i < g1.notified@.len() ==> #[trigger] g.notified@[i] == g1.notified@[i],
                reported(*g, *old(g), vs),
                dirtied_below(*g, *old(g), n as int),
            decreases targets@.len() - k,
        {
            let t = targets[k];
            assert(g1.nodes@[n as int].targets@[k as int] == t);
            let ghost before = *g;
            set_dirty_inner(g, t);
            proof {
                let vt = choose|vt: Seq<int>| reported(*g, before, vt);
                lemma_reported_trans(*old(g), before, *g, vs, vt);
                vs = vs + vt;
                lemma_dirtied_below_step(*old(g), before, *g, n as int, t as int, k as int);
            }
            proof {
                assert forall|m: int| 0 <= m < g1.nodes@.len() && !g1.nodes@[m].dirty && #[trigger] g.nodes@[m].dirty implies
                    forall|j: int| 0 <= j < g.nodes@[m].targets@.len() ==> g.nodes@[#[trigger] g.nodes@[m].targets@[j] as int].dirty by {
                    assert(g.nodes@[m].targets == before.nodes@[m].targets);
                    if before.nodes@[m].dirty {
                        assert forall|j: int| 0 <= j < g.nodes@[m].targets@.len() implies g.nodes@[#[trigger] g.nodes@[m].targets@[j] as int].dirty by {
                            let x = g.nodes@[m].targets@[j];
                            assert(before.nodes@[m].targets@[j] == x);
                            assert(before.wf());
                            assert(x < before.nodes@.len());
                            assert(before.nodes@[x as int].dirty);
                        }
                    }
                }
            }
            k = k + 1;
        }
    }
}

} // verus!
