use vstd::prelude::*;
use crate::fns::{DeltaFn, DatumFn, DatumFlatFn, DatumPred, CountFn, ReduceFn, MapFn, CountOp, DeltaOp};
use crate::reduce::ReduceOp;

verus! {

/// How a relation is computed.
pub enum RelOp {
    /// A node that the context already holds (an input or a side of a
    /// split), whose changes are announced by the dirty node `source`.
    Existing { context: u64, node: usize, source: usize },
    /// A new reader of the save node `node`, whose changes are announced by
    /// the dirty node `source`.
    SavedRead { context: u64, node: usize, source: usize },
    FlatMap(Box<Relation>, DeltaOp),
    Concat(Box<Relation>, Box<Relation>),
    Consolidate(Box<Relation>),
    Join(Box<Relation>, Box<Relation>),
    AntiJoin(Box<Relation>, Box<Relation>),
    Reduce(Box<Relation>, ReduceOp),
    Triangles(Box<Relation>, Box<Relation>, Box<Relation>),
    Dynamic(Box<Relation>),
}

/// A relation: a collection of values with counts, described by how it is
/// computed from inputs. A context turns it into nodes of its graph when it
/// becomes an output, is saved or is split.
pub struct Relation {
    pub op: RelOp,
    pub name: Option<String>,
    pub kind_name: Option<String>,
    pub hidden: bool,
    /// A name given while the relation was hidden; it goes to the relation shown in its place.
    pub shown_name: Option<String>,
    /// A kind given while the relation was hidden; it goes to the relation shown in its place.
    pub shown_kind: Option<String>,
}

/// A fresh relation computed by `op`, with no names.
pub open spec fn plain(op: RelOp) -> Relation {
    Relation { op, name: None, kind_name: None, hidden: false, shown_name: None, shown_kind: None }
}

/// `r` is computed by `op` and hidden, with kind `map` and no names.
pub open spec fn hidden_map(r: Relation, op: RelOp) -> bool {
    &&& r.op == op
    &&& r.hidden
    &&& r.name is None
    &&& r.kind_name matches Some(k) && k@ == "map"@
    &&& r.shown_name is None
}

/// `r` is computed by `op`, with no names, and has kind `kind`.
pub open spec fn kinded(r: Relation, op: RelOp, kind: Seq<char>) -> bool {
    &&& r.op == op
    &&& r.name is None
    &&& r.kind_name matches Some(k) && k@ == kind
    &&& !r.hidden
    &&& r.shown_name is None
    &&& r.shown_kind is None
}

/// The context whose nodes `rel` reads: the one every leaf names, or `None`
/// when two leaves name different contexts.
pub open spec fn context_of(rel: Relation) -> Option<u64>
    decreases rel,
{
    match rel.op {
        RelOp::Existing { context, .. } => Some(context),
        RelOp::SavedRead { context, .. } => Some(context),
        RelOp::FlatMap(s, _) => context_of(*s),
        RelOp::Consolidate(s) => context_of(*s),
        RelOp::Dynamic(s) => context_of(*s),
        RelOp::Reduce(s, _) => context_of(*s),
        RelOp::Concat(l, r) => if context_of(*l) == context_of(*r) {
            context_of(*l)
        } else {
            None
        },
        RelOp::Join(l, r) => if context_of(*l) == context_of(*r) {
            context_of(*l)
        } else {
            None
        },
        RelOp::AntiJoin(l, r) => if context_of(*l) == context_of(*r) {
            context_of(*l)
        } else {
            None
        },
        RelOp::Triangles(x, y, z) => if context_of(*x) == context_of(*y) && context_of(*x) == context_of(*z) {
            context_of(*x)
        } else {
            None
        },
    }
}

/// `a` and `b` read nodes of one and the same context.
pub open spec fn same_context(a: Relation, b: Relation) -> bool {
    context_of(a) is Some && context_of(a) == context_of(b)
}

pub fn label(s: &str) -> (r: String)
    ensures
        r@ == s@,
{
    s.to_owned()
}

impl Relation {
    /// The number of relations this one is computed from.
    pub open spec fn dep_count(&self) -> int {
        match self.op {
            RelOp::Existing { .. } => 0,
            RelOp::SavedRead { .. } => 1,
            RelOp::FlatMap(..) => 1,
            RelOp::Concat(..) => 2,
            RelOp::Consolidate(..) => 1,
            RelOp::Join(..) => 2,
            RelOp::AntiJoin(..) => 2,
            RelOp::Reduce(..) => 1,
            RelOp::Triangles(..) => 3,
            RelOp::Dynamic(..) => 1,
        }
    }

    pub fn from_op(op: RelOp) -> (r: Relation)
        ensures
            r == plain(op),
    {
        Relation { op, name: None, kind_name: None, hidden: false, shown_name: None, shown_kind: None }
    }

    /// Names the relation; a hidden relation passes the name on to the
    /// relation shown in its place.
    pub fn named(self, name: &str) -> (r: Relation)
        ensures
            self.hidden ==> r == (Relation { shown_name: Some(r.shown_name->0), ..self }) && r.shown_name->0@ == name@,
            !self.hidden ==> r == (Relation { name: Some(r.name->0), ..self }) && r.name->0@ == name@,
    {
        let n = label(name);
        let mut r = self;
        if r.hidden {
            r.shown_name = Some(n);
        } else {
            r.name = Some(n);
        }
        r
    }

    /// Gives the relation a kind for display; a hidden relation passes it on
    /// to the relation shown in its place.
    pub fn type_named(self, kind: &str) -> (r: Relation)
        ensures
            self.hidden ==> r == (Relation { shown_kind: Some(r.shown_kind->0), ..self }) && r.shown_kind->0@ == kind@,
            !self.hidden ==> r == (Relation { kind_name: Some(r.kind_name->0), ..self }) && r.kind_name->0@ == kind@,
    {
        let n = label(kind);
        let mut r = self;
        if r.hidden {
            r.shown_kind = Some(n);
        } else {
            r.kind_name = Some(n);
        }
        r
    }

    /// Hides the relation from display; it must be computed from exactly one relation.
    pub fn hidden(self) -> (r: Relation)
        requires
            self.dep_count() == 1,
        ensures
            r == (Relation { hidden: true, ..self }),
    {
        let mut r = self;
        r.hidden = true;
        r
    }

    /// A flat-map node over this relation, with no names.
    fn over(self, f: DeltaOp) -> (r: Relation)
        ensures
            r == plain(RelOp::FlatMap(Box::new(self), f)),
    {
        Relation::from_op(RelOp::FlatMap(Box::new(self), f))
    }

    /// `(f(x), count)` for each `(x, count)`, shown as a node of kind `kind`.
    pub fn apply(self, f: MapFn, kind: &str) -> (r: Relation)
        ensures
            kinded(r, RelOp::FlatMap(Box::new(self), DeltaOp::Apply(f)), kind@),
    {
        self.over(DeltaOp::Apply(f)).type_named(kind)
    }

    /// `apply`, hidden from display.
    pub fn apply_h(self, f: MapFn) -> (r: Relation)
        ensures
            hidden_map(r, RelOp::FlatMap(Box::new(self), DeltaOp::Apply(f))),
    {
        self.apply(f, "map").hidden()
    }

    /// Passes every change `(x, count)` through `f`, which may give any
    /// number of changes for it.
    pub fn flat_map_(self, f: Box<dyn DeltaFn>) -> (r: Relation)
        ensures
            r == plain(RelOp::FlatMap(Box::new(self), DeltaOp::Custom(f))),
    {
        self.over(DeltaOp::Custom(f))
    }

    /// Passes every change through `f`; the same as `flat_map_`.
    pub fn map_(self, f: Box<dyn DeltaFn>) -> (r: Relation)
        ensures
            r == plain(RelOp::FlatMap(Box::new(self), DeltaOp::Custom(f))),
    {
        self.over(DeltaOp::Custom(f))
    }

    /// `(y, count)` for each `y` of `f(x)`, for each `(x, count)`.
    pub fn flat_map(self, f: Box<dyn DatumFlatFn>) -> (r: Relation)
        ensures
            r == plain(RelOp::FlatMap(Box::new(self), DeltaOp::FlatMap(f))),
    {
        self.over(DeltaOp::FlatMap(f))
    }

    /// `(f(x), count)` for each `(x, count)`.
    pub fn map(self, f: Box<dyn DatumFn>) -> (r: Relation)
        ensures
            kinded(r, RelOp::FlatMap(Box::new(self), DeltaOp::Apply(MapFn::Custom(f))), "map"@),
    {
        self.apply(MapFn::Custom(f), "map")
    }

    /// `map`, hidden from display.
    pub fn map_h(self, f: Box<dyn DatumFn>) -> (r: Relation)
        ensures
            hidden_map(r, RelOp::FlatMap(Box::new(self), DeltaOp::Apply(MapFn::Custom(f)))),
    {
        self.apply_h(MapFn::Custom(f))
    }

    /// The changes whose element satisfies `f`.
    pub fn filter(self, f: Box<dyn DatumPred>) -> (r: Relation)
        ensures
            kinded(r, RelOp::FlatMap(Box::new(self), DeltaOp::Filter(f)), "filter"@),
    {
        self.over(DeltaOp::Filter(f)).type_named("filter")
    }

    /// `(x, f(count))` for each `(x, count)`.
    pub fn map_counts(self, f: Box<dyn CountFn>) -> (r: Relation)
        ensures
            kinded(r, RelOp::FlatMap(Box::new(self), DeltaOp::MapCounts(CountOp::Custom(f))), "map_counts"@),
    {
        self.over(DeltaOp::MapCounts(CountOp::Custom(f))).type_named("map_counts")
    }

    /// Every count negated.
    pub fn negate(self) -> (r: Relation)
        ensures
            kinded(r, RelOp::FlatMap(Box::new(self), DeltaOp::MapCounts(CountOp::Negate)), "negate"@),
    {
        self.over(DeltaOp::MapCounts(CountOp::Negate)).type_named("negate")
    }

    /// The first components of the pairs.
    pub fn fsts(self) -> (r: Relation)
        ensures
            hidden_map(r, RelOp::FlatMap(Box::new(self), DeltaOp::Apply(MapFn::Fst))),
    {
        self.apply_h(MapFn::Fst)
    }

    /// The relation itself, as a hidden node of its own. (It is where a
    /// caller may watch the changes go by.)
    pub fn debug(self, name: &str) -> (r: Relation)
        ensures
            hidden_map(r, RelOp::FlatMap(Box::new(self), DeltaOp::Apply(MapFn::Id))),
    {
        self.apply_h(MapFn::Id)
    }

    /// The second components of the pairs.
    pub fn snds(self) -> (r: Relation)
        ensures
            hidden_map(r, RelOp::FlatMap(Box::new(self), DeltaOp::Apply(MapFn::Snd))),
    {
        self.apply_h(MapFn::Snd)
    }

    /// The pairs with their components swapped.
    pub fn swaps(self) -> (r: Relation)
        ensures
            hidden_map(r, RelOp::FlatMap(Box::new(self), DeltaOp::Apply(MapFn::Swap))),
    {
        self.apply_h(MapFn::Swap)
    }

    /// Both relations together: their counts add up.
    pub fn concat(self, other: Relation) -> (r: Relation)
        requires
            same_context(self, other),
        ensures
            r == plain(RelOp::Concat(Box::new(self), Box::new(other))),
    {
        Relation::from_op(RelOp::Concat(Box::new(self), Box::new(other)))
    }

    /// This relation with the counts of `other` taken away.
    pub fn minus(self, other: Relation) -> (r: Relation)
        requires
            same_context(self, other),
        ensures
            r == plain(RelOp::Concat(Box::new(self), r.op->Concat_1)),
            kinded(*r.op->Concat_1, RelOp::FlatMap(Box::new(other), DeltaOp::MapCounts(CountOp::Negate)), "negate"@),
            context_of(r) == context_of(self),
    {
        let ghost o = other;
        let n = other.negate();
        assert(context_of(n) == context_of(o));
        self.concat(n)
    }

    /// Each element once per pull, with its net nonzero count.
    pub fn consolidate_shown(self) -> (r: Relation)
        ensures
            r == plain(RelOp::Consolidate(Box::new(self))),
    {
        Relation::from_op(RelOp::Consolidate(Box::new(self)))
    }

    /// `consolidate_shown`, hidden from display.
    pub fn consolidate(self) -> (r: Relation)
        ensures
            r == (Relation { hidden: true, ..plain(RelOp::Consolidate(Box::new(self))) }),
    {
        self.consolidate_shown().hidden()
    }

    /// The same relation, behind a dynamically dispatched node.
    pub fn dynamic_shown(self) -> (r: Relation)
        ensures
            r == plain(RelOp::Dynamic(Box::new(self))),
    {
        Relation::from_op(RelOp::Dynamic(Box::new(self)))
    }

    /// `dynamic_shown`, hidden from display.
    pub fn dynamic(self) -> (r: Relation)
        ensures
            r == (Relation { hidden: true, ..plain(RelOp::Dynamic(Box::new(self))) }),
    {
        self.dynamic_shown().hidden()
    }

    /// The join of pairs `(k, x)` with pairs `(k, y)`: triples `(k, x, y)`
    /// counted by the product of the two counts.
    pub fn join(self, other: Relation) -> (r: Relation)
        requires
            same_context(self, other),
        ensures
            r == plain(RelOp::Join(Box::new(self), Box::new(other))),
    {
        Relation::from_op(RelOp::Join(Box::new(self), Box::new(other)))
    }

    /// Retains only those pairs `(k, x)` whose key `k` has count 0 in the argument relation.
    pub fn antijoin(self, other: Relation) -> (r: Relation)
        requires
            same_context(self, other),
        ensures
            r == plain(RelOp::AntiJoin(Box::new(self), Box::new(other))),
    {
        Relation::from_op(RelOp::AntiJoin(Box::new(self), Box::new(other)))
    }

    /// The pairs `(k, v)` whose key is in `other`, counted by the product of
    /// the counts.
    pub fn semijoin(self, other: Relation) -> (r: Relation)
        requires
            same_context(self, other),
        ensures
            r.op is FlatMap,
            hidden_map(r, RelOp::FlatMap(r.op->FlatMap_0, DeltaOp::Apply(MapFn::DropThird))),
            r.shown_kind matches Some(k) && k@ == "semijoin"@,
            r.op->FlatMap_0.op is Join,
            *r.op->FlatMap_0 == plain(RelOp::Join(Box::new(self), r.op->FlatMap_0.op->Join_1)),
            hidden_map(
                *r.op->FlatMap_0.op->Join_1,
                RelOp::FlatMap(Box::new(other), DeltaOp::Apply(MapFn::WithUnit)),
            ),
            context_of(r) == context_of(self),
    {
        let ghost me = self;
        let ghost o = other;
        let u = other.apply_h(MapFn::WithUnit);
        assert(context_of(u) == context_of(o));
        let j = self.join(u);
        assert(context_of(j) == context_of(me));
        let m = j.apply_h(MapFn::DropThird);
        assert(context_of(m) == context_of(me));
        m.type_named("semijoin")
    }

    /// The pairs `(x, y)` of the join's values, for each key.
    pub fn join_values(self, other: Relation) -> (r: Relation)
        requires
            same_context(self, other),
        ensures
            hidden_map(
                r,
                RelOp::FlatMap(Box::new(plain(RelOp::Join(Box::new(self), Box::new(other)))), DeltaOp::Apply(MapFn::DropFirst)),
            ),
            context_of(r) == context_of(self),
    {
        let ghost me = self;
        let j = self.join(other);
        assert(context_of(j) == context_of(me));
        j.apply_h(MapFn::DropFirst)
    }

    /// The elements also in `other`, counted by the product of the counts.
    pub fn intersection(self, other: Relation) -> (r: Relation)
        requires
            same_context(self, other),
        ensures
            r.op is FlatMap,
            hidden_map(r, RelOp::FlatMap(r.op->FlatMap_0, DeltaOp::Apply(MapFn::DropSecond))),
            r.shown_kind matches Some(k) && k@ == "intersection"@,
            r.op->FlatMap_0.op is FlatMap,
            r.op->FlatMap_0.op->FlatMap_1 == DeltaOp::Apply(MapFn::DropThird),
            r.op->FlatMap_0.op->FlatMap_0.op is Join,
            hidden_map(
                *r.op->FlatMap_0.op->FlatMap_0.op->Join_0,
                RelOp::FlatMap(Box::new(self), DeltaOp::Apply(MapFn::WithUnit)),
            ),
            hidden_map(
                *r.op->FlatMap_0.op->FlatMap_0.op->Join_1,
                RelOp::FlatMap(Box::new(other), DeltaOp::Apply(MapFn::WithUnit)),
            ),
            context_of(r) == context_of(self),
    {
        let ghost me = self;
        let u = self.apply_h(MapFn::WithUnit);
        assert(context_of(u) == context_of(me));
        let j = u.semijoin(other);
        let m = j.apply_h(MapFn::DropSecond);
        assert(context_of(m) == context_of(me));
        m.type_named("intersection")
    }

    /// The elements with count 0 in `other`.
    pub fn set_minus(self, other: Relation) -> (r: Relation)
        requires
            same_context(self, other),
        ensures
            r.op is FlatMap,
            hidden_map(r, RelOp::FlatMap(r.op->FlatMap_0, DeltaOp::Apply(MapFn::DropSecond))),
            r.shown_kind matches Some(k) && k@ == "set_minus"@,
            *r.op->FlatMap_0 == plain(RelOp::AntiJoin(r.op->FlatMap_0.op->AntiJoin_0, Box::new(other))),
            hidden_map(
                *r.op->FlatMap_0.op->AntiJoin_0,
                RelOp::FlatMap(Box::new(self), DeltaOp::Apply(MapFn::WithUnit)),
            ),
            context_of(r) == context_of(self),
    {
        let ghost me = self;
        let u = self.apply_h(MapFn::WithUnit);
        assert(context_of(u) == context_of(me));
        let a = u.antijoin(other);
        assert(context_of(a) == context_of(me));
        let m = a.apply_h(MapFn::DropSecond);
        assert(context_of(m) == context_of(me));
        m.type_named("set_minus")
    }

    /// For each key `k` of the pairs `(k, v)`, the single pair `(k, f(k, group))`.
    pub fn reduce_with_output_(self, f: Box<dyn ReduceFn>) -> (r: Relation)
        ensures
            r == plain(RelOp::Reduce(Box::new(self), ReduceOp::Custom(f))),
    {
        Relation::from_op(RelOp::Reduce(Box::new(self), ReduceOp::Custom(f)))
    }

    /// The same as `reduce_with_output_`.
    pub fn reduce_(self, f: Box<dyn ReduceFn>) -> (r: Relation)
        ensures
            r == plain(RelOp::Reduce(Box::new(self), ReduceOp::Custom(f))),
    {
        Relation::from_op(RelOp::Reduce(Box::new(self), ReduceOp::Custom(f)))
    }

    /// The same as `reduce_with_output_`.
    pub fn reduce(self, f: Box<dyn ReduceFn>) -> (r: Relation)
        ensures
            r == plain(RelOp::Reduce(Box::new(self), ReduceOp::Custom(f))),
    {
        Relation::from_op(RelOp::Reduce(Box::new(self), ReduceOp::Custom(f)))
    }

    /// A reduce node with one of the built-in functions, shown as `kind`.
    fn reduce_by(self, f: ReduceOp, kind: &str) -> (r: Relation)
        ensures
            kinded(r, RelOp::Reduce(Box::new(self), f), kind@),
    {
        Relation::from_op(RelOp::Reduce(Box::new(self), f)).type_named(kind)
    }

    /// Each element `x` with its count `n` as the pair `(x, n)`.
    pub fn counts(self) -> (r: Relation)
        ensures
            r.op is Reduce,
            kinded(r, RelOp::Reduce(r.op->Reduce_0, ReduceOp::CountOf), "counts"@),
            hidden_map(*r.op->Reduce_0, RelOp::FlatMap(Box::new(self), DeltaOp::Apply(MapFn::WithUnit))),
    {
        self.apply_h(MapFn::WithUnit).reduce_by(ReduceOp::CountOf, "counts")
    }

    /// Each element with a nonzero count, once.
    pub fn distinct(self) -> (r: Relation)
        ensures
            r.op is FlatMap,
            hidden_map(r, RelOp::FlatMap(r.op->FlatMap_0, DeltaOp::Apply(MapFn::DropSecond))),
            r.shown_kind matches Some(k) && k@ == "distinct"@,
            r.op->FlatMap_0.op is Reduce,
            kinded(*r.op->FlatMap_0, RelOp::Reduce(r.op->FlatMap_0.op->Reduce_0, ReduceOp::Present), "distinct"@),
            hidden_map(
                *r.op->FlatMap_0.op->Reduce_0,
                RelOp::FlatMap(Box::new(self), DeltaOp::Apply(MapFn::WithUnit)),
            ),
    {
        self.apply_h(MapFn::WithUnit).reduce_by(ReduceOp::Present, "distinct").apply_h(MapFn::DropSecond).type_named(
            "distinct",
        )
    }

    /// For each key, the pair of the key with its least value.
    pub fn group_min(self) -> (r: Relation)
        ensures
            kinded(r, RelOp::Reduce(Box::new(self), ReduceOp::GroupMin), "group_min"@),
    {
        self.reduce_by(ReduceOp::GroupMin, "group_min")
    }

    /// For each key, the pair of the key with its greatest value.
    pub fn group_max(self) -> (r: Relation)
        ensures
            kinded(r, RelOp::Reduce(Box::new(self), ReduceOp::GroupMax), "group_max"@),
    {
        self.reduce_by(ReduceOp::GroupMax, "group_max")
    }

    /// The triples `(x, y, z)` with `(x, y)` here, `(x, z)` in `rel2` and
    /// `(y, z)` in `rel3`, counted by the product of the three counts.
    pub fn triangles(self, rel2: Relation, rel3: Relation) -> (r: Relation)
        requires
            same_context(self, rel2),
            same_context(self, rel3),
        ensures
            r == plain(RelOp::Triangles(Box::new(self), Box::new(rel2), Box::new(rel3))),
    {
        Relation::from_op(RelOp::Triangles(Box::new(self), Box::new(rel2), Box::new(rel3)))
    }

    /// The relation itself; a check on its element type in a typed setting.
    pub fn t(self) -> (r: Relation)
        ensures
            r == self,
    {
        self
    }
}

} // verus!
