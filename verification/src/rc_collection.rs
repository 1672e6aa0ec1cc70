use vstd::prelude::*;

verus! {

/// `s` with each id of `o` that it does not hold yet appended, in the
/// order of `o`.
pub open spec fn extended(s: Seq<usize>, o: Seq<usize>) -> Seq<usize>
    decreases o.len(),
{
    if o.len() == 0 {
        s
    } else {
        let t = extended(s, o.drop_last());
        if t.contains(o.last()) {
            t
        } else {
            t.push(o.last())
        }
    }
}

/// A collection of node ids that keeps each id once, in the order of first insertion.
pub struct RcCollection {
    pub iterable: Vec<usize>,
}

impl RcCollection {
    pub open spec fn wf(&self) -> bool {
        self.iterable@.no_duplicates()
    }

    pub open spec fn view(&self) -> Seq<usize> {
        self.iterable@
    }

    /// An empty collection.
    pub fn new() -> (r: RcCollection)
        ensures
            r.wf(),
            r@ == Seq::<usize>::empty(),
    {
        RcCollection { iterable: Vec::new() }
    }

    /// Whether `x` is in the collection.
    pub fn contains(&self, x: usize) -> (r: bool)
        ensures
            r == self@.contains(x),
    {
        let mut i: usize = 0;
        while i < self.iterable.len()
            invariant
                i <= self@.len(),
                forall|j: int| 0 <= j < i ==> self@[j] != x,
            decreases self@.len() - i,
        {
            if self.iterable[i] == x {
                return true;
            }
            i = i + 1;
        }
        false
    }

    /// Adds `x` unless it is there already; tells whether it was added.
    pub fn insert(&mut self, x: usize) -> (r: bool)
        requires
            old(self).wf(),
        ensures
            final(self).wf(),
            r == !old(self)@.contains(x),
            final(self)@ == if r {
                old(self)@.push(x)
            } else {
                old(self)@
            },
    {
        if self.contains(x) {
            false
        } else {
            self.iterable.push(x);
            true
        }
    }

    /// The collection holding just `x`.
    pub fn singleton(x: usize) -> (r: RcCollection)
        ensures
            r.wf(),
            r@ == seq![x],
    {
        let mut r = RcCollection::new();
        r.insert(x);
        r
    }

    /// Adds every id of `other` that is not there yet, in its order.
    pub fn extend(&mut self, other: RcCollection)
        requires
            old(self).wf(),
        ensures
            final(self).wf(),
            forall|x: usize| #![trigger final(self)@.contains(x)] final(self)@.contains(x) <==> (old(self)@.contains(x)
                || other@.contains(x)),
            final(self)@.len() >= old(self)@.len(),
            forall|i: int| 0 <= i < old(self)@.len() ==> #[trigger] final(self)@[i] == old(self)@[i],
            final(self)@ == extended(old(self)@, other@),
    {
        let mut i: usize = 0;
        while i < other.iterable.len()
            invariant
                i <= other@.len(),
                self.wf(),
                forall|x: usize| #![trigger self@.contains(x)] self@.contains(x) <==> (old(self)@.contains(x)
                    || other@.take(i as int).contains(x)),
                self@.len() >= old(self)@.len(),
                forall|j: int| 0 <= j < old(self)@.len() ==> #[trigger] self@[j] == old(self)@[j],
                self@ == extended(old(self)@, other@.take(i as int)),
            decreases other@.len() - i,
        {
            let ghost before = self@;
            let x = other.iterable[i];
            self.insert(x);
            proof {
                assert(other@.take(i as int + 1) =~= other@.take(i as int).push(x));
                assert(other@.take(i as int + 1).drop_last() =~= other@.take(i as int));
                assert forall|y: usize| #![trigger self@.contains(y)] self@.contains(y) <==> (old(self)@.contains(y)
                    || other@.take(i as int + 1).contains(y)) by {
                    assert(self@.contains(y) <==> (before.contains(y) || y == x)) by {
                        if self@.contains(y) && y != x {
                            let j = choose|j: int| 0 <= j < self@.len() && #[trigger] self@[j] == y;
                            if j < before.len() {
                                assert(before[j] == y);
                            }
                        }
                        if before.contains(y) {
                            let j = choose|j: int| 0 <= j < before.len() && #[trigger] before[j] == y;
                            assert(self@[j] == y);
                        }
                        if y == x && !before.contains(x) {
                            assert(self@[before.len() as int] == x);
                        }
                    }
                    assert(other@.take(i as int + 1).contains(y) <==> (other@.take(i as int).contains(y) || y == x)) by {
                        if other@.take(i as int).contains(y) {
                            let j = choose|j: int| 0 <= j < i && #[trigger] other@.take(i as int)[j] == y;
                            assert(other@.take(i as int + 1)[j] == y);
                        }
                        if other@.take(i as int + 1).contains(y) && y != x {
                            let j = choose|j: int| 0 <= j < i + 1 && #[trigger] other@.take(i as int + 1)[j] == y;
                            assert(other@.take(i as int)[j] == y);
                        }
                        if y == x {
                            assert(other@.take(i as int + 1)[i as int] == x);
                        }
                    }
                    assert(before.contains(y) <==> (old(self)@.contains(y) || other@.take(i as int).contains(y)));
                }
            }
            i = i + 1;
        }
        assert(other@.take(other@.len() as int) =~= other@);
    }

    /// The ids, in order.
    pub fn to_vec(&self) -> (r: Vec<usize>)
        ensures
            r@ == self@,
    {
        self.iterable.clone()
    }
}

} // verus!
