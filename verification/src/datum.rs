use vstd::prelude::*;
use vstd::string::*;

verus! {

/// A value carried by a relation.
///
/// Relations are dynamically typed: every element is a `Datum`, and tuples and
/// options are built from the `Pair`, `Triple`, `Nothing` and `Just` forms.
#[derive(Debug, Eq)]
pub enum Datum {
    Unit,
    Bool(bool),
    Int(i64),
    Char(char),
    Pair(Box<Datum>, Box<Datum>),
    Triple(Box<Datum>, Box<Datum>, Box<Datum>),
    Nothing,
    Just(Box<Datum>),
}

/// One change to a collection: an element and the signed number of copies added.
pub type Delta = (Datum, isize);

/// Position of a variant in the order of `Datum` values.
pub open spec fn rank(d: Datum) -> int {
    match d {
        Datum::Unit => 0,
        Datum::Bool(_) => 1,
        Datum::Int(_) => 2,
        Datum::Char(_) => 3,
        Datum::Pair(_, _) => 4,
        Datum::Triple(_, _, _) => 5,
        Datum::Nothing => 6,
        Datum::Just(_) => 7,
    }
}

/// The total order on values: first by variant, then by contents, tuples
/// lexicographically.
pub open spec fn datum_le(a: Datum, b: Datum) -> bool
    decreases a,
{
    if rank(a) != rank(b) {
        rank(a) < rank(b)
    } else {
        match (a, b) {
            (Datum::Bool(x), Datum::Bool(y)) => !x || y,
            (Datum::Int(x), Datum::Int(y)) => x <= y,
            (Datum::Char(x), Datum::Char(y)) => (x as u32) <= (y as u32),
            (Datum::Pair(a1, a2), Datum::Pair(b1, b2)) => if *a1 == *b1 {
                datum_le(*a2, *b2)
            } else {
                datum_le(*a1, *b1)
            },
            (Datum::Triple(a1, a2, a3), Datum::Triple(b1, b2, b3)) => if *a1 != *b1 {
                datum_le(*a1, *b1)
            } else if *a2 != *b2 {
                datum_le(*a2, *b2)
            } else {
                datum_le(*a3, *b3)
            },
            (Datum::Just(x), Datum::Just(y)) => datum_le(*x, *y),
            _ => true,
        }
    }
}

pub open spec fn datum_lt(a: Datum, b: Datum) -> bool {
    datum_le(a, b) && a != b
}

/// The order on values is reflexive.
pub proof fn lemma_le_refl(a: Datum)
    ensures
        datum_le(a, a),
    decreases a,
{
    match a {
        Datum::Pair(a1, a2) => {
            lemma_le_refl(*a2);
        },
        Datum::Triple(a1, a2, a3) => {
            lemma_le_refl(*a3);
        },
        Datum::Just(x) => {
            lemma_le_refl(*x);
        },
        _ => {},
    }
}

/// The order on values is total.
pub proof fn lemma_le_total(a: Datum, b: Datum)
    ensures
        datum_le(a, b) || datum_le(b, a),
    decreases a,
{
    if rank(a) == rank(b) {
        match (a, b) {
            (Datum::Pair(a1, a2), Datum::Pair(b1, b2)) => {
                lemma_le_total(*a1, *b1);
                lemma_le_total(*a2, *b2);
            },
            (Datum::Triple(a1, a2, a3), Datum::Triple(b1, b2, b3)) => {
                lemma_le_total(*a1, *b1);
                lemma_le_total(*a2, *b2);
                lemma_le_total(*a3, *b3);
            },
            (Datum::Just(x), Datum::Just(y)) => {
                lemma_le_total(*x, *y);
            },
            _ => {},
        }
    }
}

/// The order on values is antisymmetric.
pub proof fn lemma_le_antisym(a: Datum, b: Datum)
    requires
        datum_le(a, b),
        datum_le(b, a),
    ensures
        a == b,
    decreases a,
{
    match (a, b) {
        (Datum::Pair(a1, a2), Datum::Pair(b1, b2)) => {
            if *a1 == *b1 {
                lemma_le_antisym(*a2, *b2);
            } else {
                lemma_le_antisym(*a1, *b1);
            }
        },
        (Datum::Triple(a1, a2, a3), Datum::Triple(b1, b2, b3)) => {
            if *a1 != *b1 {
                lemma_le_antisym(*a1, *b1);
            } else if *a2 != *b2 {
                lemma_le_antisym(*a2, *b2);
            } else {
                lemma_le_antisym(*a3, *b3);
            }
        },
        (Datum::Just(x), Datum::Just(y)) => {
            lemma_le_antisym(*x, *y);
        },
        (Datum::Char(x), Datum::Char(y)) => {
            assert(x as u32 == y as u32);
            assert(x == y);
        },
        _ => {},
    }
}

/// The order on values is transitive.
pub proof fn lemma_le_trans(a: Datum, b: Datum, c: Datum)
    requires
        datum_le(a, b),
        datum_le(b, c),
    ensures
        datum_le(a, c),
    decreases a,
{
    if rank(a) == rank(b) && rank(b) == rank(c) {
        match (a, b, c) {
            (Datum::Pair(a1, a2), Datum::Pair(b1, b2), Datum::Pair(c1, c2)) => {
                if *a1 == *b1 && *b1 == *c1 {
                    lemma_le_trans(*a2, *b2, *c2);
                } else if *a1 == *b1 || *b1 == *c1 {
                } else {
                    lemma_le_trans(*a1, *b1, *c1);
                    if *a1 == *c1 {
                        lemma_le_antisym(*a1, *b1);
                    }
                }
            },
            (Datum::Triple(a1, a2, a3), Datum::Triple(b1, b2, b3), Datum::Triple(c1, c2, c3)) => {
                if *a1 != *b1 && *b1 != *c1 {
                    lemma_le_trans(*a1, *b1, *c1);
                    if *a1 == *c1 {
                        lemma_le_antisym(*a1, *b1);
                    }
                } else if *a1 != *b1 || *b1 != *c1 {
                } else if *a2 != *b2 && *b2 != *c2 {
                    lemma_le_trans(*a2, *b2, *c2);
                    if *a2 == *c2 {
                        lemma_le_antisym(*a2, *b2);
                    }
                } else if *a2 != *b2 || *b2 != *c2 {
                } else {
                    lemma_le_trans(*a3, *b3, *c3);
                }
            },
            (Datum::Just(x), Datum::Just(y), Datum::Just(z)) => {
                lemma_le_trans(*x, *y, *z);
            },
            _ => {},
        }
    }
}

/// The value that stands for the string `s`: its first character paired
/// with the value of the rest, down to `Nothing` for the empty string.
/// Distinct strings give distinct values.
pub open spec fn text_value(s: Seq<char>) -> Datum
    decreases s.len(),
{
    if s.len() == 0 {
        Datum::Nothing
    } else {
        Datum::Pair(Box::new(Datum::Char(s[0])), Box::new(text_value(s.skip(1))))
    }
}

impl Datum {
    /// Structural equality.
    pub fn equals(&self, other: &Datum) -> (r: bool)
        ensures
            r == (*self == *other),
        decreases self,
    {
        match (self, other) {
            (Datum::Unit, Datum::Unit) => true,
            (Datum::Bool(x), Datum::Bool(y)) => *x == *y,
            (Datum::Int(x), Datum::Int(y)) => *x == *y,
            (Datum::Char(x), Datum::Char(y)) => *x == *y,
            (Datum::Pair(a1, a2), Datum::Pair(b1, b2)) => a1.equals(b1) && a2.equals(b2),
            (Datum::Triple(a1, a2, a3), Datum::Triple(b1, b2, b3)) => a1.equals(b1) && a2.equals(
                b2,
            ) && a3.equals(b3),
            (Datum::Nothing, Datum::Nothing) => true,
            (Datum::Just(x), Datum::Just(y)) => x.equals(y),
            _ => false,
        }
    }

    /// A copy of the value.
    pub fn duplicate(&self) -> (r: Datum)
        ensures
            r == *self,
        decreases self,
    {
        match self {
            Datum::Unit => Datum::Unit,
            Datum::Bool(x) => Datum::Bool(*x),
            Datum::Int(x) => Datum::Int(*x),
            Datum::Char(x) => Datum::Char(*x),
            Datum::Pair(a, b) => Datum::Pair(Box::new(a.duplicate()), Box::new(b.duplicate())),
            Datum::Triple(a, b, c) => Datum::Triple(
                Box::new(a.duplicate()),
                Box::new(b.duplicate()),
                Box::new(c.duplicate()),
            ),
            Datum::Nothing => Datum::Nothing,
            Datum::Just(x) => Datum::Just(Box::new(x.duplicate())),
        }
    }

    /// `self <= other` in the order of values.
    pub fn le(&self, other: &Datum) -> (r: bool)
        ensures
            r == datum_le(*self, *other),
        decreases self,
    {
        let rs = self.rank_of();
        let ro = other.rank_of();
        if rs != ro {
            return rs < ro;
        }
        match (self, other) {
            (Datum::Bool(x), Datum::Bool(y)) => !*x || *y,
            (Datum::Int(x), Datum::Int(y)) => *x <= *y,
            (Datum::Char(x), Datum::Char(y)) => (*x as u32) <= (*y as u32),
            (Datum::Pair(a1, a2), Datum::Pair(b1, b2)) => if a1.equals(b1) {
                a2.le(b2)
            } else {
                a1.le(b1)
            },
            (Datum::Triple(a1, a2, a3), Datum::Triple(b1, b2, b3)) => if !a1.equals(b1) {
                a1.le(b1)
            } else if !a2.equals(b2) {
                a2.le(b2)
            } else {
                a3.le(b3)
            },
            (Datum::Just(x), Datum::Just(y)) => x.le(y),
            _ => true,
        }
    }

    fn rank_of(&self) -> (r: u8)
        ensures
            r == rank(*self),
    {
        match self {
            Datum::Unit => 0,
            Datum::Bool(_) => 1,
            Datum::Int(_) => 2,
            Datum::Char(_) => 3,
            Datum::Pair(_, _) => 4,
            Datum::Triple(_, _, _) => 5,
            Datum::Nothing => 6,
            Datum::Just(_) => 7,
        }
    }

    /// The pair `(a, b)`.
    pub fn pair(a: Datum, b: Datum) -> (r: Datum)
        ensures
            r == Datum::Pair(Box::new(a), Box::new(b)),
    {
        Datum::Pair(Box::new(a), Box::new(b))
    }

    /// The triple `(a, b, c)`.
    /// The value that stands for the string `s` (see `text_value`).
    pub fn text(s: &str) -> (r: Datum)
        ensures
            r == text_value(s@),
    {
        let n = s.unicode_len();
        let mut r = Datum::Nothing;
        let mut i: usize = n;
        assert(s@.skip(n as int) =~= Seq::<char>::empty());
        while i > 0
            invariant
                i <= n,
                n == s@.len(),
                r == text_value(s@.skip(i as int)),
            decreases i,
        {
            let c = s.get_char(i - 1);
            assert(s@.skip(i - 1).skip(1) =~= s@.skip(i as int));
            assert(s@.skip(i - 1)[0] == c);
            r = Datum::pair(Datum::Char(c), r);
            i = i - 1;
        }
        assert(s@.skip(0) =~= s@);
        r
    }

    pub fn triple(a: Datum, b: Datum, c: Datum) -> (r: Datum)
        ensures
            r == Datum::Triple(Box::new(a), Box::new(b), Box::new(c)),
    {
        Datum::Triple(Box::new(a), Box::new(b), Box::new(c))
    }
}

impl PartialEq for Datum {
    fn eq(&self, other: &Datum) -> (r: bool) {
        self.equals(other)
    }
}

impl vstd::std_specs::cmp::PartialEqSpecImpl for Datum {
    open spec fn obeys_eq_spec() -> bool {
        true
    }

    open spec fn eq_spec(&self, other: &Datum) -> bool {
        *self == *other
    }
}

impl Clone for Datum {
    fn clone(&self) -> (r: Datum)
        ensures
            r == *self,
    {
        self.duplicate()
    }
}

/// `(a, b)` as a value.
pub open spec fn mk_pair(a: Datum, b: Datum) -> Datum {
    Datum::Pair(Box::new(a), Box::new(b))
}

/// `(a, b, c)` as a value.
pub open spec fn mk_triple(a: Datum, b: Datum, c: Datum) -> Datum {
    Datum::Triple(Box::new(a), Box::new(b), Box::new(c))
}

} // verus!
