use vstd::prelude::*;
use vstd::string::*;

verus! {

/// The index of a relation in its context's tracker.
pub struct TrackIndex(pub usize);

/// What the tracker knows of one relation.
pub struct TrackingInfo {
    pub name: Option<String>,
    pub kind_name: String,
    pub hidden: bool,
    pub deps: Vec<usize>,
}

/// The relations of a context, for display: their names, kinds and the
/// relations each is computed from.
pub struct ContextTracker {
    pub infos: Vec<TrackingInfo>,
}

/// The relation shown in place of `i`: `i` itself, or, when `i` is hidden,
/// the relation shown in place of its single dependency.
pub open spec fn shown(infos: Seq<TrackingInfo>, i: int) -> int
    decreases i,
{
    if 0 <= i < infos.len() && infos[i].hidden && infos[i].deps@.len() == 1 && 0 <= infos[i].deps@[0] < i {
        shown(infos, infos[i].deps@[0] as int)
    } else {
        i
    }
}

/// `s` with relation `i` of kind `k`, if `k` is given.
pub open spec fn with_kind(s: Seq<TrackingInfo>, i: int, k: Option<String>) -> Seq<TrackingInfo> {
    match k {
        Some(k) => s.update(i, TrackingInfo { name: s[i].name, kind_name: k, hidden: s[i].hidden, deps: s[i].deps }),
        None => s,
    }
}

/// `s` with relation `i` named `n`, if `n` is given.
pub open spec fn with_name(s: Seq<TrackingInfo>, i: int, n: Option<String>) -> Seq<TrackingInfo> {
    match n {
        Some(n) => s.update(i, TrackingInfo { name: Some(n), kind_name: s[i].kind_name, hidden: s[i].hidden, deps: s[i].deps }),
        None => s,
    }
}

/// `s` with relation `i` hidden, if `h` and it has exactly one dependency.
pub open spec fn with_hidden(s: Seq<TrackingInfo>, i: int, h: bool) -> Seq<TrackingInfo> {
    if h && s[i].deps@.len() == 1 {
        s.update(i, TrackingInfo { name: s[i].name, kind_name: s[i].kind_name, hidden: true, deps: s[i].deps })
    } else {
        s
    }
}

/// `s` with relation `i` given its kind and name, hidden if `hidden` (and
/// it has exactly one dependency), and the relation then shown in its place
/// given the shown kind and name.
pub open spec fn labelled(
    s: Seq<TrackingInfo>,
    i: int,
    name: Option<String>,
    kind_name: Option<String>,
    hidden: bool,
    shown_name: Option<String>,
    shown_kind: Option<String>,
) -> Seq<TrackingInfo> {
    let t = with_hidden(with_name(with_kind(s, i, kind_name), i, name), i, hidden);
    let j = shown(t, i);
    with_name(with_kind(t, j, shown_kind), j, shown_name)
}

/// The character of the decimal digit `d`.
pub open spec fn digit_char(d: nat) -> char {
    if d == 0 {
        '0'
    } else if d == 1 {
        '1'
    } else if d == 2 {
        '2'
    } else if d == 3 {
        '3'
    } else if d == 4 {
        '4'
    } else if d == 5 {
        '5'
    } else if d == 6 {
        '6'
    } else if d == 7 {
        '7'
    } else if d == 8 {
        '8'
    } else {
        '9'
    }
}

/// The decimal digits of `n`, most significant first.
pub open spec fn decimal(n: nat) -> Seq<char>
    decreases n,
{
    if n < 10 {
        seq![digit_char(n)]
    } else {
        decimal(n / 10).push(digit_char(n % 10))
    }
}

/// The name a relation has until it is given one: `relation` followed by
/// its index.
pub open spec fn default_name(i: nat) -> Seq<char> {
    seq!['r', 'e', 'l', 'a', 't', 'i', 'o', 'n'] + decimal(i)
}

/// The one-character string of the decimal digit `d`.
fn digit_str(d: usize) -> (r: &'static str)
    requires
        d < 10,
    ensures
        r@ == seq![digit_char(d as nat)],
{
    if d == 0 {
        proof {
            reveal_strlit("0");
        }
        "0"
    } else if d == 1 {
        proof {
            reveal_strlit("1");
        }
        "1"
    } else if d == 2 {
        proof {
            reveal_strlit("2");
        }
        "2"
    } else if d == 3 {
        proof {
            reveal_strlit("3");
        }
        "3"
    } else if d == 4 {
        proof {
            reveal_strlit("4");
        }
        "4"
    } else if d == 5 {
        proof {
            reveal_strlit("5");
        }
        "5"
    } else if d == 6 {
        proof {
            reveal_strlit("6");
        }
        "6"
    } else if d == 7 {
        proof {
            reveal_strlit("7");
        }
        "7"
    } else if d == 8 {
        proof {
            reveal_strlit("8");
        }
        "8"
    } else {
        proof {
            reveal_strlit("9");
        }
        "9"
    }
}

/// `n` written in decimal.
pub fn decimal_string(n: usize) -> (r: String)
    ensures
        r@ == decimal(n as nat),
    decreases n,
{
    if n < 10 {
        let mut s = String::new();
        s.append(digit_str(n));
        assert(s@ =~= decimal(n as nat));
        s
    } else {
        let mut s = decimal_string(n / 10);
        s.append(digit_str(n % 10));
        s
    }
}

/// The name of relation `i` until it is given one.
pub fn default_name_string(i: usize) -> (r: String)
    ensures
        r@ == default_name(i as nat),
{
    let mut s = "relation".to_owned();
    proof {
        reveal_strlit("relation");
    }
    let d = decimal_string(i);
    s.append(d.as_str());
    assert(s@ =~= default_name(i as nat));
    s
}

impl ContextTracker {
    /// Every relation depends on earlier ones only, and a hidden relation has
    /// exactly one dependency.
    pub open spec fn wf(&self) -> bool {
        forall|i: int| 0 <= i < self.infos@.len() ==> {
            &&& forall|j: int| 0 <= j < (#[trigger] self.infos@[i]).deps@.len() ==> #[trigger] self.infos@[i].deps@[j]
                < i
            &&& self.infos@[i].hidden ==> self.infos@[i].deps@.len() == 1
        }
    }

    pub fn new() -> (r: ContextTracker)
        ensures
            r.wf(),
            r.infos@.len() == 0,
    {
        ContextTracker { infos: Vec::new() }
    }

    /// Records a new relation of kind `kind_name`, computed from `deps`,
    /// named by its index until it is given a name.
    pub fn add_relation(&mut self, kind_name: String, deps: Vec<usize>) -> (r: TrackIndex)
        requires
            old(self).wf(),
            forall|j: int| 0 <= j < deps@.len() ==> #[trigger] deps@[j] < old(self).infos@.len(),
        ensures
            final(self).wf(),
            r.0 == old(self).infos@.len(),
            final(self).infos@.len() == old(self).infos@.len() + 1,
            final(self).infos@[r.0 as int].kind_name@ == kind_name@,
            final(self).infos@[r.0 as int].name matches Some(n) && n@ == default_name(r.0 as nat),
            !final(self).infos@[r.0 as int].hidden,
            final(self).infos@[r.0 as int].deps@ == deps@,
            forall|i: int| 0 <= i < old(self).infos@.len() ==> #[trigger] final(self).infos@[i] == old(self).infos@[i],
    {
        let i = self.infos.len();
        let name = default_name_string(i);
        self.infos.push(TrackingInfo { name: Some(name), kind_name, hidden: false, deps });
        proof {
            assert forall|a: int| 0 <= a < self.infos@.len() implies {
                &&& forall|j: int| 0 <= j < (#[trigger] self.infos@[a]).deps@.len() ==> #[trigger] self.infos@[a].deps@[j]
                    < a
                &&& self.infos@[a].hidden ==> self.infos@[a].deps@.len() == 1
            } by {
                if a < i {
                    assert(self.infos@[a] == old(self).infos@[a]);
                }
            }
        }
        TrackIndex(i)
    }

    /// The relation shown in place of `i`.
    pub fn find_shown_index(&self, i: usize) -> (r: TrackIndex)
        requires
            self.wf(),
            i < self.infos@.len(),
        ensures
            r.0 == shown(self.infos@, i as int),
            r.0 <= i,
            !self.infos@[r.0 as int].hidden,
    {
        let mut ind = i;
        while self.infos[ind].hidden
            invariant
                self.wf(),
                ind <= i < self.infos@.len(),
                shown(self.infos@, ind as int) == shown(self.infos@, i as int),
            decreases ind,
        {
            ind = self.infos[ind].deps[0];
        }
        TrackIndex(ind)
    }

    /// Names relation `i`.
    pub fn set_name(&mut self, i: usize, name: String)
        requires
            old(self).wf(),
            i < old(self).infos@.len(),
        ensures
            final(self).wf(),
            final(self).infos@.len() == old(self).infos@.len(),
            final(self).infos@[i as int].name == Some(name),
            final(self).infos@[i as int].kind_name == old(self).infos@[i as int].kind_name,
            final(self).infos@[i as int].hidden == old(self).infos@[i as int].hidden,
            final(self).infos@[i as int].deps == old(self).infos@[i as int].deps,
            forall|a: int| 0 <= a < old(self).infos@.len() && a != i ==> #[trigger] final(self).infos@[a] == old(self).infos@[a],
    {
        let mut info = TrackingInfo { name: None, kind_name: String::new(), hidden: false, deps: Vec::new() };
        std::mem::swap(&mut info, &mut self.infos[i]);
        info.name = Some(name);
        std::mem::swap(&mut info, &mut self.infos[i]);
        proof {
            self.lemma_wf_after_edit(*old(self), i as int);
        }
    }

    /// Gives relation `i` the kind `kind_name`.
    pub fn set_kind_name(&mut self, i: usize, kind_name: String)
        requires
            old(self).wf(),
            i < old(self).infos@.len(),
        ensures
            final(self).wf(),
            final(self).infos@.len() == old(self).infos@.len(),
            final(self).infos@[i as int].kind_name == kind_name,
            final(self).infos@[i as int].name == old(self).infos@[i as int].name,
            final(self).infos@[i as int].hidden == old(self).infos@[i as int].hidden,
            final(self).infos@[i as int].deps == old(self).infos@[i as int].deps,
            forall|a: int| 0 <= a < old(self).infos@.len() && a != i ==> #[trigger] final(self).infos@[a] == old(self).infos@[a],
    {
        let mut info = TrackingInfo { name: None, kind_name: String::new(), hidden: false, deps: Vec::new() };
        std::mem::swap(&mut info, &mut self.infos[i]);
        info.kind_name = kind_name;
        std::mem::swap(&mut info, &mut self.infos[i]);
        proof {
            self.lemma_wf_after_edit(*old(self), i as int);
        }
    }

    /// Hides relation `i`, which has exactly one dependency.
    pub fn set_hidden(&mut self, i: usize)
        requires
            old(self).wf(),
            i < old(self).infos@.len(),
            old(self).infos@[i as int].deps@.len() == 1,
        ensures
            final(self).wf(),
            final(self).infos@.len() == old(self).infos@.len(),
            final(self).infos@[i as int].hidden,
            final(self).infos@[i as int].name == old(self).infos@[i as int].name,
            final(self).infos@[i as int].kind_name == old(self).infos@[i as int].kind_name,
            final(self).infos@[i as int].deps == old(self).infos@[i as int].deps,
            forall|a: int| 0 <= a < old(self).infos@.len() && a != i ==> #[trigger] final(self).infos@[a] == old(self).infos@[a],
    {
        let mut info = TrackingInfo { name: None, kind_name: String::new(), hidden: false, deps: Vec::new() };
        std::mem::swap(&mut info, &mut self.infos[i]);
        info.hidden = true;
        std::mem::swap(&mut info, &mut self.infos[i]);
        proof {
            self.lemma_wf_after_edit(*old(self), i as int);
        }
    }

    proof fn lemma_wf_after_edit(&self, prev: ContextTracker, i: int)
        requires
            prev.wf(),
            0 <= i < prev.infos@.len(),
            self.infos@.len() == prev.infos@.len(),
            self.infos@[i].deps == prev.infos@[i].deps,
            self.infos@[i].hidden ==> self.infos@[i].deps@.len() == 1,
            forall|a: int| 0 <= a < prev.infos@.len() && a != i ==> #[trigger] self.infos@[a] == prev.infos@[a],
        ensures
            self.wf(),
    {
        assert forall|a: int| 0 <= a < self.infos@.len() implies {
            &&& forall|j: int| 0 <= j < (#[trigger] self.infos@[a]).deps@.len() ==> #[trigger] self.infos@[a].deps@[j]
                < a
            &&& self.infos@[a].hidden ==> self.infos@[a].deps@.len() == 1
        } by {
            if a != i {
                assert(self.infos@[a] == prev.infos@[a]);
            } else {
                assert(prev.infos@[a].deps == self.infos@[a].deps);
                assert forall|j: int| 0 <= j < self.infos@[a].deps@.len() implies #[trigger] self.infos@[a].deps@[j] < a by {
                    assert(prev.infos@[a].deps@[j] < a);
                }
            }
        }
    }
}

} // verus!
