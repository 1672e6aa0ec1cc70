use vstd::prelude::*;

verus! {

/// The sending end of a pipe kept in a `Pipes` store.
pub struct Sender {
    pub id: usize,
}

/// The receiving end of a pipe kept in a `Pipes` store.
pub struct Receiver {
    pub id: usize,
}

/// Buffers of items sent but not yet received, one per pipe, with
/// everything ever sent through each pipe.
pub struct Pipes<T> {
    pub buffers: Vec<Vec<T>>,
    pub sent: Ghost<Seq<Seq<T>>>,
}

impl<T> Pipes<T> {
    pub fn empty() -> (r: Pipes<T>)
        ensures
            r.buffers@.len() == 0,
            r.sent@.len() == 0,
    {
        Pipes { buffers: Vec::new(), sent: Ghost(Seq::empty()) }
    }

    /// The items waiting in pipe `id`.
    pub open spec fn pending(&self, id: usize) -> Seq<T> {
        self.buffers@[id as int]@
    }
}

/// A new pipe: what is sent through the first end is received through the second.
pub fn new<T>(pipes: &mut Pipes<T>) -> (r: (Sender, Receiver))
    ensures
        r.0.id == r.1.id,
        r.0.id == old(pipes).buffers@.len(),
        final(pipes).buffers@.len() == old(pipes).buffers@.len() + 1,
        final(pipes).pending(r.0.id) == Seq::<T>::empty(),
        forall|i: usize| i < old(pipes).buffers@.len() ==> #[trigger] final(pipes).pending(i) == old(pipes).pending(i),
        final(pipes).sent@ == old(pipes).sent@.push(Seq::empty()),
{
    let id = pipes.buffers.len();
    pipes.buffers.push(Vec::new());
    proof {
        pipes.sent@ = pipes.sent@.push(Seq::empty());
        assert forall|i: usize| i < old(pipes).buffers@.len() implies #[trigger] pipes.pending(i) == old(pipes).pending(i) by {
            assert(pipes.buffers@[i as int] == old(pipes).buffers@[i as int]);
        }
    }
    (Sender { id }, Receiver { id })
}

impl Sender {
    /// Appends `data` to the pipe.
    pub fn send<T>(&self, pipes: &mut Pipes<T>, data: T)
        requires
            self.id < old(pipes).buffers@.len(),
        ensures
            final(pipes).buffers@.len() == old(pipes).buffers@.len(),
            final(pipes).pending(self.id) == old(pipes).pending(self.id).push(data),
            forall|i: usize| i != self.id && i < old(pipes).buffers@.len() ==> #[trigger] final(pipes).pending(i) == old(pipes).pending(i),
            final(pipes).sent@ == old(pipes).sent@.update(self.id as int, old(pipes).sent@[self.id as int].push(data)),
    {
        proof {
            pipes.sent@ = pipes.sent@.update(self.id as int, pipes.sent@[self.id as int].push(data));
        }
        let mut b = Vec::new();
        std::mem::swap(&mut b, &mut pipes.buffers[self.id]);
        b.push(data);
        std::mem::swap(&mut b, &mut pipes.buffers[self.id]);
    }

    /// Appends every item of `data` to the pipe, in order.
    pub fn send_all<T>(&self, pipes: &mut Pipes<T>, data: Vec<T>)
        requires
            self.id < old(pipes).buffers@.len(),
        ensures
            final(pipes).buffers@.len() == old(pipes).buffers@.len(),
            final(pipes).pending(self.id) == old(pipes).pending(self.id) + data@,
            forall|i: usize| i != self.id && i < old(pipes).buffers@.len() ==> #[trigger] final(pipes).pending(i) == old(pipes).pending(i),
            final(pipes).sent@ == old(pipes).sent@.update(self.id as int, old(pipes).sent@[self.id as int] + data@),
    {
        proof {
            pipes.sent@ = pipes.sent@.update(self.id as int, pipes.sent@[self.id as int] + data@);
        }
        let mut data = data;
        let mut b = Vec::new();
        std::mem::swap(&mut b, &mut pipes.buffers[self.id]);
        b.append(&mut data);
        std::mem::swap(&mut b, &mut pipes.buffers[self.id]);
    }
}

impl Receiver {
    /// Takes every item waiting in the pipe, leaving it empty.
    pub fn receive<T>(&self, pipes: &mut Pipes<T>) -> (r: Vec<T>)
        requires
            self.id < old(pipes).buffers@.len(),
        ensures
            r@ == old(pipes).pending(self.id),
            final(pipes).buffers@.len() == old(pipes).buffers@.len(),
            final(pipes).pending(self.id) == Seq::<T>::empty(),
            forall|i: usize| i != self.id && i < old(pipes).buffers@.len() ==> #[trigger] final(pipes).pending(i) == old(pipes).pending(i),
            final(pipes).sent == old(pipes).sent,
    {
        let mut b = Vec::new();
        std::mem::swap(&mut b, &mut pipes.buffers[self.id]);
        b
    }
}

/// Counts how many items went through each relation.
pub struct Counters {
    pub counts: Vec<usize>,
}

/// Increments one counter of a `Counters` store.
pub struct CountSender {
    pub id: usize,
}

/// Reads one counter of a `Counters` store.
pub struct CountReceiver {
    pub id: usize,
}

/// A new counter, at zero.
pub fn new_count(counters: &mut Counters) -> (r: (CountSender, CountReceiver))
    ensures
        r.0.id == r.1.id,
        r.0.id == old(counters).counts@.len(),
        final(counters).counts@ == old(counters).counts@.push(0),
{
    let id = counters.counts.len();
    counters.counts.push(0);
    (CountSender { id }, CountReceiver { id })
}

impl CountSender {
    /// Adds one to the counter; a counter at `usize::MAX` stays there.
    pub fn increment(&self, counters: &mut Counters)
        requires
            self.id < old(counters).counts@.len(),
        ensures
            final(counters).counts@ == old(counters).counts@.update(
                self.id as int,
                if old(counters).counts@[self.id as int] == usize::MAX {
                    usize::MAX
                } else {
                    (old(counters).counts@[self.id as int] + 1) as usize
                },
            ),
    {
        let c = counters.counts[self.id];
        counters.counts.set(self.id, c.saturating_add(1));
    }
}

impl CountReceiver {
    /// The value of the counter.
    pub fn get(&self, counters: &Counters) -> (r: usize)
        requires
            self.id < counters.counts@.len(),
        ensures
            r == counters.counts@[self.id as int],
    {
        counters.counts[self.id]
    }
}

} // verus!
