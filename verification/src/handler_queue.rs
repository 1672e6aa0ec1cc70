use vstd::prelude::*;

verus! {

/// Position of a handler in its queue.
pub type HandlerPosition = usize;

/// An input's handler: moves the input's pending changes on at commit.
pub struct Handler {
    pub input: usize,
    pub is_queued: bool,
}

/// The handlers of a context, and the order in which those with pending
/// changes were first queued since the last commit.
pub struct HandlerQueue {
    pub handlers: Vec<Handler>,
    pub queued_handler_inds: Vec<usize>,
}

impl HandlerQueue {
    /// Each handler is queued at most once, and a handler is marked queued
    /// exactly when it is in the queue.
    pub open spec fn wf(&self) -> bool {
        &&& self.queued_handler_inds@.no_duplicates()
        &&& forall|j: int| 0 <= j < self.queued_handler_inds@.len() ==> #[trigger] self.queued_handler_inds@[j]
            < self.handlers@.len()
        &&& forall|i: usize| i < self.handlers@.len() ==> (#[trigger] self.handlers@[i as int].is_queued
            <==> self.queued_handler_inds@.contains(i))
    }

    pub open spec fn inputs(&self) -> Seq<usize> {
        self.handlers@.map_values(|h: Handler| h.input)
    }

    /// An empty queue.
    pub fn new() -> (r: HandlerQueue)
        ensures
            r.wf(),
            r.handlers@.len() == 0,
            r.queued_handler_inds@.len() == 0,
    {
        HandlerQueue { handlers: Vec::new(), queued_handler_inds: Vec::new() }
    }

    /// Adds the handler of `input`, not queued, and returns its position.
    pub fn add_handler(&mut self, input: usize) -> (r: HandlerPosition)
        requires
            old(self).wf(),
        ensures
            final(self).wf(),
            r == old(self).handlers@.len(),
            final(self).inputs() == old(self).inputs().push(input),
            final(self).queued_handler_inds == old(self).queued_handler_inds,
    {
        let pos = self.handlers.len();
        self.handlers.push(Handler { input, is_queued: false });
        proof {
            assert(final(self).inputs() =~= old(self).inputs().push(input));
            assert forall|i: usize| i < self.handlers@.len() implies (#[trigger] self.handlers@[i as int].is_queued
                <==> self.queued_handler_inds@.contains(i)) by {
                if i == pos {
                    if self.queued_handler_inds@.contains(i) {
                        let j = choose|j: int| 0 <= j < self.queued_handler_inds@.len() && self.queued_handler_inds@[j] == i;
                        assert(self.queued_handler_inds@[j] < old(self).handlers@.len());
                    }
                } else {
                    assert(self.handlers@[i as int] == old(self).handlers@[i as int]);
                }
            }
        }
        pos
    }

    /// Queues handler `i` unless it is queued already.
    pub fn enqueue(&mut self, i: HandlerPosition)
        requires
            old(self).wf(),
            i < old(self).handlers@.len(),
        ensures
            final(self).wf(),
            final(self).inputs() == old(self).inputs(),
            final(self).queued_handler_inds@ == if old(self).queued_handler_inds@.contains(i) {
                old(self).queued_handler_inds@
            } else {
                old(self).queued_handler_inds@.push(i)
            },
    {
        if !self.handlers[i].is_queued {
            let input = self.handlers[i].input;
            self.handlers.set(i, Handler { input, is_queued: true });
            self.queued_handler_inds.push(i);
            proof {
                assert(final(self).inputs() =~= old(self).inputs());
                assert forall|a: usize| a < self.handlers@.len() implies (#[trigger] self.handlers@[a as int].is_queued
                    <==> self.queued_handler_inds@.contains(a)) by {
                    if a != i {
                        assert(self.handlers@[a as int] == old(self).handlers@[a as int]);
                        if self.queued_handler_inds@.contains(a) {
                            let j = choose|j: int| 0 <= j < self.queued_handler_inds@.len() && self.queued_handler_inds@[j] == a;
                            if j == old(self).queued_handler_inds@.len() {
                                assert(self.queued_handler_inds@[j] == i);
                            }
                            assert(old(self).queued_handler_inds@[j] == a);
                        }
                        if old(self).queued_handler_inds@.contains(a) {
                            let j = choose|j: int| 0 <= j < old(self).queued_handler_inds@.len() && old(self).queued_handler_inds@[j] == a;
                            assert(self.queued_handler_inds@[j] == a);
                        }
                    } else {
                        assert(self.queued_handler_inds@.last() == i);
                    }
                }
            }
        }
    }

    /// Takes the queue: the positions of the queued handlers, in the order in
    /// which they were first queued. Every handler is unqueued afterwards.
    pub fn take_queued(&mut self) -> (r: Vec<HandlerPosition>)
        requires
            old(self).wf(),
        ensures
            final(self).wf(),
            r@ == old(self).queued_handler_inds@,
            final(self).inputs() == old(self).inputs(),
            final(self).queued_handler_inds@.len() == 0,
    {
        let mut j: usize = 0;
        let ghost q = self.queued_handler_inds@;
        assert(q.subrange(0, q.len() as int) =~= q);
        while j < self.queued_handler_inds.len()
            invariant
                j <= q.len(),
                q == self.queued_handler_inds@,
                q.no_duplicates(),
                forall|a: int| 0 <= a < q.len() ==> #[trigger] q[a] < self.handlers@.len(),
                self.handlers@.len() == old(self).handlers@.len(),
                self.inputs() == old(self).inputs(),
                forall|i: usize| i < self.handlers@.len() ==> (#[trigger] self.handlers@[i as int].is_queued
                    <==> q.subrange(j as int, q.len() as int).contains(i)),
            decreases q.len() - j,
        {
            let i = self.queued_handler_inds[j];
            let input = self.handlers[i].input;
            let ghost before = self.handlers@;
            self.handlers.set(i, Handler { input, is_queued: false });
            proof {
                assert(self.inputs() =~= old(self).inputs()) by {
                    assert(before.map_values(|h: Handler| h.input) =~= old(self).inputs());
                }
                assert forall|a: usize| a < self.handlers@.len() implies (#[trigger] self.handlers@[a as int].is_queued
                    <==> q.subrange(j as int + 1, q.len() as int).contains(a)) by {
                    let rest = q.subrange(j as int + 1, q.len() as int);
                    let cur = q.subrange(j as int, q.len() as int);
                    if a == i {
                        if rest.contains(a) {
                            let b = choose|b: int| 0 <= b < rest.len() && rest[b] == a;
                            assert(q[j as int + 1 + b] == q[j as int]);
                        }
                    } else {
                        assert(self.handlers@[a as int] == before[a as int]);
                        if rest.contains(a) {
                            let b = choose|b: int| 0 <= b < rest.len() && rest[b] == a;
                            assert(cur[b + 1] == a);
                        }
                        if cur.contains(a) {
                            let b = choose|b: int| 0 <= b < cur.len() && cur[b] == a;
                            assert(cur[0] == i);
                            assert(b != 0);
                            assert(rest[b - 1] == a);
                        }
                    }
                }
            }
            j = j + 1;
        }
        let mut taken = Vec::new();
        std::mem::swap(&mut taken, &mut self.queued_handler_inds);
        proof {
            assert forall|i: usize| i < self.handlers@.len() implies (#[trigger] self.handlers@[i as int].is_queued
                <==> self.queued_handler_inds@.contains(i)) by {
                assert(q.subrange(q.len() as int, q.len() as int) =~= Seq::<usize>::empty());
            }
        }
        taken
    }
}

} // verus!
