//! A first-in first-out queue: a singly linked list of entries with a pointer to
//! its head and one to its tail, the entries held in a table whose freed slots
//! are reused.
use vstd::prelude::*;

verus! {

/// One queued value and the link to the entry queued after it.
pub struct QueueEnt<T> {
    next: Option<usize>,
    value: Option<T>,
}

/// A first-in first-out queue of values.
pub struct Queue<T> {
    ents: Vec<QueueEnt<T>>,
    head: Option<usize>,
    tail: Option<usize>,
    free: Vec<usize>,
    chain: Ghost<Seq<usize>>,
}

/// Whether `ents`, `head` and `tail` link the entries in the slots `chain`, in
/// order: `head` is the first slot, `tail` the last, each entry's link is the next
/// slot and the last entry's link is empty; every such entry holds a value, no
/// slot occurs twice, and the free slots, each listed once, are none of them.
spec fn linked<T>(
    ents: Seq<QueueEnt<T>>,
    head: Option<usize>,
    tail: Option<usize>,
    free: Seq<usize>,
    chain: Seq<usize>,
) -> bool {
    &&& forall|k: int| 0 <= k < chain.len() ==> #[trigger] chain[k] < ents.len() && ents[chain[k] as int].value is Some
    &&& chain.no_duplicates()
    &&& head == (if chain.len() == 0 { None } else { Some(chain[0]) })
    &&& tail == (if chain.len() == 0 { None } else { Some(chain.last()) })
    &&& forall|k: int| 0 <= k < chain.len() - 1 ==> ents[#[trigger] chain[k] as int].next == Some(chain[k + 1])
    &&& chain.len() > 0 ==> ents[chain.last() as int].next is None
    &&& forall|k: int| 0 <= k < free.len() ==> #[trigger] free[k] < ents.len() && !chain.contains(free[k])
    &&& free.no_duplicates()
}

/// The values held in the entries of the slots `chain`, in order.
spec fn chain_values<T>(ents: Seq<QueueEnt<T>>, chain: Seq<usize>) -> Seq<T> {
    Seq::new(chain.len(), |k: int| ents[chain[k] as int].value->0)
}

impl<T> Queue<T> {
    #[verifier::type_invariant]
    spec fn well_linked(&self) -> bool {
        linked(self.ents@, self.head, self.tail, self.free@, self.chain@)
    }
}

impl<T> View for Queue<T> {
    type V = Seq<T>;

    /// The queued values, the oldest first.
    closed spec fn view(&self) -> Seq<T> {
        chain_values(self.ents@, self.chain@)
    }
}

/// The queue after `value` is pushed onto one holding `s`.
pub open spec fn pushed<T>(s: Seq<T>, value: T) -> Seq<T> {
    s.push(value)
}

/// What popping a queue holding `s` gives, and what remains.
pub open spec fn popped<T>(s: Seq<T>) -> (Option<T>, Seq<T>) {
    if s.len() == 0 {
        (None, s)
    } else {
        (Some(s[0]), s.drop_first())
    }
}

impl<T> Queue<T> {
    /// An empty queue.
    pub fn new() -> (q: Queue<T>)
        ensures
            q@ == Seq::<T>::empty(),
    {
        let q = Queue { ents: Vec::new(), head: None, tail: None, free: Vec::new(), chain: Ghost(Seq::empty()) };
        proof {
            assert(q@ =~= Seq::<T>::empty());
        }
        q
    }

    /// Adds `value` at the back: a new entry, linked behind the tail.
    pub fn push(&mut self, value: T)
        ensures
            final(self)@ == pushed(old(self)@, value),
    {
        proof {
            use_type_invariant(&*self);
        }
        let mut q = Queue::new();
        std::mem::swap(self, &mut q);
        proof {
            use_type_invariant(&q);
        }
        let Queue { mut ents, head, tail, mut free, chain } = q;
        let ghost c = chain@;
        let ghost e0 = ents@;
        let ghost f0 = free@;
        let slot = match free.pop() {
            Some(f) => {
                proof {
                    assert(f == f0[f0.len() - 1]);
                }
                ents.set(f, QueueEnt { next: None, value: Some(value) });
                f
            },
            None => {
                ents.push(QueueEnt { next: None, value: Some(value) });
                ents.len() - 1
            },
        };
        proof {
            assert(!c.contains(slot));
            assert forall|k: int| 0 <= k < c.len() implies ents@[#[trigger] c[k] as int] == e0[c[k] as int] by {
                assert(c[k] != slot);
            }
            assert forall|k: int| 0 <= k < free@.len() implies #[trigger] free@[k] < ents@.len() && !c.contains(
                free@[k],
            ) && free@[k] != slot by {
                assert(free@[k] == f0[k]);
            }
        }
        let new_tail = match tail {
            Some(t) => {
                let mut e = QueueEnt { next: None, value: None };
                std::mem::swap(&mut e, &mut ents[t]);
                e.next = Some(slot);
                ents.set(t, e);
                Some(slot)
            },
            None => Some(slot),
        };
        let new_head = match head {
            Some(h) => Some(h),
            None => Some(slot),
        };
        let ghost c2 = c.push(slot);
        proof {
            assert(c2.no_duplicates()) by {
                assert forall|a: int, b: int| 0 <= a < c2.len() && 0 <= b < c2.len() && a != b implies c2[a]
                    != c2[b] by {
                    if a < c.len() && b < c.len() {
                        assert(c2[a] == c[a] && c2[b] == c[b]);
                    } else if a < c.len() {
                        assert(c.contains(c2[a]));
                    } else if b < c.len() {
                        assert(c.contains(c2[b]));
                    }
                }
            }
        }
        let ghost ents2 = ents@;
        *self = Queue { ents, head: new_head, tail: new_tail, free, chain: Ghost(c2) };
        proof {
            assert(self@ =~= pushed(old(self)@, value)) by {
                assert forall|k: int| 0 <= k < c.len() implies #[trigger] ents2[c[k] as int].value == e0[c[k] as int].value by {
                }
            }
        }
    }

    /// Takes the value at the front, if any: the head entry is unlinked and its slot
    /// freed.
    pub fn pop(&mut self) -> (r: Option<T>)
        ensures
            (r, final(self)@) == popped(old(self)@),
    {
        proof {
            use_type_invariant(&*self);
        }
        match self.head {
            None => {
                proof {
                    assert(old(self)@ =~= Seq::<T>::empty());
                }
                None
            },
            Some(h) => {
                let mut q = Queue::new();
                std::mem::swap(self, &mut q);
                proof {
                    use_type_invariant(&q);
                }
                let Queue { mut ents, head, tail, mut free, chain } = q;
                let ghost c = chain@;
                let ghost e0 = ents@;
                let ghost f0 = free@;
                let mut e = QueueEnt { next: None, value: None };
                std::mem::swap(&mut e, &mut ents[h]);
                let ghost c2 = c.drop_first();
                proof {
                    assert(c[0] == h);
                    assert forall|k: int| 0 <= k < c2.len() implies ents@[#[trigger] c2[k] as int] == e0[c2[k] as int] by {
                        assert(c2[k] == c[k + 1]);
                    }
                }
                let new_tail = if e.next.is_none() {
                    None
                } else {
                    tail
                };
                free.push(h);
                proof {
                    assert forall|k: int| 0 <= k < free@.len() implies #[trigger] free@[k] < ents@.len() && !c2.contains(
                        free@[k],
                    ) by {
                        if k < f0.len() {
                            assert(free@[k] == f0[k]);
                            if c2.contains(free@[k]) {
                                let j = choose|j: int| 0 <= j < c2.len() && c2[j] == free@[k];
                                assert(c[j + 1] == free@[k]);
                            }
                        } else {
                            if c2.contains(h) {
                                let j = choose|j: int| 0 <= j < c2.len() && c2[j] == h;
                                assert(c[j + 1] == c[0]);
                            }
                        }
                    }
                    assert(c2.no_duplicates()) by {
                        assert forall|a: int, b: int| 0 <= a < c2.len() && 0 <= b < c2.len() && a != b implies c2[a]
                            != c2[b] by {
                            assert(c2[a] == c[a + 1] && c2[b] == c[b + 1]);
                        }
                    }
                    assert(free@.no_duplicates()) by {
                        assert(!f0.contains(h)) by {
                            if f0.contains(h) {
                                let j = choose|j: int| 0 <= j < f0.len() && f0[j] == h;
                                assert(!c.contains(f0[j]));
                                assert(c[0] == h);
                            }
                        }
                        assert forall|a: int, b: int| 0 <= a < free@.len() && 0 <= b < free@.len() && a != b implies free@[a]
                            != free@[b] by {
                            if a < f0.len() && b < f0.len() {
                                assert(free@[a] == f0[a] && free@[b] == f0[b]);
                            } else if a < f0.len() {
                                assert(f0.contains(free@[a]));
                            } else if b < f0.len() {
                                assert(f0.contains(free@[b]));
                            }
                        }
                    }
                    if c.len() > 1 {
                        assert(e.next == Some(c[1]));
                    }
                }
                let ghost ents2 = ents@;
                *self = Queue { ents, head: e.next, tail: new_tail, free, chain: Ghost(c2) };
                proof {
                    assert(self@ =~= old(self)@.drop_first()) by {
                        assert forall|k: int| 0 <= k < c2.len() implies #[trigger] ents2[c2[k] as int].value
                            == e0[c[k + 1] as int].value by {
                            assert(c2[k] == c[k + 1]);
                        }
                    }
                }
                e.value
            },
        }
    }

    /// Whether the queue holds nothing.
    pub fn empty(&self) -> (r: bool)
        ensures
            r == (self@.len() == 0),
    {
        proof {
            use_type_invariant(self);
        }
        self.head.is_none()
    }

    /// A cursor over the queued values, front to back, following the links from the
    /// head.
    pub fn items<'s>(&'s self) -> (r: Items<'s, T>)
        ensures
            r.queue() == self,
            r.position() == 0,
    {
        proof {
            use_type_invariant(self);
        }
        Items { queue: self, cur: self.head, pos: Ghost(0) }
    }
}

/// A cursor over a queue's values, front to back.
pub struct Items<'s, T> {
    queue: &'s Queue<T>,
    cur: Option<usize>,
    pos: Ghost<nat>,
}

impl<'s, T> Items<'s, T> {
    #[verifier::type_invariant]
    spec fn at_position(&self) -> bool {
        let c = self.queue.chain@;
        &&& self.pos@ <= c.len()
        &&& self.cur == (if self.pos@ < c.len() { Some(c[self.pos@ as int]) } else { None })
    }

    /// The queue it walks.
    pub closed spec fn queue(&self) -> &'s Queue<T> {
        self.queue
    }

    /// How many values it has handed out.
    pub closed spec fn position(&self) -> nat {
        self.pos@
    }

    /// The next value, if any is left.
    pub fn next(&mut self) -> (r: Option<&'s T>)
        ensures
            final(self).queue() == old(self).queue(),
            old(self).position() < old(self).queue()@.len() ==> r == Some(
                &old(self).queue()@[old(self).position() as int],
            ) && final(self).position() == old(self).position() + 1,
            old(self).position() >= old(self).queue()@.len() ==> r is None && final(self).position()
                == old(self).position(),
    {
        proof {
            use_type_invariant(&*self);
            use_type_invariant(self.queue);
        }
        let queue = self.queue;
        match self.cur {
            Some(i) => {
                let ghost p = self.pos@;
                let ghost c = queue.chain@;
                let ent = &queue.ents[i];
                let ghost np = p + 1;
                proof {
                    if np < c.len() {
                        assert(ent.next == Some(c[np as int]));
                    }
                }
                *self = Items { queue, cur: ent.next, pos: Ghost(np) };
                match &ent.value {
                    Some(v) => Some(v),
                    None => {
                        proof {
                            assert(false);
                        }
                        None
                    },
                }
            },
            None => None,
        }
    }
}

/// First in, first out: pushing a value onto a queue and then popping gives the
/// front value if there was one (and the pushed value stays queued behind the
/// rest), or else the pushed value itself.
pub proof fn lemma_fifo<T>(s: Seq<T>, value: T)
    ensures
        s.len() > 0 ==> popped(pushed(s, value)) == (Some(s[0]), pushed(popped(s).1, value)),
        s.len() == 0 ==> popped(pushed(s, value)) == (Some(value), Seq::<T>::empty()),
{
    if s.len() > 0 {
        assert(s.push(value).drop_first() =~= s.drop_first().push(value));
    } else {
        assert(s.push(value).drop_first() =~= Seq::<T>::empty());
    }
}

/// Values pushed one by one onto an empty queue are all that it holds, in the order
/// they were pushed.
pub proof fn lemma_push_run<T>(states: Seq<Seq<T>>, vs: Seq<T>)
    requires
        states.len() == vs.len() + 1,
        states[0] == Seq::<T>::empty(),
        forall|k: int| 0 <= k < vs.len() ==> #[trigger] states[k + 1] == pushed(states[k], vs[k]),
    ensures
        states[vs.len() as int] == vs,
{
    assert forall|k: int| 0 <= k <= vs.len() implies #[trigger] states[k] == vs.take(k) by {
        lemma_push_prefix(states, vs, k);
    }
    assert(vs.take(vs.len() as int) == vs);
}

proof fn lemma_push_prefix<T>(states: Seq<Seq<T>>, vs: Seq<T>, k: int)
    requires
        states.len() == vs.len() + 1,
        states[0] == Seq::<T>::empty(),
        forall|k: int| 0 <= k < vs.len() ==> #[trigger] states[k + 1] == pushed(states[k], vs[k]),
        0 <= k <= vs.len(),
    ensures
        states[k] == vs.take(k),
    decreases k,
{
    if k == 0 {
        assert(vs.take(0) =~= Seq::<T>::empty());
    } else {
        lemma_push_prefix(states, vs, k - 1);
        assert(states[k] == pushed(states[k - 1], vs[k - 1]));
        assert(vs.take(k - 1).push(vs[k - 1]) =~= vs.take(k));
    }
}

/// Popping a queue again and again gives its values front to back, then nothing,
/// and once they are all taken the queue is empty.
pub proof fn lemma_pop_run<T>(states: Seq<Seq<T>>, results: Seq<Option<T>>)
    requires
        states.len() == results.len() + 1,
        forall|k: int| 0 <= k < results.len() ==> (results[k], #[trigger] states[k + 1]) == popped(states[k]),
    ensures
        forall|k: int|
            0 <= k < results.len() ==> #[trigger] results[k] == (if k < states[0].len() {
                Some(states[0][k])
            } else {
                None::<T>
            }),
        results.len() >= states[0].len() ==> states[results.len() as int].len() == 0,
{
    assert forall|k: int| 0 <= k < results.len() implies #[trigger] results[k] == (if k < states[0].len() {
        Some(states[0][k])
    } else {
        None::<T>
    }) by {
        lemma_pop_suffix(states, results, k);
        assert(states[k + 1] == popped(states[k]).1);
    }
    lemma_pop_suffix(states, results, results.len() as int);
}

proof fn lemma_pop_suffix<T>(states: Seq<Seq<T>>, results: Seq<Option<T>>, k: int)
    requires
        states.len() == results.len() + 1,
        forall|k: int| 0 <= k < results.len() ==> (results[k], #[trigger] states[k + 1]) == popped(states[k]),
        0 <= k <= results.len(),
    ensures
        k <= states[0].len() ==> states[k] == states[0].skip(k),
        k > states[0].len() ==> states[k].len() == 0,
    decreases k,
{
    if k == 0 {
        assert(states[0].skip(0) =~= states[0]);
    } else {
        lemma_pop_suffix(states, results, k - 1);
        let j = k - 1;
        assert((results[j], states[j + 1]) == popped(states[j]));
        if k <= states[0].len() {
            assert(states[0].skip(k - 1).drop_first() =~= states[0].skip(k));
        }
    }
}

/// Walking a queue holding `s` with a cursor from its start, step by step as
/// `Items::next` goes, gives `s`'s values front to back, then nothing.
pub proof fn lemma_items_walk<T>(s: Seq<T>, positions: Seq<nat>, results: Seq<Option<T>>)
    requires
        positions.len() == results.len() + 1,
        positions[0] == 0,
        forall|k: int|
            0 <= k < results.len() ==> #[trigger] results[k] == (if positions[k] < s.len() {
                Some(s[positions[k] as int])
            } else {
                None::<T>
            }) && positions[k + 1] == (if positions[k] < s.len() { positions[k] + 1int } else { positions[k] as int }),
    ensures
        forall|k: int|
            0 <= k < results.len() ==> #[trigger] results[k] == (if k < s.len() { Some(s[k]) } else { None::<T> }),
{
    assert forall|k: int| 0 <= k < results.len() implies #[trigger] results[k] == (if k < s.len() {
        Some(s[k])
    } else {
        None::<T>
    }) by {
        lemma_walk_position(s, positions, results, k);
    }
}

proof fn lemma_walk_position<T>(s: Seq<T>, positions: Seq<nat>, results: Seq<Option<T>>, k: int)
    requires
        positions.len() == results.len() + 1,
        positions[0] == 0,
        forall|k: int|
            0 <= k < results.len() ==> #[trigger] results[k] == (if positions[k] < s.len() {
                Some(s[positions[k] as int])
            } else {
                None::<T>
            }) && positions[k + 1] == (if positions[k] < s.len() { positions[k] + 1int } else { positions[k] as int }),
        0 <= k <= results.len(),
    ensures
        positions[k] == (if k < s.len() { k } else { s.len() as int }),
    decreases k,
{
    if k > 0 {
        lemma_walk_position(s, positions, results, k - 1);
        let step = results[k - 1];
        assert(step == (if positions[k - 1] < s.len() { Some(s[positions[k - 1] as int]) } else { None::<T> }));
    }
}

} // verus!
