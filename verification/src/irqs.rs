//! The core IRQ abstraction: the table of handlers bound to each interrupt
//! number, the per-IRQ "has fired" flag set from interrupt context, and the worker
//! pass that runs the handlers of the IRQs that fired.
use vstd::prelude::*;

verus! {

/// Something to run (in the IRQ worker) when its interrupt fires.
pub trait Handler {
    /// Handles the interrupt; the result tells whether it was this handler's.
    fn handle(&mut self) -> bool;
}

/// The handlers `after` a worker pass, given them `before` it: if their interrupt
/// had fired, each was run (and may have changed) and none was added or removed;
/// otherwise they are untouched.
pub open spec fn handlers_after<H>(before: Seq<H>, after: Seq<H>, fired: bool) -> bool {
    if fired {
        after.len() == before.len()
    } else {
        after == before
    }
}

/// The handler calls a worker pass makes on `b` when the interrupts `r` have fired,
/// in order: for each number of `r` in turn, one call per handler of that number,
/// as `(number, position among its handlers)`, in binding order.
pub open spec fn pass_calls<H>(b: &Bindings<H>, r: Seq<u32>) -> Seq<(u32, nat)>
    decreases r.len(),
{
    if r.len() == 0 {
        Seq::empty()
    } else {
        pass_calls(b, r.drop_last()) + Seq::new(
            b.handlers(r.last() as int).len(),
            |j: int| (r.last(), j as nat),
        )
    }
}

/// The handlers bound to one interrupt number, and whether it has fired since the
/// worker last looked.
pub struct IRQBinding<H> {
    has_fired: bool,
    handlers: Vec<H>,
}

/// The bindings, by interrupt number (below 256), the index the next binding gets,
/// and the handler calls made so far.
pub struct Bindings<H> {
    mapping: Vec<Option<IRQBinding<H>>>,
    next_index: usize,
    log: Ghost<Seq<(u32, nat)>>,
}

/// A binding of a handler object to an interrupt number.
pub struct ObjectHandle {
    num: u32,
    index: usize,
}

impl ObjectHandle {
    pub closed spec fn num(&self) -> u32 {
        self.num
    }

    pub closed spec fn index(&self) -> usize {
        self.index
    }

    /// The interrupt number.
    pub fn get_num(&self) -> (r: u32)
        ensures
            r == self.num(),
    {
        self.num
    }

    /// The binding's index, unique among all bindings.
    pub fn get_index(&self) -> (r: usize)
        ensures
            r == self.index(),
    {
        self.index
    }
}

/// The outcome of binding a handler.
pub struct Bound {
    /// The binding's index.
    pub index: usize,
    /// Whether the interrupt number had no binding before, so that the
    /// architecture's dispatch for it must now be set up.
    pub first_for_irq: bool,
}

/// `b1` is `b0` after interrupt `num` was recorded as fired: a bound `num` is marked,
/// nothing else changes.
pub open spec fn recorded_fire<H>(b0: &Bindings<H>, b1: &Bindings<H>, num: u32) -> bool {
    &&& b1.next() == b0.next()
    &&& b1.calls() == b0.calls()
    &&& forall|n: int| #[trigger] b1.bound(n) == b0.bound(n)
    &&& forall|n: int| b0.bound(n) ==> #[trigger] b1.handlers(n) == b0.handlers(n)
    &&& forall|n: int| b0.bound(n) ==> #[trigger] b1.fired(n) == (n == num || b0.fired(n))
}

/// `b1` is `b0` after a worker pass that ran the handlers of the interrupts `r`: the
/// bindings stay, every flag is cleared, `r` lists exactly the bound interrupts that
/// had fired, in increasing order, and the calls made are those of `pass_calls`:
/// each handler of each of them once, number by number, in binding order; no other
/// handler is run or changed.
pub open spec fn dispatched<H>(b0: &Bindings<H>, b1: &Bindings<H>, r: Seq<u32>) -> bool {
    &&& b1.next() == b0.next()
    &&& b1.calls() == b0.calls() + pass_calls(b0, r)
    &&& forall|n: int| #[trigger] b1.bound(n) == b0.bound(n)
    &&& forall|n: int|
        b0.bound(n) ==> handlers_after(b0.handlers(n), #[trigger] b1.handlers(n), b0.fired(n))
            && !b1.fired(n)
    &&& forall|k: int| 0 <= k < r.len() ==> b0.bound(#[trigger] r[k] as int) && b0.fired(r[k] as int)
    &&& forall|n: int| b0.bound(n) && #[trigger] b0.fired(n) ==> r.contains(n as u32)
    &&& forall|k: int, l: int| 0 <= k < l < r.len() ==> r[k] < r[l]
}

/// `b1` is `b0` after `obj` was added to the handlers of interrupt `num` under
/// `index`, the next index, which then advances by one; the binding of `num` is
/// created unmarked if it did not exist; other numbers are unchanged.
pub open spec fn bound_handler<H>(b0: &Bindings<H>, b1: &Bindings<H>, num: u32, obj: H, index: usize) -> bool {
    &&& index == b0.next()
    &&& b1.next() == b0.next() + 1
    &&& b1.calls() == b0.calls()
    &&& b1.bound(num as int)
    &&& b1.handlers(num as int) == (if b0.bound(num as int) {
        b0.handlers(num as int)
    } else {
        Seq::<H>::empty()
    }).push(obj)
    &&& b1.fired(num as int) == (b0.bound(num as int) && b0.fired(num as int))
    &&& forall|n: int|
        n != num ==> (#[trigger] b1.bound(n) == b0.bound(n)) && (b0.bound(n) ==> b1.handlers(n)
            == b0.handlers(n) && b1.fired(n) == b0.fired(n))
}

/// Bindings get distinct indices: one made after another gets a larger one.
pub proof fn lemma_binding_indices_increase<H>(
    b0: &Bindings<H>,
    b1: &Bindings<H>,
    b2: &Bindings<H>,
    num1: u32,
    obj1: H,
    index1: usize,
    num2: u32,
    obj2: H,
    index2: usize,
)
    requires
        bound_handler(b0, b1, num1, obj1, index1),
        bound_handler(b1, b2, num2, obj2, index2),
    ensures
        index1 < index2,
        b2.next() == index2 + 1,
{
}

/// Each handler of each interrupt that a worker pass lists is called by it.
pub proof fn lemma_pass_calls_each_handler<H>(b: &Bindings<H>, r: Seq<u32>, k: int, j: int)
    requires
        0 <= k < r.len(),
        0 <= j < b.handlers(r[k] as int).len(),
    ensures
        pass_calls(b, r).contains((r[k], j as nat)),
    decreases r.len(),
{
    let last = Seq::new(b.handlers(r.last() as int).len(), |i: int| (r.last(), i as nat));
    let front = pass_calls(b, r.drop_last());
    assert(pass_calls(b, r) == front + last);
    if k == r.len() - 1 {
        assert((front + last)[front.len() + j] == (r[k], j as nat));
    } else {
        lemma_pass_calls_each_handler(b, r.drop_last(), k, j);
        assert(r.drop_last()[k] == r[k]);
        let i = choose|i: int| 0 <= i < front.len() && front[i] == (r[k], j as nat);
        assert((front + last)[i] == (r[k], j as nat));
    }
}

/// An interrupt that fires on a bound number has each of its handlers called by
/// the next worker pass, which then leaves it unmarked.
pub proof fn lemma_fired_irq_is_dispatched<H>(
    b0: &Bindings<H>,
    b1: &Bindings<H>,
    b2: &Bindings<H>,
    num: u32,
    r: Seq<u32>,
    j: int,
)
    requires
        b0.bound(num as int),
        recorded_fire(b0, b1, num),
        dispatched(b1, b2, r),
        0 <= j < b1.handlers(num as int).len(),
    ensures
        r.contains(num),
        !b2.fired(num as int),
        b2.bound(num as int),
        b2.calls().contains((num, j as nat)),
{
    assert(b1.bound(num as int));
    assert(b1.fired(num as int));
    assert(handlers_after(b1.handlers(num as int), b2.handlers(num as int), b1.fired(num as int)));
    assert(r.contains(num));
    let k = choose|k: int| 0 <= k < r.len() && r[k] == num;
    lemma_pass_calls_each_handler(b1, r, k, j);
    let i = choose|i: int| 0 <= i < pass_calls(b1, r).len() && pass_calls(b1, r)[i] == (num, j as nat);
    assert(b2.calls()[b1.calls().len() + i] == (num, j as nat));
}

/// `states` is a run of binds: bind `k` adds `objs[k]` to interrupt `nums[k]` under
/// `indices[k]`, taking `states[k]` to `states[k + 1]`.
pub open spec fn bind_run<H>(
    states: Seq<Bindings<H>>,
    nums: Seq<u32>,
    objs: Seq<H>,
    indices: Seq<usize>,
) -> bool {
    &&& states.len() == nums.len() + 1
    &&& objs.len() == nums.len()
    &&& indices.len() == nums.len()
    &&& forall|k: int|
        0 <= k < nums.len() ==> bound_handler(&states[k], &#[trigger] states[k + 1], nums[k], objs[k], indices[k])
}

proof fn lemma_bound_persists<H>(
    states: Seq<Bindings<H>>,
    nums: Seq<u32>,
    objs: Seq<H>,
    indices: Seq<usize>,
    k: int,
    m: int,
    n: int,
)
    requires
        bind_run(states, nums, objs, indices),
        0 <= k <= m < states.len(),
        states[k].bound(n),
    ensures
        states[m].bound(n),
    decreases m - k,
{
    if m > k {
        lemma_bound_persists(states, nums, objs, indices, k, m - 1, n);
        assert(bound_handler(&states[m - 1], &states[m], nums[m - 1], objs[m - 1], indices[m - 1]));
    }
}

/// In a run of binds, each interrupt number is bound for the first time at most
/// once: a bind of a number that an earlier bind of the run bound finds it bound
/// (so it reports `first_for_irq` false, and the architecture's dispatch is set up
/// only once).
pub proof fn lemma_first_bind_once<H>(
    states: Seq<Bindings<H>>,
    nums: Seq<u32>,
    objs: Seq<H>,
    indices: Seq<usize>,
    k: int,
    l: int,
)
    requires
        bind_run(states, nums, objs, indices),
        0 <= k < l < nums.len(),
        nums[k] == nums[l],
    ensures
        states[l].bound(nums[l] as int),
{
    assert(bound_handler(&states[k], &states[k + 1], nums[k], objs[k], indices[k]));
    lemma_bound_persists(states, nums, objs, indices, k + 1, l, nums[k] as int);
}

/// A bound interrupt number stays bound, with its handlers' number unchanged or
/// grown, through a bind, a recorded fire and a worker pass.
pub proof fn lemma_bound_stays_bound<H>(
    b0: &Bindings<H>,
    b1: &Bindings<H>,
    b2: &Bindings<H>,
    b3: &Bindings<H>,
    n: int,
    num: u32,
    obj: H,
    index: usize,
    fired: u32,
    r: Seq<u32>,
)
    requires
        b0.bound(n),
        bound_handler(b0, b1, num, obj, index),
        recorded_fire(b1, b2, fired),
        dispatched(b2, b3, r),
    ensures
        b1.bound(n),
        b2.bound(n),
        b3.bound(n),
        b0.handlers(n).len() <= b1.handlers(n).len(),
        b3.handlers(n).len() == b1.handlers(n).len(),
{
    assert(b1.bound(n));
    assert(b2.handlers(n) == b1.handlers(n));
    assert(handlers_after(b2.handlers(n), b3.handlers(n), b2.fired(n)));
}

impl<H> Bindings<H> {
    /// Whether interrupt `num` has a binding.
    pub closed spec fn bound(&self, num: int) -> bool {
        0 <= num < self.mapping@.len() && self.mapping@[num] is Some
    }

    /// The handlers bound to `num`, in binding order.
    pub closed spec fn handlers(&self, num: int) -> Seq<H> {
        self.mapping@[num]->0.handlers@
    }

    /// Whether `num` has fired since the worker last looked.
    pub closed spec fn fired(&self, num: int) -> bool {
        self.mapping@[num]->0.has_fired
    }

    /// The index the next binding gets.
    pub closed spec fn next(&self) -> nat {
        self.next_index as nat
    }

    /// The handler calls made so far by worker passes, oldest first, each as
    /// `(interrupt number, position among its handlers)`.
    pub closed spec fn calls(&self) -> Seq<(u32, nat)> {
        self.log@
    }

    /// How many interrupt numbers the table has room for so far.
    pub closed spec fn capacity(&self) -> nat {
        self.mapping@.len()
    }

    /// The table never grows past the 256 interrupt numbers.
    pub open spec fn wf(&self) -> bool {
        self.capacity() <= 256
    }

    /// No bindings yet.
    pub fn new() -> (b: Bindings<H>)
        ensures
            b.wf(),
            b.next() == 0,
            b.calls() == Seq::<(u32, nat)>::empty(),
            forall|n: int| !b.bound(n),
    {
        Bindings { mapping: Vec::new(), next_index: 0, log: Ghost(Seq::empty()) }
    }

    /// The index the next binding gets.
    pub fn next_index(&self) -> (r: usize)
        ensures
            r == self.next(),
    {
        self.next_index
    }

    /// Whether interrupt `num` has a binding.
    pub fn is_bound(&self, num: u32) -> (r: bool)
        ensures
            r == self.bound(num as int),
    {
        (num as usize) < self.mapping.len() && self.mapping[num as usize].is_some()
    }

    /// Adds `obj` to the handlers of interrupt `num` (creating its binding if it has
    /// none), under the next index.
    pub fn bind(&mut self, num: u32, obj: H) -> (r: Bound)
        requires
            old(self).wf(),
            num < 256,
            old(self).next() < usize::MAX,
        ensures
            final(self).wf(),
            r.first_for_irq == !old(self).bound(num as int),
            bound_handler(old(self), final(self), num, obj, r.index),
    {
        let index = self.next_index;
        self.next_index = self.next_index + 1;
        let n = num as usize;
        let ghost before = self.mapping@;
        while self.mapping.len() <= n
            invariant
                n < 256,
                before.len() <= self.mapping@.len(),
                self.mapping@.len() > before.len() ==> self.mapping@.len() <= n + 1,
                self.next_index == old(self).next_index + 1,
                self.log == old(self).log,
                forall|i: int| 0 <= i < before.len() ==> self.mapping@[i] == before[i],
                forall|i: int| before.len() <= i < self.mapping@.len() ==> self.mapping@[i] is None,
            decreases n + 1 - self.mapping@.len(),
        {
            self.mapping.push(None);
        }
        let ghost grown = self.mapping@;
        let mut slot: Option<IRQBinding<H>> = None;
        std::mem::swap(&mut slot, &mut self.mapping[n]);
        let first = slot.is_none();
        let mut binding = match slot {
            Some(b) => b,
            None => IRQBinding { has_fired: false, handlers: Vec::new() },
        };
        binding.handlers.push(obj);
        self.mapping.set(n, Some(binding));
        proof {
            assert forall|i: int| i != n implies #[trigger] self.bound(i) == old(self).bound(i) && (
            old(self).bound(i) ==> self.handlers(i) == old(self).handlers(i) && self.fired(i)
                == old(self).fired(i)) by {
                if 0 <= i < grown.len() && i != n {
                    assert(self.mapping@[i] == grown[i]);
                }
            }
        }
        Bound { index, first_for_irq: first }
    }

    /// Binds the handler object `obj` to interrupt `num`.
    pub fn bind_object(&mut self, num: u32, obj: H) -> (r: (ObjectHandle, bool))
        requires
            old(self).wf(),
            num < 256,
            old(self).next() < usize::MAX,
        ensures
            final(self).wf(),
            r.0.num() == num,
            r.1 == !old(self).bound(num as int),
            bound_handler(old(self), final(self), num, obj, r.0.index()),
    {
        let b = self.bind(num, obj);
        (ObjectHandle { num, index: b.index }, b.first_for_irq)
    }

    /// Records, from interrupt context, that interrupt `num` fired; the worker is then
    /// to be woken.
    pub fn handle(&mut self, num: u32)
        requires
            old(self).wf(),
        ensures
            final(self).wf(),
            recorded_fire(old(self), final(self), num),
    {
        let n = num as usize;
        if n < self.mapping.len() {
            let mut slot: Option<IRQBinding<H>> = None;
            std::mem::swap(&mut slot, &mut self.mapping[n]);
            match slot {
                Some(mut b) => {
                    b.has_fired = true;
                    self.mapping.set(n, Some(b));
                },
                None => {
                    self.mapping.set(n, None);
                },
            }
        }
    }
}

impl<H: Handler> Bindings<H> {
    /// One pass of the IRQ worker: for each bound interrupt, in increasing order,
    /// that has fired, clears its flag and runs its handlers in binding order.
    /// Returns the interrupts whose handlers were run; each call made is recorded in
    /// `calls`.
    pub fn dispatch(&mut self) -> (r: Vec<u32>)
        requires
            old(self).wf(),
        ensures
            final(self).wf(),
            dispatched(old(self), final(self), r@),
    {
        let mut fired: Vec<u32> = Vec::new();
        let mut i: usize = 0;
        let ghost mut log = old(self).calls();
        proof {
            assert(log == old(self).calls() + pass_calls(old(self), fired@));
        }
        while i < self.mapping.len()
            invariant
                self.wf(),
                self.calls() == old(self).calls(),
                log == old(self).calls() + pass_calls(old(self), fired@),
                i <= self.mapping@.len(),
                self.mapping@.len() == old(self).mapping@.len(),
                self.next() == old(self).next(),
                forall|n: int| #[trigger] self.bound(n) == old(self).bound(n),
                forall|n: int|
                    old(self).bound(n) ==> handlers_after(
                        old(self).handlers(n),
                        #[trigger] self.handlers(n),
                        n < i && old(self).fired(n),
                    ),
                forall|n: int| 0 <= n < i && old(self).bound(n) ==> !#[trigger] self.fired(n),
                forall|n: int| i <= n && old(self).bound(n) ==> #[trigger] self.fired(n) == old(self).fired(n),
                forall|k: int| 0 <= k < fired@.len() ==> fired@[k] < i && old(self).bound(#[trigger] fired@[k] as int) && old(self).fired(fired@[k] as int),
                forall|n: int| 0 <= n < i && old(self).bound(n) && #[trigger] old(self).fired(n) ==> fired@.contains(n as u32),
                forall|k: int, l: int| 0 <= k < l < fired@.len() ==> fired@[k] < fired@[l],
            decreases self.mapping@.len() - i,
        {
            let ghost m0 = self.mapping@;
            let ghost s0 = *self;
            let ghost f0 = fired@;
            proof {
                if self.bound(i as int) {
                    assert(old(self).bound(i as int));
                    assert(handlers_after(old(self).handlers(i as int), self.handlers(i as int), false));
                }
            }
            let mut slot: Option<IRQBinding<H>> = None;
            std::mem::swap(&mut slot, &mut self.mapping[i]);
            assert(slot == m0[i as int]);
            match slot {
                Some(mut b) => {
                    let ghost orig = b.handlers@;
                    assert(s0.bound(i as int));
                    assert(orig == s0.handlers(i as int));
                    assert(orig == old(self).handlers(i as int));
                    assert(s0.fired(i as int) == old(self).fired(i as int));
                    assert(b.has_fired == s0.fired(i as int));
                    assert(b.has_fired == old(self).fired(i as int));
                    if b.has_fired {
                        b.has_fired = false;
                        let mut j: usize = 0;
                        #[verifier::loop_isolation(false)]
                        while j < b.handlers.len()
                            invariant
                                j <= b.handlers@.len(),
                                !b.has_fired,
                                b.handlers@.len() == orig.len(),
                                log == old(self).calls() + pass_calls(old(self), f0) + Seq::new(
                                    j as nat,
                                    |k: int| (i as u32, k as nat),
                                ),
                            decreases b.handlers@.len() - j,
                        {
                            b.handlers[j].handle();
                            proof {
                                log = log.push((i as u32, j as nat));
                                assert(log == old(self).calls() + pass_calls(old(self), f0) + Seq::new(
                                    (j + 1) as nat,
                                    |k: int| (i as u32, k as nat),
                                ));
                            }
                            j += 1;
                        }
                        fired.push(i as u32);
                        proof {
                            assert(fired@.drop_last() == f0);
                            assert(fired@.last() == i as u32);
                            assert(pass_calls(old(self), fired@) == pass_calls(old(self), f0) + Seq::new(
                                orig.len(),
                                |k: int| (i as u32, k as nat),
                            ));
                            assert(log == old(self).calls() + pass_calls(old(self), fired@));
                        }
                    }
                    assert(!b.has_fired);
                    assert(handlers_after(old(self).handlers(i as int), b.handlers@, old(self).fired(i as int)));
                    self.mapping.set(i, Some(b));
                },
                None => {
                    self.mapping.set(i, None);
                },
            }
            proof {
                assert forall|n: int| #[trigger] self.bound(n) == s0.bound(n) && (n != i && s0.bound(n) ==> self.handlers(n) == s0.handlers(n) && self.fired(n) == s0.fired(n)) by {
                    if n != i {
                        if 0 <= n < m0.len() {
                            assert(self.mapping@[n] == m0[n]);
                        }
                    }
                }
                if s0.bound(i as int) {
                    assert(!self.fired(i as int));
                }
                assert forall|n: int| old(self).bound(n) implies handlers_after(
                    old(self).handlers(n),
                    #[trigger] self.handlers(n),
                    n < i + 1 && old(self).fired(n),
                ) by {
                    assert(s0.bound(n));
                    if n != i {
                        assert(self.mapping@[n] == m0[n]);
                        assert(handlers_after(old(self).handlers(n), s0.handlers(n), n < i && old(self).fired(n)));
                    }
                }
                assert forall|n: int| 0 <= n < i + 1 && old(self).bound(n) implies !#[trigger] self.fired(n) by {
                    assert(s0.bound(n));
                    if n != i {
                        assert(self.mapping@[n] == m0[n]);
                        assert(!s0.fired(n));
                    }
                }
                if s0.bound(i as int) {
                    assert(s0.fired(i as int) == old(self).fired(i as int));
                }
                assert(fired@ == f0 || (fired@ == f0.push(i as u32) && old(self).bound(i as int)
                    && old(self).fired(i as int)));
                assert(!old(self).bound(i as int) || !old(self).fired(i as int) ==> fired@ == f0);
                assert forall|k: int| 0 <= k < fired@.len() implies fired@[k] < i + 1 && old(self).bound(
                    #[trigger] fired@[k] as int,
                ) && old(self).fired(fired@[k] as int) by {
                    if k < f0.len() {
                        assert(fired@[k] == f0[k]);
                    }
                }
                assert forall|n: int| 0 <= n < i + 1 && old(self).bound(n) && #[trigger] old(self).fired(
                    n,
                ) implies fired@.contains(n as u32) by {
                    if n == i {
                        assert(fired@[fired@.len() - 1] == n as u32);
                    } else {
                        assert(f0.contains(n as u32));
                        let k = choose|k: int| 0 <= k < f0.len() && f0[k] == n as u32;
                        assert(fired@[k] == n as u32);
                    }
                }
                assert forall|n: int| i + 1 <= n && old(self).bound(n) implies #[trigger] self.fired(n)
                    == old(self).fired(n) by {
                    assert(s0.bound(n));
                    assert(self.mapping@[n] == m0[n]);
                    assert(s0.fired(n) == old(self).fired(n));
                }
            }
            i += 1;
        }
        let ghost pre = *self;
        self.log = Ghost(log);
        assert(self.mapping@ == pre.mapping@);
        assert forall|n: int| #[trigger] self.bound(n) == old(self).bound(n) by {
            assert(pre.bound(n) == old(self).bound(n));
        }
        assert forall|n: int| old(self).bound(n) implies handlers_after(
            old(self).handlers(n),
            #[trigger] self.handlers(n),
            old(self).fired(n),
        ) && !self.fired(n) by {
            assert(pre.bound(n));
            assert(handlers_after(old(self).handlers(n), pre.handlers(n), n < i && old(self).fired(n)));
            assert(self.handlers(n) == pre.handlers(n));
            assert(self.fired(n) == pre.fired(n));
        }
        assert(self.calls() == log);
        assert(log == old(self).calls() + pass_calls(old(self), fired@));
        fired
    }
}

} // verus!
