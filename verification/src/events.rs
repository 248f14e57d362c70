//! Typed event bus for game events
//!
//! Events are queued with `emit()` and dispatched to handlers with `dispatch()`.
//! Every handler and every event carries the [`TypeId`] of its event type;
//! an event reaches exactly the handlers registered under the same `TypeId`.
//!
//! The bus is generic over the stored handler `H` and the stored event
//! payload `P`: it decides which handler sees which event, and in what
//! order, and hands each pair to the `deliver` function given to
//! [`EventBus::dispatch`], which performs the call.
//!
//! ## Limitations
//!
//! Handlers cannot emit new events during dispatch: `deliver` receives the
//! handler and the event, not the bus, so follow-up events must be emitted by
//! the caller after `dispatch()` returns.

use std::any::TypeId;
use vstd::prelude::*;

verus! {

/// `TypeId` is carried through the bus as an opaque key.
#[verifier::external_type_specification]
#[verifier::external_body]
pub struct ExTypeId(TypeId);

/// Compares two `TypeId`s with `TypeId`'s `==`.
///
/// Trusted: `TypeId` is a plain value that identifies one type, and its
/// `==` holds exactly when both values are the same; the contract states that.
#[verifier::external_body]
pub(crate) fn same_type(a: &TypeId, b: &TypeId) -> (r: bool)
    ensures
        r == (*a == *b),
{
    a == b
}

/// Opaque identifier for a registered event handler
///
/// Returned by [`EventBus::on`] and used with [`EventBus::off`] to remove handlers.
#[derive(Clone, Copy, Debug, PartialEq, Eq, Hash)]
pub struct HandlerId {
    /// The event type the handler was registered for
    pub type_id: TypeId,
    /// The bus-wide unique counter value of the handler
    pub id: usize,
}

/// A registered handler together with its event type and unique counter value
pub struct HandlerSlot<H> {
    /// The event type the handler receives
    pub type_id: TypeId,
    /// Unique counter value (never reused by the bus that issued it)
    pub id: usize,
    /// The handler itself
    pub handler: H,
}

/// An event waiting to be dispatched
pub struct QueuedEvent<P> {
    /// The type of the event
    pub type_id: TypeId,
    /// The event value
    pub payload: P,
}

/// Indices (in registration order) of the handlers registered for `t`.
pub open spec fn matching_handlers<H>(hs: Seq<HandlerSlot<H>>, t: TypeId) -> Seq<int>
    decreases hs.len(),
{
    if hs.len() == 0 {
        Seq::empty()
    } else {
        let rest = matching_handlers(hs.drop_last(), t);
        if hs.last().type_id == t {
            rest.push(hs.len() - 1)
        } else {
            rest
        }
    }
}

/// The deliveries of a dispatch, in order: for each queued event in emission
/// order, one `(handler index, event index)` pair per matching handler, in
/// registration order.
pub open spec fn delivery_plan<H, P>(hs: Seq<HandlerSlot<H>>, qs: Seq<QueuedEvent<P>>) -> Seq<(int, int)>
    decreases qs.len(),
{
    if qs.len() == 0 {
        Seq::empty()
    } else {
        let j = qs.len() - 1;
        delivery_plan(hs, qs.drop_last()) + matching_handlers(hs, qs.last().type_id).map_values(
            |i: int| (i, j),
        )
    }
}

/// Every matching index is in range and names a handler of type `t`.
pub proof fn lemma_matching_handlers_sound<H>(hs: Seq<HandlerSlot<H>>, t: TypeId)
    ensures
        forall|k: int|
            0 <= k < matching_handlers(hs, t).len() ==> {
                let i = #[trigger] matching_handlers(hs, t)[k];
                0 <= i < hs.len() && hs[i].type_id == t
            },
        matching_handlers(hs, t).len() <= hs.len(),
    decreases hs.len(),
{
    if hs.len() > 0 {
        lemma_matching_handlers_sound(hs.drop_last(), t);
    }
}

/// Events of different types never cross: every planned delivery pairs an
/// existing handler with an existing event of the same type.
pub proof fn lemma_events_reach_only_handlers_of_their_type<H, P>(hs: Seq<HandlerSlot<H>>, qs: Seq<QueuedEvent<P>>)
    ensures
        forall|k: int|
            0 <= k < delivery_plan(hs, qs).len() ==> {
                let (i, j) = #[trigger] delivery_plan(hs, qs)[k];
                &&& 0 <= i < hs.len()
                &&& 0 <= j < qs.len()
                &&& hs[i].type_id == qs[j].type_id
            },
    decreases qs.len(),
{
    if qs.len() > 0 {
        lemma_events_reach_only_handlers_of_their_type(hs, qs.drop_last());
        lemma_matching_handlers_sound(hs, qs.last().type_id);
        let prev = delivery_plan(hs, qs.drop_last());
        let m = matching_handlers(hs, qs.last().type_id);
        let tail = m.map_values(|i: int| (i, qs.len() - 1));
        assert forall|k: int| 0 <= k < delivery_plan(hs, qs).len() implies {
            let (i, j) = #[trigger] delivery_plan(hs, qs)[k];
            &&& 0 <= i < hs.len()
            &&& 0 <= j < qs.len()
            &&& hs[i].type_id == qs[j].type_id
        } by {
            if k < prev.len() {
                assert(delivery_plan(hs, qs)[k] == prev[k]);
                let (i, j) = prev[k];
                assert(qs.drop_last()[j] == qs[j]);
            } else {
                assert(delivery_plan(hs, qs)[k] == tail[k - prev.len()]);
                assert(m[k - prev.len()] == m[k - prev.len()]);
            }
        }
    }
}

/// What every bus operation keeps: the bus stays well formed, the handler
/// counter never goes down, and every handler afterwards was registered
/// before under the same id and type, or has an id at or above the earlier
/// counter (it was registered by this step).
pub open spec fn bus_step<H, P>(b0: EventBus<H, P>, b1: EventBus<H, P>) -> bool {
    &&& b1.wf()
    &&& b0.spec_next_id() <= b1.spec_next_id()
    &&& forall|k: int|
        0 <= k < b1.spec_handlers().len() ==> (#[trigger] b1.spec_handlers()[k]).id >= b0.spec_next_id()
            || exists|m: int|
            0 <= m < b0.spec_handlers().len() && b0.spec_handlers()[m].id == b1.spec_handlers()[k].id
                && b0.spec_handlers()[m].type_id == b1.spec_handlers()[k].type_id
}

/// A typed event bus for game events
///
/// Events are queued with [`emit`](EventBus::emit) and dispatched to registered
/// handlers with [`dispatch`](EventBus::dispatch). Each event type can have
/// multiple handlers, and events of different types are kept separate.
pub struct EventBus<H, P> {
    /// Handlers in registration order
    handlers: Vec<HandlerSlot<H>>,
    /// Queued events waiting to be dispatched, in emission order
    queued: Vec<QueuedEvent<P>>,
    /// Monotonically increasing counter for handler IDs
    next_id: usize,
}

impl<H, P> EventBus<H, P> {
    /// The registered handlers, in registration order.
    pub closed spec fn spec_handlers(&self) -> Seq<HandlerSlot<H>> {
        self.handlers@
    }

    /// The queued events, in emission order.
    pub closed spec fn spec_queue(&self) -> Seq<QueuedEvent<P>> {
        self.queued@
    }

    /// The counter value the next registered handler receives.
    pub closed spec fn spec_next_id(&self) -> usize {
        self.next_id
    }

    /// Handler counters are strictly increasing in registration order and
    /// all below the next counter value.
    pub open spec fn wf(&self) -> bool {
        &&& forall|i: int, j: int|
            0 <= i < j < self.spec_handlers().len() ==> #[trigger] self.spec_handlers()[i].id
                < #[trigger] self.spec_handlers()[j].id
        &&& forall|i: int|
            0 <= i < self.spec_handlers().len() ==> #[trigger] self.spec_handlers()[i].id
                < self.spec_next_id()
    }

    /// Create a new empty event bus
    pub fn new() -> (r: Self)
        ensures
            r.wf(),
            r.spec_handlers().len() == 0,
            r.spec_queue().len() == 0,
            r.spec_next_id() == 0,
    {
        EventBus { handlers: Vec::new(), queued: Vec::new(), next_id: 0 }
    }

    /// The id the next registered handler will get.
    pub fn next_id(&self) -> (r: usize)
        ensures
            r == self.spec_next_id(),
    {
        self.next_id
    }

    /// Register a handler for events of type `type_id`
    ///
    /// The handler will be called for each event of that type when `dispatch()`
    /// is called. Multiple handlers can be registered for the same event type.
    ///
    /// Returns a [`HandlerId`] that can be passed to [`off`](EventBus::off) to remove
    /// the handler.
    pub fn on(&mut self, type_id: TypeId, handler: H) -> (r: HandlerId)
        requires
            old(self).wf(),
            old(self).spec_next_id() < usize::MAX,
        ensures
            final(self).wf(),
            bus_step(*old(self), *final(self)),
            r.type_id == type_id,
            r.id == old(self).spec_next_id(),
            final(self).spec_handlers() == old(self).spec_handlers().push(
                HandlerSlot { type_id, id: r.id, handler },
            ),
            final(self).spec_queue() == old(self).spec_queue(),
            final(self).spec_next_id() == old(self).spec_next_id() + 1,
    {
        let id = self.next_id;
        self.next_id = self.next_id + 1;
        let ghost before = self.handlers@;
        assert(before == old(self).spec_handlers());
        assert(forall|i: int| 0 <= i < before.len() ==> #[trigger] before[i].id < id);
        self.handlers.push(HandlerSlot { type_id, id, handler });
        proof {
            assert forall|i: int, j: int|
                0 <= i < j < self.handlers@.len() implies #[trigger] self.handlers@[i].id
                    < #[trigger] self.handlers@[j].id by {
                assert(self.handlers@[i] == before[i]);
                if j < before.len() {
                    assert(self.handlers@[j] == before[j]);
                }
            }
            assert forall|i: int| 0 <= i < self.handlers@.len() implies #[trigger] self.handlers@[i].id
                < self.next_id by {
                if i < before.len() {
                    assert(self.handlers@[i] == before[i]);
                }
            }
        }
        HandlerId { type_id, id }
    }

    /// Position of the handler with this id, if it is registered.
    fn find_handler(&self, handler_id: &HandlerId) -> (r: Option<usize>)
        ensures
            r is Some ==> ({
                let k = r->0 as int;
                &&& 0 <= k < self.spec_handlers().len()
                &&& self.spec_handlers()[k].type_id == handler_id.type_id
                &&& self.spec_handlers()[k].id == handler_id.id
            }),
            r is None ==> forall|k: int|
                0 <= k < self.spec_handlers().len() ==> !(
                #[trigger] self.spec_handlers()[k].type_id == handler_id.type_id
                    && self.spec_handlers()[k].id == handler_id.id),
    {
        let mut k: usize = 0;
        while k < self.handlers.len()
            invariant
                k <= self.handlers@.len(),
                forall|m: int|
                    0 <= m < k ==> !(#[trigger] self.handlers@[m].type_id == handler_id.type_id
                        && self.handlers@[m].id == handler_id.id),
            decreases self.handlers@.len() - k,
        {
            let slot = &self.handlers[k];
            if slot.id == handler_id.id && same_type(&slot.type_id, &handler_id.type_id) {
                return Some(k);
            }
            k = k + 1;
        }
        None
    }

    /// Remove a previously registered handler
    ///
    /// Returns `true` if the handler was found and removed, `false` if not found
    /// (e.g., already removed or invalid ID).
    pub fn off(&mut self, handler_id: HandlerId) -> (removed: bool)
        requires
            old(self).wf(),
        ensures
            final(self).wf(),
            bus_step(*old(self), *final(self)),
            removed <==> exists|k: int|
                0 <= k < old(self).spec_handlers().len()
                    && #[trigger] old(self).spec_handlers()[k].type_id == handler_id.type_id
                    && old(self).spec_handlers()[k].id == handler_id.id,
            removed ==> exists|k: int|
                0 <= k < old(self).spec_handlers().len()
                    && #[trigger] old(self).spec_handlers()[k].type_id == handler_id.type_id
                    && old(self).spec_handlers()[k].id == handler_id.id
                    && final(self).spec_handlers() == old(self).spec_handlers().remove(k),
            !removed ==> final(self).spec_handlers() == old(self).spec_handlers(),
            forall|k: int|
                0 <= k < final(self).spec_handlers().len() ==> !(
                #[trigger] final(self).spec_handlers()[k].type_id == handler_id.type_id
                    && final(self).spec_handlers()[k].id == handler_id.id),
            final(self).spec_queue() == old(self).spec_queue(),
            final(self).spec_next_id() == old(self).spec_next_id(),
    {
        match self.find_handler(&handler_id) {
            Some(k) => {
                let ghost before = self.handlers@;
                let _ = self.handlers.remove(k);
                assert(self.handlers@ == before.remove(k as int));
                assert forall|i: int, j: int|
                    0 <= i < j < self.handlers@.len() implies #[trigger] self.handlers@[i].id
                        < #[trigger] self.handlers@[j].id by {
                    let ii = if i < k { i } else { i + 1 };
                    let jj = if j < k { j } else { j + 1 };
                    assert(self.handlers@[i] == before[ii]);
                    assert(self.handlers@[j] == before[jj]);
                }
                assert forall|i: int| 0 <= i < self.handlers@.len() implies #[trigger] self.handlers@[i].id
                    < self.next_id by {
                    let ii = if i < k { i } else { i + 1 };
                    assert(self.handlers@[i] == before[ii]);
                }
                assert forall|m: int| 0 <= m < self.handlers@.len() implies !(
                    #[trigger] self.handlers@[m].type_id == handler_id.type_id
                        && self.handlers@[m].id == handler_id.id) by {
                    let mm = if m < k { m } else { m + 1 };
                    assert(self.handlers@[m] == before[mm]);
                    assert(mm != k);
                    if mm < k {
                        assert(before[mm].id < before[k as int].id);
                    } else {
                        assert(before[k as int].id < before[mm].id);
                    }
                }
                true
            },
            None => false,
        }
    }

    /// Queue an event of type `type_id` to be dispatched
    ///
    /// The event is stored and will be delivered to handlers when `dispatch()` is called.
    pub fn emit(&mut self, type_id: TypeId, event: P)
        requires
            old(self).wf(),
        ensures
            final(self).wf(),
            bus_step(*old(self), *final(self)),
            final(self).spec_queue() == old(self).spec_queue().push(
                QueuedEvent { type_id, payload: event },
            ),
            final(self).spec_handlers() == old(self).spec_handlers(),
            final(self).spec_next_id() == old(self).spec_next_id(),
    {
        self.queued.push(QueuedEvent { type_id, payload: event });
        assert(self.spec_handlers() == old(self).spec_handlers());
        assert(self.spec_next_id() == old(self).spec_next_id());
    }

    /// Dispatch all queued events to their handlers
    ///
    /// Events are delivered in the order they were emitted; each event goes
    /// to every handler of its type, in registration order, by one call
    /// `deliver(handler, event)`. The results of those calls are returned in
    /// call order. After dispatching, the event queue is empty.
    pub fn dispatch<R, F: Fn(&H, &P) -> R>(&mut self, deliver: F) -> (results: Vec<R>)
        requires
            old(self).wf(),
            forall|h: &H, p: &P| #[trigger] deliver.requires((h, p)),
        ensures
            final(self).wf(),
            bus_step(*old(self), *final(self)),
            final(self).spec_queue().len() == 0,
            final(self).spec_handlers() == old(self).spec_handlers(),
            final(self).spec_next_id() == old(self).spec_next_id(),
            results@.len() == delivery_plan(old(self).spec_handlers(), old(self).spec_queue()).len(),
            forall|k: int|
                0 <= k < results@.len() ==> {
                    let (i, j) = delivery_plan(old(self).spec_handlers(), old(self).spec_queue())[k];
                    deliver.ensures(
                        (&old(self).spec_handlers()[i].handler, &old(self).spec_queue()[j].payload),
                        #[trigger] results@[k],
                    )
                },
    {
        let ghost hs = self.handlers@;
        let ghost qs = self.queued@;
        let mut results: Vec<R> = Vec::new();
        let mut j: usize = 0;
        while j < self.queued.len()
            invariant
                self.handlers@ == hs,
                self.queued@ == qs,
                old(self).wf(),
                self.wf(),
                self.next_id == old(self).spec_next_id(),
                hs == old(self).spec_handlers(),
                qs == old(self).spec_queue(),
                forall|h: &H, p: &P| #[trigger] deliver.requires((h, p)),
                j <= qs.len(),
                results@.len() == delivery_plan(hs, qs.take(j as int)).len(),
                forall|k: int|
                    0 <= k < results@.len() ==> {
                        let (i, jj) = delivery_plan(hs, qs.take(j as int))[k];
                        deliver.ensures((&hs[i].handler, &qs[jj].payload), #[trigger] results@[k])
                    },
            decreases qs.len() - j,
        {
            let ghost base = results@.len();
            let ghost prev_plan = delivery_plan(hs, qs.take(j as int));
            let event = &self.queued[j];
            let mut i: usize = 0;
            while i < self.handlers.len()
                invariant
                    self.handlers@ == hs,
                    self.queued@ == qs,
                    forall|h: &H, p: &P| #[trigger] deliver.requires((h, p)),
                    j < qs.len(),
                    *event == qs[j as int],
                    i <= hs.len(),
                    base == prev_plan.len(),
                    prev_plan == delivery_plan(hs, qs.take(j as int)),
                    results@.len() == base + matching_handlers(hs.take(i as int), event.type_id).len(),
                    forall|k: int|
                        0 <= k < base ==> {
                            let (ii, jj) = prev_plan[k];
                            deliver.ensures((&hs[ii].handler, &qs[jj].payload), #[trigger] results@[k])
                        },
                    forall|k: int|
                        base <= k < results@.len() ==> {
                            let ii = matching_handlers(hs.take(i as int), event.type_id)[k - base];
                            deliver.ensures((&hs[ii].handler, &qs[j as int].payload), #[trigger] results@[k])
                        },
                decreases hs.len() - i,
            {
                let slot = &self.handlers[i];
                proof {
                    assert(hs.take(i + 1).drop_last() == hs.take(i as int));
                    lemma_matching_handlers_sound(hs.take(i as int), event.type_id);
                }
                if same_type(&slot.type_id, &event.type_id) {
                    let r = deliver(&slot.handler, &event.payload);
                    results.push(r);
                    proof {
                        let m_old = matching_handlers(hs.take(i as int), event.type_id);
                        let m_new = matching_handlers(hs.take(i + 1), event.type_id);
                        assert(m_new == m_old.push(i as int));
                        assert forall|k: int| base <= k < results@.len() implies {
                            let ii = matching_handlers(hs.take(i + 1), event.type_id)[k - base];
                            deliver.ensures((&hs[ii].handler, &qs[j as int].payload), #[trigger] results@[k])
                        } by {
                            if k < results@.len() - 1 {
                                assert(m_new[k - base] == m_old[k - base]);
                                let ii = m_old[k - base];
                                assert(hs.take(i as int)[ii] == hs[ii]);
                            }
                        }
                    }
                } else {
                    proof {
                        let m_old = matching_handlers(hs.take(i as int), event.type_id);
                        let m_new = matching_handlers(hs.take(i + 1), event.type_id);
                        assert(m_new == m_old);
                    }
                }
                i = i + 1;
            }
            proof {
                assert(hs.take(hs.len() as int) == hs);
                let qj = qs.take(j + 1);
                assert(qj.drop_last() == qs.take(j as int));
                assert(qj.last() == qs[j as int]);
                let m = matching_handlers(hs, qs[j as int].type_id);
                let tail = m.map_values(|ii: int| (ii, j as int));
                assert(delivery_plan(hs, qj) == prev_plan + tail);
                assert forall|k: int| 0 <= k < results@.len() implies {
                    let (ii, jj) = delivery_plan(hs, qj)[k];
                    deliver.ensures((&hs[ii].handler, &qs[jj].payload), #[trigger] results@[k])
                } by {
                    if k < base {
                        assert(delivery_plan(hs, qj)[k] == prev_plan[k]);
                    } else {
                        assert(delivery_plan(hs, qj)[k] == tail[k - base]);
                    }
                }
            }
            j = j + 1;
        }
        proof {
            assert(qs.take(qs.len() as int) == qs);
        }
        self.queued.clear();
        results
    }

    /// Clear all queued events without dispatching
    pub fn clear(&mut self)
        requires
            old(self).wf(),
        ensures
            final(self).wf(),
            bus_step(*old(self), *final(self)),
            final(self).spec_queue().len() == 0,
            final(self).spec_handlers() == old(self).spec_handlers(),
            final(self).spec_next_id() == old(self).spec_next_id(),
    {
        self.queued.clear();
        assert(self.spec_handlers() == old(self).spec_handlers());
        assert(self.spec_next_id() == old(self).spec_next_id());
    }

    /// Returns the number of queued events
    pub fn queued_count(&self) -> (r: usize)
        ensures
            r == self.spec_queue().len(),
    {
        self.queued.len()
    }

    /// Returns the number of handlers registered for the event type `type_id`
    pub fn handler_count(&self, type_id: TypeId) -> (r: usize)
        ensures
            r == matching_handlers(self.spec_handlers(), type_id).len(),
    {
        let ghost hs = self.handlers@;
        let mut count: usize = 0;
        let mut i: usize = 0;
        while i < self.handlers.len()
            invariant
                self.handlers@ == hs,
                i <= hs.len(),
                count == matching_handlers(hs.take(i as int), type_id).len(),
                count <= i,
            decreases hs.len() - i,
        {
            proof {
                assert(hs.take(i + 1).drop_last() == hs.take(i as int));
            }
            if same_type(&self.handlers[i].type_id, &type_id) {
                count = count + 1;
            }
            i = i + 1;
        }
        proof {
            assert(hs.take(hs.len() as int) == hs);
        }
        count
    }
}

impl<H, P> Default for EventBus<H, P> {
    fn default() -> (r: Self)
        ensures
            r.wf(),
            r.spec_handlers().len() == 0,
            r.spec_queue().len() == 0,
            r.spec_next_id() == 0,
    {
        Self::new()
    }
}

/// A handler id that `on` hands out (the bus's next counter value) belongs
/// to no registered handler.
pub proof fn law_new_handler_id_is_fresh<H, P>(b: EventBus<H, P>)
    requires
        b.wf(),
    ensures
        forall|k: int| 0 <= k < b.spec_handlers().len() ==> #[trigger] b.spec_handlers()[k].id != b.spec_next_id(),
{
}

/// The handler counter never goes down over any run of bus operations
/// (each step related by `bus_step`, which every operation ensures).
pub proof fn lemma_bus_counter_monotone<H, P>(states: Seq<EventBus<H, P>>, i: int, j: int)
    requires
        forall|t: int| 0 <= t < states.len() - 1 ==> bus_step(#[trigger] states[t], states[t + 1]),
        0 <= i <= j < states.len(),
    ensures
        states[i].spec_next_id() <= states[j].spec_next_id(),
    decreases j - i,
{
    if j > i {
        lemma_bus_counter_monotone(states, i, j - 1);
        assert(bus_step(states[j - 1], states[j]));
    }
}

/// Handler ids are never reused over any run of bus operations: `on`
/// returns the counter of the state it starts from and raises it, so the id
/// registered at step `i` is smaller than any id handed out from a later
/// state `j`, and no handler registered at or after step `j` carries it.
pub proof fn law_handler_ids_never_reused<H, P>(states: Seq<EventBus<H, P>>, i: int, j: int)
    requires
        forall|t: int| 0 <= t < states.len() - 1 ==> bus_step(#[trigger] states[t], states[t + 1]),
        0 <= i < j < states.len(),
        states[i + 1].spec_next_id() == states[i].spec_next_id() + 1,
    ensures
        states[i].spec_next_id() < states[j].spec_next_id(),
{
    lemma_bus_counter_monotone(states, i + 1, j);
}

} // verus!
