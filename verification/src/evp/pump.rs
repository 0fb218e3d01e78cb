use vstd::prelude::*;
use arrayvec::ArrayVec;
use crate::evp::event::Event;
use crate::wmc::compositor::{Compositor, dispatch_ok, dispatched};

verus! {

/// The number of events the pump holds.
pub const PUMP_CAPACITY: usize = 256;

/// The events an `ArrayVec` holds, in order.
pub uninterp spec fn queued_events(q: ArrayVec<Event, 256>) -> Seq<Event>;

/// `ArrayVec::new`: an empty queue.
#[verifier::external_body]
fn events_new() -> (q: ArrayVec<Event, 256>)
    ensures
        queued_events(q) == Seq::<Event>::empty(),
{
    ArrayVec::new()
}

/// `ArrayVec::try_push`: appends `e` unless the queue is full, in which case it is refused
/// and the queue is unchanged.
#[verifier::external_body]
fn events_try_push(q: &mut ArrayVec<Event, 256>, e: Event)
    ensures
        queued_events(*old(q)).len() < PUMP_CAPACITY ==> queued_events(*final(q)) == queued_events(*old(q)).push(e),
        queued_events(*old(q)).len() >= PUMP_CAPACITY ==> queued_events(*final(q)) == queued_events(*old(q)),
{
    let _ = q.try_push(e);
}

/// `ArrayVec::drain(..)`: takes every queued event out, in order, leaving the queue empty.
#[verifier::external_body]
fn events_drain_all(q: &mut ArrayVec<Event, 256>) -> (es: Vec<Event>)
    ensures
        es@ == queued_events(*old(q)),
        queued_events(*final(q)) == Seq::<Event>::empty(),
{
    q.drain(..).collect()
}

/// Whether the compositor can handle `es` in order: each event can be dispatched on every
/// state the earlier events can lead to.
pub open spec fn drain_ok(c: Compositor, es: Seq<Event>) -> bool
    decreases es.len(),
{
    if es.len() == 0 {
        true
    } else {
        &&& dispatch_ok(c, es[0])
        &&& forall|c2: Compositor| #[trigger] dispatched(c, c2, es[0]) ==> drain_ok(c2, es.drop_first())
    }
}

/// Whether `a` is reached from `b` by dispatching `es` in order.
pub open spec fn dispatched_all(b: Compositor, a: Compositor, es: Seq<Event>) -> bool
    decreases es.len(),
{
    if es.len() == 0 {
        a == b
    } else {
        exists|mid: Compositor| #[trigger] dispatched(b, mid, es[0]) && dispatched_all(mid, a, es.drop_first())
    }
}

/// The queue of events waiting for the compositor.
pub struct EventPump {
    queue: ArrayVec<Event, 256>,
}

impl EventPump {
    pub closed spec fn view(&self) -> Seq<Event> {
        queued_events(self.queue)
    }

    pub fn new() -> (p: Self)
        ensures
            p@ == Seq::<Event>::empty(),
    {
        EventPump { queue: events_new() }
    }

    /// Queues `e`; a full queue drops it.
    pub fn push(&mut self, e: Event)
        ensures
            old(self)@.len() < PUMP_CAPACITY ==> final(self)@ == old(self)@.push(e),
            old(self)@.len() >= PUMP_CAPACITY ==> final(self)@ == old(self)@,
    {
        events_try_push(&mut self.queue, e);
    }

    /// Hands every queued event, oldest first, to the compositor, and empties the queue.
    pub fn drain(&mut self, comp: &mut Compositor)
        requires
            drain_ok(*old(comp), old(self)@),
        ensures
            final(self)@ == Seq::<Event>::empty(),
            dispatched_all(*old(comp), *final(comp), old(self)@),
    {
        let es = events_drain_all(&mut self.queue);
        let ghost all = es@;
        let ghost start = *comp;
        let mut i: usize = 0;
        let ghost mut states: Seq<Compositor> = seq![*comp];
        assert(all.subrange(0, all.len() as int) =~= all);
        while i < es.len()
            invariant
                i <= es@.len(),
                es@ == all,
                states.len() == i + 1,
                states[0] == start,
                states[i as int] == *comp,
                forall|j: int| 0 <= j < i ==> #[trigger] dispatched(states[j], states[j + 1], all[j]),
                drain_ok(*comp, all.subrange(i as int, all.len() as int)),
                queued_events(self.queue) == Seq::<Event>::empty(),
            decreases es@.len() - i,
        {
            let e = es[i];
            let ghost rest = all.subrange(i as int, all.len() as int);
            assert(rest[0] == e);
            assert(rest.drop_first() =~= all.subrange(i + 1, all.len() as int));
            let ghost before = *comp;
            comp.dispatch(e);
            proof {
                states = states.push(*comp);
            }
            i = i + 1;
        }
        proof {
            lemma_chain(states, all, 0);
            assert(all.subrange(0, all.len() as int) =~= all);
        }
    }
}

/// A chain of states, each reached from the one before by dispatching the matching event,
/// shows `dispatched_all` from any point to the end.
proof fn lemma_chain(states: Seq<Compositor>, es: Seq<Event>, k: int)
    requires
        states.len() == es.len() + 1,
        0 <= k <= es.len(),
        forall|j: int| 0 <= j < es.len() ==> #[trigger] dispatched(states[j], states[j + 1], es[j]),
    ensures
        dispatched_all(states[k], states[es.len() as int], es.subrange(k, es.len() as int)),
    decreases es.len() - k,
{
    let rest = es.subrange(k, es.len() as int);
    if k < es.len() {
        lemma_chain(states, es, k + 1);
        assert(rest.drop_first() =~= es.subrange(k + 1, es.len() as int));
        assert(rest[0] == es[k]);
        assert(dispatched(states[k], states[k + 1], rest[0]));
    } else {
        assert(rest.len() == 0);
    }
}

} // verus!
