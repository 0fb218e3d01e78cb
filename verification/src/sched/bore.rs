use vstd::prelude::*;
use crate::sched::order::{RunQueue, Thread, Priority, insert_pos, reclassed};

verus! {

/// How far the burst counter is shifted down at each tick.
pub const DECAY_SHIFT: u32 = 3;
/// The burst, in nanoseconds, past which a thread's dynamic priority changes.
pub const BURST_PENALTY_NS: u64 = 2_000_000;

/// The burst counter after one more tick: one millisecond added (saturating), then decayed.
pub open spec fn next_burst(burst: u64) -> u64 {
    (if burst + 1_000_000 > u64::MAX { u64::MAX as int } else { burst + 1_000_000 }) as u64 / 8
}

/// The priority adjustment for a burst: each whole millisecond beyond the threshold counts
/// one, truncated to a signed byte.
pub open spec fn burst_penalty(burst: u64) -> i8 {
    if burst > BURST_PENALTY_NS {
        ((burst - BURST_PENALTY_NS) / 1_000_000) as i8
    } else {
        0
    }
}

/// `a + b`, held at the bounds of `i32`.
pub open spec fn sat_add_i32(a: i32, b: i32) -> i32 {
    if a + b > i32::MAX {
        i32::MAX
    } else if a + b < i32::MIN {
        i32::MIN
    } else {
        (a + b) as i32
    }
}

/// The thread after one tick of accounting.
pub open spec fn ticked(t: Thread) -> Thread {
    Thread {
        burst_ns: next_burst(t.burst_ns),
        dynamic_prio: sat_add_i32(t.base_prio, burst_penalty(next_burst(t.burst_ns)) as i32),
        ..t
    }
}

fn saturating_add_i32(a: i32, b: i32) -> (r: i32)
    ensures
        r == sat_add_i32(a, b),
{
    let s: i64 = a as i64 + b as i64;
    if s > i32::MAX as i64 {
        i32::MAX
    } else if s < i32::MIN as i64 {
        i32::MIN
    } else {
        s as i32
    }
}

/// Queues the idle thread.
pub fn init(rq: &mut RunQueue)
    requires
        old(rq).wf(),
    ensures
        final(rq).wf(),
        old(rq)@.len() >= crate::sched::order::MAX_THREADS ==> final(rq)@ == old(rq)@,
        old(rq)@.len() < crate::sched::order::MAX_THREADS ==> final(rq)@ == old(rq)@.insert(
            insert_pos(old(rq)@, 0),
            Thread::spec_idle(),
        ),
{
    rq.push(Thread::new_idle());
}

/// Accounts one tick to the running thread `t`: its burst grows and decays, its dynamic
/// priority is its base priority plus the burst's adjustment; if the queue's front thread
/// now has a lower dynamic priority than `t`, a copy of `t` is queued.
pub fn tick(rq: &mut RunQueue, t: &mut Thread)
    requires
        old(rq).wf(),
    ensures
        final(rq).wf(),
        *final(t) == ticked(*old(t)),
        (old(rq)@.len() > 0 && old(rq)@[0].dynamic_prio < final(t).dynamic_prio
            && old(rq)@.len() < crate::sched::order::MAX_THREADS) ==> final(rq)@ == old(rq)@.insert(
            insert_pos(old(rq)@, final(t).dynamic_prio),
            *final(t),
        ),
        !(old(rq)@.len() > 0 && old(rq)@[0].dynamic_prio < final(t).dynamic_prio
            && old(rq)@.len() < crate::sched::order::MAX_THREADS) ==> final(rq)@ == old(rq)@,
{
    let grown = t.burst_ns.saturating_add(1_000_000);
    proof {
        assert(grown >> 3u32 == grown / 8) by (bit_vector);
    }
    t.burst_ns = grown >> DECAY_SHIFT;
    let b = t.burst_ns;
    let penalty: i8 = if b > BURST_PENALTY_NS {
        ((b - BURST_PENALTY_NS) / 1_000_000) as i8
    } else {
        0
    };
    t.dynamic_prio = saturating_add_i32(t.base_prio, penalty as i32);
    let preempts = match rq.peek_best() {
        Some(next) => next.dynamic_prio < t.dynamic_prio,
        None => false,
    };
    if preempts {
        rq.push(*t);
    }
}

/// Queues `t` afresh: its burst is cleared and its dynamic priority reset to its base.
pub fn wake(rq: &mut RunQueue, t: Thread)
    requires
        old(rq).wf(),
    ensures
        final(rq).wf(),
        old(rq)@.len() >= crate::sched::order::MAX_THREADS ==> final(rq)@ == old(rq)@,
        old(rq)@.len() < crate::sched::order::MAX_THREADS ==> final(rq)@ == old(rq)@.insert(
            insert_pos(old(rq)@, t.base_prio),
            Thread { burst_ns: 0, dynamic_prio: t.base_prio, ..t },
        ),
{
    let mut t = t;
    t.burst_ns = 0;
    t.dynamic_prio = t.base_prio;
    rq.push(t);
}

/// Takes the best thread off the queue.
pub fn schedule(rq: &mut RunQueue) -> (res: Option<Thread>)
    requires
        old(rq).wf(),
    ensures
        final(rq).wf(),
        old(rq)@.len() == 0 ==> res is None && final(rq)@ == old(rq)@,
        old(rq)@.len() > 0 ==> res == Some(old(rq)@[0]) && final(rq)@ == old(rq)@.drop_first(),
{
    rq.pop_best()
}

/// Moves every queued thread with id `tid` to the real-time class.
pub fn set_gaming_class(rq: &mut RunQueue, tid: u32)
    requires
        old(rq).wf(),
    ensures
        final(rq).wf(),
        final(rq)@ == reclassed(old(rq)@, tid, Priority::RealTime),
{
    rq.set_latency_class(tid, Priority::RealTime);
}

/// Ticks never build a burst up from below the threshold: a thread whose burst is at most
/// `BURST_PENALTY_NS` (a woken thread has none) keeps it so at every tick, so its dynamic
/// priority stays its base priority.
pub proof fn law_burst_stays_below_threshold(t: Thread)
    requires
        t.burst_ns <= BURST_PENALTY_NS,
    ensures
        ticked(t).burst_ns <= BURST_PENALTY_NS,
        burst_penalty(ticked(t).burst_ns) == 0,
        ticked(t).dynamic_prio == t.base_prio,
{
}

} // verus!
