use vstd::prelude::*;

verus! {

/// The number of threads a run queue holds.
pub const MAX_THREADS: usize = 256;

/// Scheduling classes, each with a priority value.
#[derive(Clone, Copy, PartialEq, Eq, Debug, Structural)]
pub enum Priority {
    Idle,
    Background,
    Normal,
    Interactive,
    RealTime,
}

/// The priority value of each class.
pub open spec fn prio_value(p: Priority) -> i32 {
    match p {
        Priority::Idle => 0,
        Priority::Background => 64,
        Priority::Normal => 100,
        Priority::Interactive => 130,
        Priority::RealTime => 200,
    }
}

impl Priority {
    /// The class's priority value.
    pub fn value(self) -> (v: i32)
        ensures
            v == prio_value(self),
    {
        match self {
            Priority::Idle => 0,
            Priority::Background => 64,
            Priority::Normal => 100,
            Priority::Interactive => 130,
            Priority::RealTime => 200,
        }
    }
}

#[derive(Clone, Copy, Debug)]
pub struct Thread {
    pub tid: u32,
    pub base_prio: i32,
    pub dynamic_prio: i32,
    pub burst_ns: u64,
    pub latency_class: Priority,
    pub stack_ptr: u64,
    pub cr3: u64,
    pub name: [u8; 16],
}

impl Thread {
    /// The idle thread's value.
    pub open spec fn spec_idle() -> Thread {
        Thread {
            tid: 0,
            base_prio: 0,
            dynamic_prio: 0,
            burst_ns: 0,
            latency_class: Priority::Idle,
            stack_ptr: 0,
            cr3: 0,
            name: [105u8, 100u8, 108u8, 101u8, 0u8, 0u8, 0u8, 0u8, 0u8, 0u8, 0u8, 0u8, 0u8, 0u8, 0u8, 0u8],
        }
    }

    /// The idle thread: thread 0, idle class, nothing run yet, named "idle".
    pub fn new_idle() -> (t: Self)
        ensures
            t == Thread::spec_idle(),
            t.tid == 0,
            t.base_prio == 0,
            t.dynamic_prio == 0,
            t.burst_ns == 0,
            t.latency_class == Priority::Idle,
            t.stack_ptr == 0,
            t.cr3 == 0,
            t.name@ == seq![105u8, 100u8, 108u8, 101u8, 0u8, 0u8, 0u8, 0u8, 0u8, 0u8, 0u8, 0u8, 0u8, 0u8, 0u8, 0u8],
    {
        let name: [u8; 16] = [105u8, 100u8, 108u8, 101u8, 0u8, 0u8, 0u8, 0u8, 0u8, 0u8, 0u8, 0u8, 0u8, 0u8, 0u8, 0u8];
        Thread {
            tid: 0,
            base_prio: Priority::Idle.value(),
            dynamic_prio: Priority::Idle.value(),
            burst_ns: 0,
            latency_class: Priority::Idle,
            stack_ptr: 0,
            cr3: 0,
            name,
        }
    }
}

/// The place where `push` puts a thread of priority `p` into `s`: just after the last
/// thread whose priority is at least `p` (at the front if there is none).
pub open spec fn insert_pos(s: Seq<Thread>, p: i32) -> int
    decreases s.len(),
{
    if s.len() == 0 {
        0
    } else if s.last().dynamic_prio >= p {
        s.len() as int
    } else {
        insert_pos(s.drop_last(), p)
    }
}

/// Whether the threads are in order of non-increasing dynamic priority.
pub open spec fn sorted(s: Seq<Thread>) -> bool {
    forall|i: int, j: int| 0 <= i < j < s.len() ==> s[i].dynamic_prio >= s[j].dynamic_prio
}

/// `s` with every thread whose id is `tid` moved to class `prio`, with both its priorities
/// set to the class's value.
pub open spec fn reclassed(s: Seq<Thread>, tid: u32, prio: Priority) -> Seq<Thread> {
    s.map_values(
        |t: Thread|
            if t.tid == tid {
                Thread {
                    latency_class: prio,
                    base_prio: prio_value(prio),
                    dynamic_prio: prio_value(prio),
                    ..t
                }
            } else {
                t
            },
    )
}

pub proof fn lemma_insert_pos_bounds(s: Seq<Thread>, p: i32)
    ensures
        0 <= insert_pos(s, p) <= s.len(),
        forall|j: int| insert_pos(s, p) <= j < s.len() ==> #[trigger] s[j].dynamic_prio < p,
        insert_pos(s, p) > 0 ==> s[insert_pos(s, p) - 1].dynamic_prio >= p,
    decreases s.len(),
{
    if s.len() > 0 && s.last().dynamic_prio < p {
        lemma_insert_pos_bounds(s.drop_last(), p);
        assert forall|j: int| insert_pos(s, p) <= j < s.len() implies #[trigger] s[j].dynamic_prio < p by {
            if j < s.len() - 1 {
                assert(s[j] == s.drop_last()[j]);
            }
        }
    }
}

/// The position is determined by the two facts the insertion loop establishes.
proof fn lemma_insert_pos_unique(s: Seq<Thread>, p: i32, i: int)
    requires
        0 <= i <= s.len(),
        forall|j: int| i <= j < s.len() ==> #[trigger] s[j].dynamic_prio < p,
        i > 0 ==> s[i - 1].dynamic_prio >= p,
    ensures
        insert_pos(s, p) == i,
    decreases s.len(),
{
    if s.len() > 0 && i < s.len() {
        assert(s.last().dynamic_prio < p);
        assert forall|j: int| i <= j < s.drop_last().len() implies #[trigger] s.drop_last()[j].dynamic_prio < p by {
            assert(s.drop_last()[j] == s[j]);
        }
        lemma_insert_pos_unique(s.drop_last(), p, i);
    }
}

proof fn lemma_reclassed_index(s: Seq<Thread>, tid: u32, prio: Priority, k: int)
    requires
        0 <= k < s.len(),
    ensures
        reclassed(s, tid, prio).len() == s.len(),
        reclassed(s, tid, prio)[k] == (if s[k].tid == tid {
            Thread {
                latency_class: prio,
                base_prio: prio_value(prio),
                dynamic_prio: prio_value(prio),
                ..s[k]
            }
        } else {
            s[k]
        }),
{
}

/// A run queue: up to `MAX_THREADS` threads, the first `count` slots filled, the best
/// candidate first.
pub struct RunQueue {
    threads: Vec<Option<Thread>>,
    count: usize,
}

impl RunQueue {
    pub closed spec fn wf(&self) -> bool {
        &&& self.threads@.len() == MAX_THREADS
        &&& self.count <= MAX_THREADS
        &&& forall|i: int| 0 <= i < self.count ==> #[trigger] self.threads@[i] is Some
        &&& forall|i: int| self.count <= i < MAX_THREADS ==> #[trigger] self.threads@[i] is None
    }

    /// The queued threads, front first.
    pub closed spec fn view(&self) -> Seq<Thread> {
        Seq::new(self.count as nat, |i: int| self.threads@[i]->Some_0)
    }

    /// An empty run queue.
    pub fn new() -> (rq: Self)
        ensures
            rq.wf(),
            rq@ == Seq::<Thread>::empty(),
    {
        let mut threads: Vec<Option<Thread>> = Vec::new();
        let mut k: usize = 0;
        while k < MAX_THREADS
            invariant
                k <= MAX_THREADS,
                threads@.len() == k,
                forall|i: int| 0 <= i < k ==> #[trigger] threads@[i] is None,
            decreases MAX_THREADS - k,
        {
            threads.push(None);
            k = k + 1;
        }
        let rq = RunQueue { threads, count: 0 };
        assert(rq@ =~= Seq::<Thread>::empty());
        rq
    }

    /// Queues `t` just after the last thread whose priority is at least its own; a full queue
    /// drops it.
    pub fn push(&mut self, t: Thread)
        requires
            old(self).wf(),
        ensures
            final(self).wf(),
            old(self)@.len() >= MAX_THREADS ==> final(self)@ == old(self)@,
            old(self)@.len() < MAX_THREADS ==> final(self)@ == old(self)@.insert(
                insert_pos(old(self)@, t.dynamic_prio),
                t,
            ),
    {
        if self.count >= MAX_THREADS {
            return;
        }
        let ghost s = self@;
        self.threads.set(self.count, Some(t));
        self.count = self.count + 1;
        let mut i: usize = self.count - 1;
        assert(self@ =~= s.subrange(0, i as int).push(t).add(s.subrange(i as int, s.len() as int)));
        while i > 0
            invariant_except_break
                self.wf(),
                self.count == s.len() + 1,
                i <= s.len(),
                self@ == s.subrange(0, i as int).push(t).add(s.subrange(i as int, s.len() as int)),
                forall|j: int| i <= j < s.len() ==> #[trigger] s[j].dynamic_prio < t.dynamic_prio,
            ensures
                self.wf(),
                self.count == s.len() + 1,
                i <= s.len(),
                self@ == s.subrange(0, i as int).push(t).add(s.subrange(i as int, s.len() as int)),
                forall|j: int| i <= j < s.len() ==> #[trigger] s[j].dynamic_prio < t.dynamic_prio,
                i > 0 ==> s[i - 1].dynamic_prio >= t.dynamic_prio,
            decreases i,
        {
            let a = match self.threads[i - 1] {
                Some(x) => x.dynamic_prio,
                None => 0,
            };
            let b = match self.threads[i] {
                Some(x) => x.dynamic_prio,
                None => 0,
            };
            assert(self.threads@[i - 1]->Some_0 == self@[i - 1]);
            assert(self.threads@[i as int]->Some_0 == self@[i as int]);
            if b > a {
                let ghost before = self@;
                let ghost cur = s.subrange(0, i as int).push(t).add(s.subrange(i as int, s.len() as int));
                assert(before[i as int] == t);
                assert(before[i - 1] == s[i - 1]);
                let x = self.threads[i - 1];
                let y = self.threads[i];
                self.threads.set(i - 1, y);
                self.threads.set(i, x);
                i = i - 1;
                let ghost next = s.subrange(0, i as int).push(t).add(s.subrange(i as int, s.len() as int));
                assert forall|j: int| 0 <= j < next.len() implies #[trigger] self@[j] == next[j] by {
                    if j == i {
                        assert(self@[j] == t);
                    } else if j == i + 1 {
                        assert(self@[j] == s[i as int]);
                    } else {
                        assert(self@[j] == before[j]);
                        assert(before[j] == cur[j]);
                    }
                }
                assert(self@ =~= next);
            } else {
                break;
            }
        }
        proof {
            lemma_insert_pos_unique(s, t.dynamic_prio, i as int);
        }
        assert(self@ =~= s.insert(i as int, t));
    }

    /// Takes the front thread off the queue; `None` when the queue is empty.
    pub fn pop_best(&mut self) -> (res: Option<Thread>)
        requires
            old(self).wf(),
        ensures
            final(self).wf(),
            old(self)@.len() == 0 ==> res is None && final(self)@ == old(self)@,
            old(self)@.len() > 0 ==> res == Some(old(self)@[0]) && final(self)@ == old(self)@.drop_first(),
    {
        if self.count == 0 {
            return None;
        }
        let ghost s = self@;
        let t = self.threads[0];
        let mut k: usize = 1;
        while k < self.count
            invariant
                1 <= k <= self.count,
                self.count <= MAX_THREADS,
                self.count == s.len(),
                self.threads@.len() == MAX_THREADS,
                forall|j: int| 0 <= j < k - 1 ==> #[trigger] self.threads@[j] == Some(s[j + 1]),
                forall|j: int| k - 1 <= j < self.count ==> #[trigger] self.threads@[j] == Some(s[j]),
                forall|j: int| self.count <= j < MAX_THREADS ==> #[trigger] self.threads@[j] is None,
            decreases self.count - k,
        {
            let x = self.threads[k];
            self.threads.set(k - 1, x);
            k = k + 1;
        }
        let last = self.count - 1;
        self.threads.set(last, None);
        self.count = last;
        assert(self@ =~= s.drop_first());
        t
    }

    /// The front thread, without taking it off.
    pub fn peek_best(&self) -> (res: Option<&Thread>)
        requires
            self.wf(),
        ensures
            self@.len() == 0 ==> res is None,
            self@.len() > 0 ==> res == Some(&self@[0]),
    {
        self.threads[0].as_ref()
    }

    /// Moves every queued thread with id `tid` to class `prio`, setting both its priorities
    /// to the class's value; the order of the queue is not changed.
    pub fn set_latency_class(&mut self, tid: u32, prio: Priority)
        requires
            old(self).wf(),
        ensures
            final(self).wf(),
            final(self)@ == reclassed(old(self)@, tid, prio),
    {
        let ghost s = self@;
        let v = prio.value();
        let mut k: usize = 0;
        while k < self.count
            invariant
                k <= self.count,
                v == prio_value(prio),
                self.wf(),
                self.count == s.len(),
                forall|j: int| 0 <= j < k ==> #[trigger] self@[j] == reclassed(s, tid, prio)[j],
                forall|j: int| k <= j < self.count ==> #[trigger] self@[j] == s[j],
            decreases self.count - k,
        {
            let ghost before = self@;
            let ghost before_t = self.threads@;
            assert(self@[k as int] == s[k as int]);
            proof {
                lemma_reclassed_index(s, tid, prio, k as int);
            }
            if let Some(slot) = self.threads[k] {
                assert(slot == s[k as int]);
                if slot.tid == tid {
                    let nt = Thread { latency_class: prio, base_prio: v, dynamic_prio: v, ..slot };
                    self.threads.set(k, Some(nt));
                    assert(self.threads@[k as int] == Some(nt));
                    assert(self@[k as int] == nt);
                } else {
                    assert(self.threads@[k as int] == before_t[k as int]);
                    assert(self@[k as int] == s[k as int]);
                }
                assert(self@[k as int] == reclassed(s, tid, prio)[k as int]);
            } else {
                assert(self.threads@[k as int] is Some);
            }
            assert forall|j: int| 0 <= j < self.count && j != k implies #[trigger] self@[j] == before[j] by {
                assert(self.threads@[j] == before_t[j]);
            }
            assert(self@[k as int] == reclassed(s, tid, prio)[k as int]);
            k = k + 1;
        }
        assert(self@ =~= reclassed(s, tid, prio));
    }
}

/// `push` keeps a queue that is ordered by dynamic priority ordered.
pub proof fn law_push_keeps_sorted(s: Seq<Thread>, t: Thread)
    requires
        sorted(s),
    ensures
        sorted(s.insert(insert_pos(s, t.dynamic_prio), t)),
{
    let p = insert_pos(s, t.dynamic_prio);
    lemma_insert_pos_bounds(s, t.dynamic_prio);
    let r = s.insert(p, t);
    assert forall|i: int, j: int| 0 <= i < j < r.len() implies r[i].dynamic_prio >= r[j].dynamic_prio by {
        if j < p {
        } else if j == p {
            assert(s[p - 1].dynamic_prio >= t.dynamic_prio);
            assert(r[i] == s[i]);
            if i < p - 1 {
                assert(s[i].dynamic_prio >= s[p - 1].dynamic_prio);
            }
        } else if i == p {
            assert(r[j] == s[j - 1]);
            assert(s[j - 1].dynamic_prio < t.dynamic_prio);
        } else if i < p {
            assert(r[i] == s[i] && r[j] == s[j - 1]);
        } else {
            assert(r[i] == s[i - 1] && r[j] == s[j - 1]);
        }
    }
}

/// A pushed thread goes behind every queued thread of equal or higher priority and ahead of
/// every thread of lower priority; on an ordered queue, threads of equal priority therefore
/// leave in the order they came.
pub proof fn law_push_is_stable(s: Seq<Thread>, t: Thread)
    requires
        sorted(s),
    ensures
        forall|j: int|
            0 <= j < insert_pos(s, t.dynamic_prio) ==> #[trigger] s[j].dynamic_prio >= t.dynamic_prio,
        forall|j: int|
            insert_pos(s, t.dynamic_prio) <= j < s.len() ==> #[trigger] s[j].dynamic_prio < t.dynamic_prio,
        s.insert(insert_pos(s, t.dynamic_prio), t)[insert_pos(s, t.dynamic_prio)] == t,
{
    let p = insert_pos(s, t.dynamic_prio);
    lemma_insert_pos_bounds(s, t.dynamic_prio);
    assert forall|j: int| 0 <= j < p implies #[trigger] s[j].dynamic_prio >= t.dynamic_prio by {
        if j < p - 1 {
            assert(s[j].dynamic_prio >= s[p - 1].dynamic_prio);
        }
    }
}

/// Taking the front thread off keeps an ordered queue ordered.
pub proof fn law_pop_keeps_sorted(s: Seq<Thread>)
    requires
        sorted(s),
        s.len() > 0,
    ensures
        sorted(s.drop_first()),
{
    assert forall|i: int, j: int| 0 <= i < j < s.drop_first().len() implies s.drop_first()[i].dynamic_prio
        >= s.drop_first()[j].dynamic_prio by {
        assert(s.drop_first()[i] == s[i + 1] && s.drop_first()[j] == s[j + 1]);
    }
}

/// On an ordered queue, the thread that `pop_best` hands out has the highest dynamic
/// priority of all queued threads.
pub proof fn law_front_is_best(s: Seq<Thread>, i: int)
    requires
        sorted(s),
        0 <= i < s.len(),
    ensures
        s[0].dynamic_prio >= s[i].dynamic_prio,
{
}

/// A fresh queue is ordered.
pub proof fn law_empty_is_sorted()
    ensures
        sorted(Seq::<Thread>::empty()),
{
}

/// The latency classes are ordered: idle below background below normal below interactive
/// below real-time, and the idle class is zero.
pub proof fn law_class_order()
    ensures
        prio_value(Priority::Idle) == 0,
        prio_value(Priority::Idle) < prio_value(Priority::Background),
        prio_value(Priority::Background) < prio_value(Priority::Normal),
        prio_value(Priority::Normal) < prio_value(Priority::Interactive),
        prio_value(Priority::Interactive) < prio_value(Priority::RealTime),
{
}

} // verus!
