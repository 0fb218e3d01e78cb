use sane::sched::bore::{init, schedule, set_gaming_class, tick, wake};
use sane::sched::order::{Priority, RunQueue, Thread, MAX_THREADS};

fn th(tid: u32, prio: i32) -> Thread {
    Thread {
        tid,
        base_prio: prio,
        dynamic_prio: prio,
        burst_ns: 0,
        latency_class: Priority::Normal,
        stack_ptr: 0,
        cr3: 0,
        name: [0u8; 16],
    }
}

fn drain_ids(rq: &mut RunQueue) -> Vec<u32> {
    let mut ids = Vec::new();
    while let Some(t) = rq.pop_best() {
        ids.push(t.tid);
    }
    ids
}

#[test]
fn priority_values() {
    assert_eq!(Priority::Idle.value(), 0);
    assert_eq!(Priority::Background.value(), 64);
    assert_eq!(Priority::Normal.value(), 100);
    assert_eq!(Priority::Interactive.value(), 130);
    assert_eq!(Priority::RealTime.value(), 200);
}

#[test]
fn idle_thread() {
    let t = Thread::new_idle();
    assert_eq!((t.tid, t.base_prio, t.dynamic_prio, t.burst_ns), (0, 0, 0, 0));
    assert_eq!(t.latency_class, Priority::Idle);
    assert_eq!(&t.name[..5], b"idle\0");
}

#[test]
fn best_first_and_stable_among_equals() {
    let mut rq = RunQueue::new();
    rq.push(th(1, 100));
    rq.push(th(2, 200));
    rq.push(th(3, 100));
    rq.push(th(4, 0));
    rq.push(th(5, 130));
    assert_eq!(rq.peek_best().unwrap().tid, 2);
    assert_eq!(drain_ids(&mut rq), vec![2, 5, 1, 3, 4]);
    assert!(rq.pop_best().is_none());
    assert!(rq.peek_best().is_none());
}

#[test]
fn full_queue_drops_newcomers() {
    let mut rq = RunQueue::new();
    for i in 0..MAX_THREADS as u32 {
        rq.push(th(i, 50));
    }
    rq.push(th(9999, 250));
    let ids = drain_ids(&mut rq);
    assert_eq!(ids.len(), MAX_THREADS);
    assert!(!ids.contains(&9999));
    assert_eq!(ids[0], 0);
}

#[test]
fn reclassing_keeps_queue_order() {
    let mut rq = RunQueue::new();
    rq.push(th(1, 100));
    rq.push(th(2, 100));
    rq.set_latency_class(2, Priority::RealTime);
    let first = rq.pop_best().unwrap();
    let second = rq.pop_best().unwrap();
    assert_eq!(first.tid, 1);
    assert_eq!((second.tid, second.base_prio, second.dynamic_prio), (2, 200, 200));
    assert_eq!(second.latency_class, Priority::RealTime);
}

#[test]
fn tick_accounts_the_burst() {
    let mut rq = RunQueue::new();
    let mut t = th(7, 100);
    tick(&mut rq, &mut t);
    assert_eq!(t.burst_ns, 125_000);
    assert_eq!(t.dynamic_prio, 100);
    t.burst_ns = 40_000_000;
    tick(&mut rq, &mut t);
    assert_eq!(t.burst_ns, 5_125_000);
    assert_eq!(t.dynamic_prio, 103);
    assert!(rq.pop_best().is_none());
    t.burst_ns = u64::MAX;
    tick(&mut rq, &mut t);
    assert_eq!(t.burst_ns, u64::MAX / 8);
}

#[test]
fn tick_requeues_a_thread_that_beats_the_front() {
    let mut rq = RunQueue::new();
    rq.push(th(1, 50));
    let mut t = th(2, 100);
    tick(&mut rq, &mut t);
    assert_eq!(drain_ids(&mut rq), vec![2, 1]);
    let mut rq2 = RunQueue::new();
    rq2.push(th(1, 150));
    let mut u = th(3, 100);
    tick(&mut rq2, &mut u);
    assert_eq!(drain_ids(&mut rq2), vec![1]);
}

#[test]
fn wake_and_schedule() {
    let mut rq = RunQueue::new();
    init(&mut rq);
    let mut t = th(4, 120);
    t.burst_ns = 9_000_000;
    t.dynamic_prio = 5;
    wake(&mut rq, t);
    let first = schedule(&mut rq).unwrap();
    assert_eq!((first.tid, first.burst_ns, first.dynamic_prio), (4, 0, 120));
    assert_eq!(schedule(&mut rq).unwrap().tid, 0);
    assert!(schedule(&mut rq).is_none());
}

#[test]
fn gaming_class_is_real_time() {
    let mut rq = RunQueue::new();
    rq.push(th(1, 100));
    rq.push(th(2, 90));
    set_gaming_class(&mut rq, 2);
    set_gaming_class(&mut rq, 42);
    let a = rq.pop_best().unwrap();
    let b = rq.pop_best().unwrap();
    assert_eq!((a.tid, a.dynamic_prio), (1, 100));
    assert_eq!((b.tid, b.dynamic_prio, b.base_prio), (2, 200, 200));
}

#[test]
fn ticks_keep_a_fresh_thread_at_base_priority() {
    let mut rq = RunQueue::new();
    let mut t = th(7, 100);
    for _ in 0..1000 {
        tick(&mut rq, &mut t);
        assert!(t.burst_ns <= 2_000_000);
        assert_eq!(t.dynamic_prio, 100);
    }
    assert_eq!(t.burst_ns, 142_857);
}
