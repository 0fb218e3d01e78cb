use sane::ipc::cspace::{alloc_cap, delete, install, lookup, CSpaceManager, CapKind, Capability, CSPACE_SIZE};
use sane::ipc::fastpath::{call, finish_delivery, send, IpcError, IpcResult, IpcStep, MsgRegs};
use sane::ipc::shared::{create_ring, is_power_of_two, RingError, SharedRing};
use sane::mem::caps::{mint, CapRights, CapTableManager};

fn cap(kind: CapKind, object: u64, rights: u8) -> Capability {
    Capability { kind, object, badge: 7, rights }
}

fn msg() -> MsgRegs {
    MsgRegs { label: 3, w0: 10, w1: 20, w2: 30 }
}

#[test]
fn install_lookup_delete() {
    let mut cs = CSpaceManager::new();
    assert!(lookup(&cs, 5).is_none());
    assert!(install(&mut cs, 5, cap(CapKind::Endpoint, 0x40, 2)));
    let c = lookup(&cs, 5).unwrap();
    assert_eq!(c.kind, CapKind::Endpoint);
    assert_eq!(c.object, 0x40);
    assert!(!install(&mut cs, 5, cap(CapKind::Irq, 1, 0)));
    assert!(!install(&mut cs, 0, cap(CapKind::Irq, 1, 0)));
    assert!(!install(&mut cs, CSPACE_SIZE as u32, cap(CapKind::Irq, 1, 0)));
    assert!(!install(&mut cs, 6, cap(CapKind::Null, 1, 0)));
    delete(&mut cs, 5);
    assert!(lookup(&cs, 5).is_none());
    delete(&mut cs, 5);
    delete(&mut cs, 0);
    assert!(lookup(&cs, 0).is_none());
}

#[test]
fn alloc_reuses_deleted_slots_first() {
    let mut cs = CSpaceManager::new();
    assert_eq!(alloc_cap(&mut cs, cap(CapKind::Memory, 1, 0)), Some(1));
    assert_eq!(alloc_cap(&mut cs, cap(CapKind::Memory, 2, 0)), Some(2));
    assert_eq!(alloc_cap(&mut cs, cap(CapKind::Null, 3, 0)), None);
    delete(&mut cs, 1);
    assert_eq!(alloc_cap(&mut cs, cap(CapKind::Thread, 4, 0)), Some(1));
    assert_eq!(lookup(&cs, 1).unwrap().kind, CapKind::Thread);
    assert_eq!(alloc_cap(&mut cs, cap(CapKind::Memory, 5, 0)), Some(3));
}

#[test]
fn alloc_reaches_an_installed_slot() {
    let mut cs = CSpaceManager::new();
    assert!(install(&mut cs, 2, cap(CapKind::Irq, 9, 0)));
    assert_eq!(alloc_cap(&mut cs, cap(CapKind::Memory, 1, 0)), Some(1));
    assert_eq!(alloc_cap(&mut cs, cap(CapKind::Memory, 2, 0)), Some(2));
    assert_eq!(lookup(&cs, 2).unwrap().kind, CapKind::Memory);
}

#[test]
fn call_decisions() {
    let mut cs = CSpaceManager::new();
    install(&mut cs, 1, cap(CapKind::Endpoint, 0x77, 0x02));
    install(&mut cs, 2, cap(CapKind::Memory, 0x77, 0x02));
    install(&mut cs, 3, cap(CapKind::Endpoint, 0x77, 0x01));
    install(&mut cs, 4, cap(CapKind::Endpoint, 0, 0x03));
    match call(&cs, 1, msg()) {
        IpcStep::Deliver { object, msg: m } => {
            assert_eq!(object, 0x77);
            assert_eq!((m.label, m.w0, m.w1, m.w2), (3, 10, 20, 30));
        },
        _ => panic!("endpoint with send right must deliver"),
    }
    assert!(matches!(call(&cs, 2, msg()), IpcStep::Done(IpcResult::Error(IpcError::WrongCapKind))));
    assert!(matches!(call(&cs, 3, msg()), IpcStep::Done(IpcResult::Error(IpcError::InvalidCap))));
    assert!(matches!(call(&cs, 4, msg()), IpcStep::Done(IpcResult::Error(IpcError::ReceiverNotReady))));
    assert!(matches!(call(&cs, 9, msg()), IpcStep::Done(IpcResult::Error(IpcError::InvalidCap))));
    assert!(matches!(call(&cs, 0, msg()), IpcStep::Done(IpcResult::Error(IpcError::InvalidCap))));
}

#[test]
fn send_targets() {
    let mut cs = CSpaceManager::new();
    install(&mut cs, 1, cap(CapKind::Endpoint, 0x77, 0x06));
    install(&mut cs, 2, cap(CapKind::Notification, 0x77, 0x02));
    install(&mut cs, 3, cap(CapKind::Endpoint, 0x55, 0x04));
    assert_eq!(send(&cs, 1), Some(0x77));
    assert_eq!(send(&cs, 2), None);
    assert_eq!(send(&cs, 3), None);
    assert_eq!(send(&cs, 4), None);
}

#[test]
fn delivery_replies() {
    match finish_delivery(5, 1, 2, 3) {
        IpcResult::Reply(m) => assert_eq!((m.label, m.w0, m.w1, m.w2), (5, 1, 2, 3)),
        IpcResult::Error(_) => panic!("a reply label must give a reply"),
    }
    assert!(matches!(finish_delivery(u32::MAX, 1, 2, 3), IpcResult::Error(IpcError::ReceiverNotReady)));
}

#[test]
fn powers_of_two() {
    assert!(!is_power_of_two(0));
    assert!(is_power_of_two(1));
    assert!(is_power_of_two(2));
    assert!(!is_power_of_two(3));
    assert!(is_power_of_two(64));
    assert!(!is_power_of_two(96));
    assert!(is_power_of_two(1 << 63));
    assert!(!is_power_of_two(u64::MAX));
}

#[test]
fn ring_is_first_in_first_out() {
    let mut r = SharedRing::new(0, 4, 2);
    for i in 0..4u8 {
        assert_eq!(r.enqueue(&[i, i + 10, 99]), Ok(()));
    }
    assert_eq!(r.enqueue(&[9, 9]), Err(RingError::QueueFull));
    let mut out = vec![0u8, 0, 0xEE];
    for i in 0..4u8 {
        assert_eq!(r.dequeue(&mut out), Ok(()));
        assert_eq!(out, vec![i, i + 10, 0xEE]);
    }
    assert_eq!(r.dequeue(&mut out), Err(RingError::QueueEmpty));
    assert_eq!(out, vec![3, 13, 0xEE]);
}

#[test]
fn ring_wraps_around() {
    let mut r = SharedRing::new(0, 2, 1);
    let mut out = vec![0u8];
    for i in 0..10u8 {
        assert_eq!(r.enqueue(&[i]), Ok(()));
        assert_eq!(r.enqueue(&[i + 100]), Ok(()));
        assert_eq!(r.enqueue(&[0]), Err(RingError::QueueFull));
        assert_eq!(r.dequeue(&mut out), Ok(()));
        assert_eq!(out[0], i);
        assert_eq!(r.dequeue(&mut out), Ok(()));
        assert_eq!(out[0], i + 100);
    }
    assert_eq!(r.head, 20);
    assert_eq!(r.tail, 20);
}

#[test]
fn ring_needs_a_power_of_two_and_a_capability() {
    let mut caps = CapTableManager::new();
    let rw = CapRights::read().union(CapRights::write());
    let h = mint(&mut caps, 0x10000, 0x1000, rw).unwrap();
    let ro = mint(&mut caps, 0x20000, 0x1000, CapRights::read()).unwrap();
    let r = create_ring(&caps, h, 0x10000, 8, 16).unwrap();
    assert_eq!(r.base, 0x10000);
    assert_eq!((r.capacity, r.slot_size, r.head, r.tail), (8, 16, 0, 0));
    assert_eq!(r.data.len(), 128);
    assert!(create_ring(&caps, h, 0x10000, 6, 16).is_none());
    // 192 + 256 * 16 bytes do not fit in the 4 KiB the capability covers
    assert!(create_ring(&caps, h, 0x10000, 256, 16).is_none());
    assert!(create_ring(&caps, h, 0x10000, 128, 30).is_some());
    assert!(create_ring(&caps, ro, 0x20000, 8, 16).is_none());
    assert!(create_ring(&caps, 0, 0x10000, 8, 16).is_none());
}

#[test]
fn ring_interleaved_history_is_fifo() {
    let mut r = SharedRing::new(0, 2, 1);
    let mut taken = Vec::new();
    let mut given = Vec::new();
    let mut out = vec![0u8];
    for i in 0..20u8 {
        if r.enqueue(&[i]).is_ok() {
            taken.push(i);
        }
        if i % 3 == 0 && r.dequeue(&mut out).is_ok() {
            given.push(out[0]);
        }
    }
    while r.dequeue(&mut out).is_ok() {
        given.push(out[0]);
    }
    assert_eq!(given, taken);
    assert_eq!(taken, vec![0, 1, 2, 4, 7, 10, 13, 16, 19]);
}

#[test]
fn lookup_follows_history() {
    let ep = |badge: u32| Capability { kind: CapKind::Endpoint, object: 7, badge, rights: 2 };
    let mut cs = CSpaceManager::new();
    assert!(install(&mut cs, 5, ep(1)));
    assert_eq!(alloc_cap(&mut cs, ep(2)), Some(1));
    assert_eq!(alloc_cap(&mut cs, ep(3)), Some(2));
    delete(&mut cs, 1);
    assert!(!install(&mut cs, 2, ep(4)));
    assert_eq!(alloc_cap(&mut cs, ep(5)), Some(1));
    delete(&mut cs, 5);
    assert_eq!(lookup(&cs, 1).map(|c| c.badge), Some(5));
    assert_eq!(lookup(&cs, 2).map(|c| c.badge), Some(3));
    assert!(lookup(&cs, 5).is_none());
    assert!(lookup(&cs, 0).is_none());
    assert!(lookup(&cs, 3).is_none());
}
