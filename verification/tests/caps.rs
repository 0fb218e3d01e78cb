use sane::mem::caps;
use sane::mem::caps::{check, mint, revoke, CapRights, CapTableManager, MAX_CAPS};

fn rw() -> CapRights {
    CapRights::read().union(CapRights::write())
}

fn rwg() -> CapRights {
    rw().union(CapRights::grant())
}

#[test]
fn rights_bits_and_subsets() {
    assert_eq!(CapRights::read().bits(), 1);
    assert_eq!(CapRights::write().bits(), 2);
    assert_eq!(CapRights::execute().bits(), 4);
    assert_eq!(CapRights::grant().bits(), 8);
    assert_eq!(CapRights::empty().bits(), 0);
    assert_eq!(rwg().bits(), 11);
    assert!(rwg().contains(rw()));
    assert!(!rw().contains(CapRights::grant()));
    assert!(rw().contains(CapRights::empty()));
}

#[test]
fn mint_grants_its_whole_range() {
    let mut m = CapTableManager::new();
    let h = mint(&mut m, 0x1000, 0x1000, rw()).unwrap();
    assert_eq!(h, 1);
    assert!(check(&m, h, 0x1000, 0x1000, rw()));
    assert!(check(&m, h, 0x1800, 0x10, CapRights::read()));
    assert!(!check(&m, h, 0x1800, 0x1000, CapRights::read()));
    assert!(!check(&m, h, 0x0fff, 0x10, CapRights::read()));
    assert!(!check(&m, h, 0x1000, 0x10, CapRights::execute()));
    assert!(!check(&m, h, u64::MAX, 2, CapRights::read()));
    assert!(!check(&m, 2, 0x1000, 0x10, CapRights::read()));
    assert!(!check(&m, MAX_CAPS as u32, 0x1000, 0x10, CapRights::read()));
}

#[test]
fn mint_hands_out_slots_in_order_until_full() {
    let mut m = CapTableManager::new();
    for i in 1..MAX_CAPS {
        assert_eq!(mint(&mut m, 0, 16, rw()), Some(i as u32));
    }
    assert_eq!(mint(&mut m, 0, 16, rw()), None);
}

#[test]
fn derive_narrows_range_and_rights() {
    let mut m = CapTableManager::new();
    let p = mint(&mut m, 0x10000, 0x1000, rwg()).unwrap();
    let c = caps::derive(&mut m, p, 0x100, 0x200, CapRights::read()).unwrap();
    assert_eq!(c, 2);
    assert!(check(&m, c, 0x10100, 0x200, CapRights::read()));
    assert!(!check(&m, c, 0x10100, 0x200, CapRights::write()));
    assert!(!check(&m, c, 0x100ff, 0x10, CapRights::read()));
    assert!(!check(&m, c, 0x10200, 0x101, CapRights::read()));
    // the parent keeps its grant
    assert!(check(&m, p, 0x10000, 0x1000, rwg()));
}

#[test]
fn derive_refusals() {
    let mut m = CapTableManager::new();
    let p = mint(&mut m, 0x10000, 0x1000, rwg()).unwrap();
    let no_grant = mint(&mut m, 0x20000, 0x1000, rw()).unwrap();
    assert_eq!(caps::derive(&mut m, no_grant, 0, 0x10, CapRights::read()), None);
    assert_eq!(caps::derive(&mut m, p, 0, 0x10, CapRights::execute()), None);
    assert_eq!(caps::derive(&mut m, p, 0x800, 0x801, CapRights::read()), None);
    assert_eq!(caps::derive(&mut m, p, u64::MAX, 2, CapRights::read()), None);
    assert_eq!(caps::derive(&mut m, 0, 0, 0x10, CapRights::read()), None);
    assert_eq!(caps::derive(&mut m, 77, 0, 0x10, CapRights::read()), None);
    assert_eq!(caps::derive(&mut m, MAX_CAPS as u32, 0, 0x10, CapRights::read()), None);
    // nothing was allocated by the refusals
    assert_eq!(caps::derive(&mut m, p, 0x800, 0x800, CapRights::read()), Some(3));
}

#[test]
fn revoke_frees_exactly_the_subtree() {
    let mut m = CapTableManager::new();
    let root = mint(&mut m, 0x100000, 0x10000, rwg()).unwrap();
    let a = caps::derive(&mut m, root, 0, 0x8000, rwg()).unwrap();
    let a1 = caps::derive(&mut m, a, 0, 0x1000, CapRights::read()).unwrap();
    let a2 = caps::derive(&mut m, a, 0x1000, 0x1000, rwg()).unwrap();
    let a21 = caps::derive(&mut m, a2, 0, 0x100, CapRights::read()).unwrap();
    let b = caps::derive(&mut m, root, 0x8000, 0x8000, rw()).unwrap();
    let other = mint(&mut m, 0x900000, 0x1000, rw()).unwrap();
    revoke(&mut m, a);
    for h in [a, a1, a2, a21] {
        assert!(!check(&m, h, 0x100000, 1, CapRights::empty()) && !check(&m, h, 0x101000, 1, CapRights::empty()));
    }
    assert!(check(&m, root, 0x100000, 0x10000, rwg()));
    assert!(check(&m, b, 0x108000, 0x8000, rw()));
    assert!(check(&m, other, 0x900000, 0x1000, rw()));
    // revoking the root now frees the remaining child too
    revoke(&mut m, root);
    assert!(!check(&m, root, 0x100000, 1, CapRights::empty()));
    assert!(!check(&m, b, 0x108000, 1, CapRights::empty()));
    assert!(check(&m, other, 0x900000, 0x1000, rw()));
}

#[test]
fn revoke_pushes_slots_in_post_order() {
    let mut m = CapTableManager::new();
    let root = mint(&mut m, 0, 0x1000, rwg()).unwrap();
    let c1 = caps::derive(&mut m, root, 0, 0x10, rwg()).unwrap();
    let c2 = caps::derive(&mut m, c1, 0, 0x8, CapRights::read()).unwrap();
    let c3 = caps::derive(&mut m, root, 0x10, 0x10, CapRights::read()).unwrap();
    assert_eq!((root, c1, c2, c3), (1, 2, 3, 4));
    // freed: c3 (newest child), then c2, c1, then root; the last freed is reused first
    revoke(&mut m, root);
    assert_eq!(mint(&mut m, 0, 1, rw()), Some(root));
    assert_eq!(mint(&mut m, 0, 1, rw()), Some(c1));
    assert_eq!(mint(&mut m, 0, 1, rw()), Some(c2));
    assert_eq!(mint(&mut m, 0, 1, rw()), Some(c3));
    assert_eq!(mint(&mut m, 0, 1, rw()), Some(5));
}

#[test]
fn revoke_of_a_middle_sibling_keeps_the_others() {
    let mut m = CapTableManager::new();
    let root = mint(&mut m, 0, 0x1000, rwg()).unwrap();
    let s1 = caps::derive(&mut m, root, 0, 0x10, CapRights::read()).unwrap();
    let s2 = caps::derive(&mut m, root, 0x10, 0x10, CapRights::read()).unwrap();
    let s3 = caps::derive(&mut m, root, 0x20, 0x10, CapRights::read()).unwrap();
    revoke(&mut m, s2);
    assert!(check(&m, s1, 0, 0x10, CapRights::read()));
    assert!(!check(&m, s2, 0x10, 0x10, CapRights::read()));
    assert!(check(&m, s3, 0x20, 0x10, CapRights::read()));
    // the chain was relinked: revoking the root still reaches both remaining children
    revoke(&mut m, root);
    assert!(!check(&m, s1, 0, 0x10, CapRights::read()));
    assert!(!check(&m, s3, 0x20, 0x10, CapRights::read()));
}

#[test]
fn revoke_of_nothing_changes_nothing() {
    let mut m = CapTableManager::new();
    let h = mint(&mut m, 0, 0x1000, rw()).unwrap();
    revoke(&mut m, 0);
    revoke(&mut m, 9);
    revoke(&mut m, MAX_CAPS as u32);
    revoke(&mut m, u32::MAX);
    assert!(check(&m, h, 0, 0x1000, rw()));
    assert_eq!(mint(&mut m, 0, 1, rw()), Some(2));
}

#[test]
fn derived_capability_dies_with_its_parent() {
    let mut m = CapTableManager::new();
    let p = mint(&mut m, 0x4000, 0x4000, rwg()).unwrap();
    let c = caps::derive(&mut m, p, 0x1000, 0x1000, rw()).unwrap();
    assert!(check(&m, c, 0x5000, 0x1000, rw()));
    revoke(&mut m, p);
    assert!(!check(&m, c, 0x5000, 0x1000, rw()));
}

#[test]
fn mint_takes_any_range_and_get_reads_it_back() {
    let mut m = CapTableManager::new();
    let h = mint(&mut m, u64::MAX - 10, 100, CapRights::read()).unwrap();
    assert_eq!(h, 1);
    let c = m.get(h).unwrap();
    assert_eq!((c.base, c.size, c.rights.0), (u64::MAX - 10, 100, 1));
    assert!(c.parent.is_none());
    // below the base no end is computed
    assert!(!check(&m, h, 0, 16, CapRights::read()));
    assert!(m.get(0).is_none());
    assert!(m.get(2).is_none());
    assert!(m.get(MAX_CAPS as u32).is_none());
}

#[test]
fn free_slots_run_out() {
    let mut m = CapTableManager::new();
    assert!(m.has_free_slot());
    for _ in 1..MAX_CAPS {
        assert!(mint(&mut m, 0, 4096, CapRights::read()).is_some());
    }
    assert!(!m.has_free_slot());
    revoke(&mut m, 7);
    assert!(m.has_free_slot());
    assert_eq!(mint(&mut m, 0, 16, CapRights::read()), Some(7));
}
