use sane::mem::pmm::{Pmm, USABLE_FRAMES};
use sane::mem::vmm::{
    freeze_region, handle_page_fault, map_huge_identity, maps_huge_page, set_mapping, CowCopy, PageTable, PteFlags, TableStore,
    VmmError, ADDR_MASK, ENTRIES, HUGE_ADDR_MASK, HUGE_SIZE, IDENTITY_FLAGS, KNOWN_FLAGS,
};

fn present_rw() -> PteFlags {
    PteFlags::present().union(PteFlags::writable())
}

#[test]
fn pmm_counts_after_init() {
    let p = Pmm::init();
    assert_eq!(p.total_frames(), USABLE_FRAMES);
    assert_eq!(p.free_frames(), USABLE_FRAMES);
    assert_eq!(USABLE_FRAMES, 130816);
}

#[test]
fn pmm_hands_out_lowest_frames_and_takes_them_back() {
    let mut p = Pmm::init();
    assert_eq!(p.alloc_frame(), Some(0x10_0000));
    assert_eq!(p.alloc_frame(), Some(0x10_1000));
    assert_eq!(p.free_frames(), USABLE_FRAMES - 2);
    p.free_frame(0x10_0000);
    assert_eq!(p.free_frames(), USABLE_FRAMES - 1);
    assert_eq!(p.alloc_frame(), Some(0x10_0000));
    assert_eq!(p.alloc_frame(), Some(0x10_2000));
}

#[test]
fn pmm_huge_frames_are_aligned_and_wholly_free() {
    let mut p = Pmm::init();
    assert_eq!(p.alloc_huge(), Some(0x20_0000));
    assert_eq!(p.free_frames(), USABLE_FRAMES - 512);
    assert_eq!(p.alloc_huge(), Some(0x40_0000));
    // a single frame taken from the next group pushes the next huge frame further
    let mut q = Pmm::init();
    for _ in 0..257 {
        q.alloc_frame().unwrap();
    }
    assert_eq!(q.alloc_frame(), Some(0x20_1000));
    assert_eq!(q.alloc_huge(), Some(0x40_0000));
}

#[test]
fn pmm_runs_dry() {
    let mut p = Pmm::init();
    let mut n = 0usize;
    while p.alloc_frame().is_some() {
        n += 1;
    }
    assert_eq!(n, USABLE_FRAMES);
    assert_eq!(p.free_frames(), 0);
    assert_eq!(p.alloc_huge(), None);
}

#[test]
fn pte_flags() {
    assert_eq!(PteFlags::present().bits(), 1);
    assert_eq!(PteFlags::huge().bits(), 0x80);
    assert_eq!(PteFlags::frozen().bits(), 0x200);
    assert_eq!(PteFlags::no_exec().bits(), 1 << 63);
    assert_eq!(PteFlags::from_bits_truncate(u64::MAX).bits(), KNOWN_FLAGS);
    let mut f = present_rw();
    f.insert(PteFlags::frozen());
    assert_eq!(f.bits(), 0x203);
    f.remove(PteFlags::writable());
    assert_eq!(f.bits(), 0x201);
    assert!(f.contains(PteFlags::present()));
    assert!(!f.contains(present_rw()));
    assert_eq!(PageTable::new().0.len(), ENTRIES);
}

#[test]
fn page_mapping_freezes_and_copies_once() {
    let mut top = PageTable::new();
    let mut store = TableStore::new();
    let mut pmm = Pmm::init();
    let virt = 0x0000_7f12_3456_7000usize;
    let phys = 0x0abc_d123usize;
    assert_eq!(set_mapping(&mut top, &mut store, &mut pmm, virt, phys, present_rw(), false), Ok(()));
    // three tables were needed, in the three lowest frames
    assert_eq!(pmm.free_frames(), USABLE_FRAMES - 3);
    let flushed = freeze_region(&top, &mut store, &pmm, virt, 4096, false);
    assert_eq!(flushed, vec![virt]);
    // a read fault copies nothing
    assert_eq!(handle_page_fault(&top, &mut store, &mut pmm, virt + 8, 0), Ok(None));
    let copy = handle_page_fault(&top, &mut store, &mut pmm, virt + 8, 2);
    assert_eq!(copy, Ok(Some(CowCopy { from: (phys as u64) & ADDR_MASK & !0xfff, to: 0x10_3000, len: 4096 })));
    // the entry is thawed: a second write fault is no copy-on-write fault
    assert_eq!(handle_page_fault(&top, &mut store, &mut pmm, virt, 2), Ok(None));
    assert_eq!(pmm.free_frames(), USABLE_FRAMES - 4);
}

#[test]
fn freezing_skips_pages_that_are_not_mapped() {
    let mut top = PageTable::new();
    let mut store = TableStore::new();
    let mut pmm = Pmm::init();
    let virt = 0x40_0000usize;
    assert_eq!(set_mapping(&mut top, &mut store, &mut pmm, virt, 0x9000, present_rw(), false), Ok(()));
    let flushed = freeze_region(&top, &mut store, &pmm, virt - 4096, 3 * 4096, false);
    assert_eq!(flushed, vec![virt]);
    assert_eq!(freeze_region(&top, &mut store, &pmm, 0x8000_0000, 8192, false), Vec::<usize>::new());
    assert_eq!(freeze_region(&top, &mut store, &pmm, virt, 0, false), Vec::<usize>::new());
    // faults on pages without an entry ask for nothing
    assert_eq!(handle_page_fault(&top, &mut store, &mut pmm, virt + 4096, 2), Ok(None));
    assert_eq!(handle_page_fault(&top, &mut store, &mut pmm, 0x1_0000_0000, 2), Ok(None));
}

#[test]
fn mapped_but_not_frozen_page_is_no_copy_on_write_fault() {
    let mut top = PageTable::new();
    let mut store = TableStore::new();
    let mut pmm = Pmm::init();
    assert_eq!(set_mapping(&mut top, &mut store, &mut pmm, 0x5000, 0x7000, present_rw(), false), Ok(()));
    assert_eq!(handle_page_fault(&top, &mut store, &mut pmm, 0x5000, 2), Ok(None));
}

#[test]
fn huge_page_copy_on_write() {
    let mut top = PageTable::new();
    let mut store = TableStore::new();
    let mut pmm = Pmm::init();
    let virt = 0x8000_0000usize;
    let flags = PteFlags::from_bits_truncate(IDENTITY_FLAGS);
    assert_eq!(set_mapping(&mut top, &mut store, &mut pmm, virt, 0x1234_5678, flags, true), Ok(()));
    assert_eq!(pmm.free_frames(), USABLE_FRAMES - 2);
    assert_eq!(freeze_region(&top, &mut store, &pmm, virt, HUGE_SIZE, true), vec![virt]);
    let copy = handle_page_fault(&top, &mut store, &mut pmm, virt + 0x1_2345, 2);
    assert_eq!(copy, Ok(Some(CowCopy { from: 0x1234_5678 & HUGE_ADDR_MASK, to: 0x20_0000, len: HUGE_SIZE })));
    assert_eq!(handle_page_fault(&top, &mut store, &mut pmm, virt, 2), Ok(None));
}

#[test]
fn identity_map_covers_the_range() {
    let mut top = PageTable::new();
    let mut store = TableStore::new();
    let mut pmm = Pmm::init();
    assert_eq!(map_huge_identity(&mut top, &mut store, &mut pmm, 0x1000, 0x30_0000), Ok(()));
    // the regions [0, 2 MiB) and [2 MiB, 4 MiB) cover bytes 0x1000 .. 0x301000
    let flushed = freeze_region(&top, &mut store, &pmm, 0, 0x80_0000, true);
    assert_eq!(flushed, vec![0, 0x20_0000]);
    let copy = handle_page_fault(&top, &mut store, &mut pmm, 0x20_1000, 2);
    assert_eq!(copy, Ok(Some(CowCopy { from: 0x20_0000, to: 0x20_0000, len: HUGE_SIZE })));
}

#[test]
fn mapping_and_copying_run_out_of_memory() {
    let mut top = PageTable::new();
    let mut store = TableStore::new();
    let mut pmm = Pmm::init();
    assert_eq!(set_mapping(&mut top, &mut store, &mut pmm, 0x5000, 0x7000, present_rw(), false), Ok(()));
    freeze_region(&top, &mut store, &pmm, 0x5000, 4096, false);
    while pmm.alloc_frame().is_some() {}
    assert_eq!(handle_page_fault(&top, &mut store, &mut pmm, 0x5000, 2), Err(VmmError::OutOfMemory));
    assert_eq!(
        set_mapping(&mut top, &mut store, &mut pmm, 0x7f00_0000_0000, 0x7000, present_rw(), false),
        Err(VmmError::OutOfMemory)
    );
    // a page under the existing tables needs no new table
    assert_eq!(set_mapping(&mut top, &mut store, &mut pmm, 0x6000, 0x8000, present_rw(), false), Ok(()));
    assert_eq!(map_huge_identity(&mut top, &mut store, &mut pmm, 0x10_0000_0000, 1), Err(VmmError::OutOfMemory));
}

#[test]
fn identity_tables_can_be_read_back() {
    let mut top = PageTable::new();
    let mut store = TableStore::new();
    let mut pmm = Pmm::init();
    assert_eq!(map_huge_identity(&mut top, &mut store, &mut pmm, 0, 0x40_0000), Ok(()));
    assert_eq!(store.table_count(), 2);
    assert_eq!(store.frame_at(0), 0x10_0000);
    assert_eq!(store.frame_at(1), 0x10_1000);
    assert_eq!(top.0[0], 0x10_0003);
    assert_eq!(store.read(0, 0), 0x10_1003);
    assert_eq!(store.read(1, 0), IDENTITY_FLAGS);
    assert_eq!(store.read(1, 1), 0x20_0000 | IDENTITY_FLAGS);
    assert_eq!(store.read(1, 2), 0);
    assert_eq!(ENTRIES, 512);
}

#[test]
fn huge_pages_are_told_apart() {
    let mut top = PageTable::new();
    let mut store = TableStore::new();
    let mut pmm = Pmm::init();
    assert!(!maps_huge_page(&top, &store, &pmm, 0x20_1000));
    assert_eq!(map_huge_identity(&mut top, &mut store, &mut pmm, 0, 0x40_0000), Ok(()));
    assert!(maps_huge_page(&top, &store, &pmm, 0x20_1000));
    assert!(maps_huge_page(&top, &store, &pmm, 0));
    assert!(!maps_huge_page(&top, &store, &pmm, 0x40_0000));
    assert_eq!(set_mapping(&mut top, &mut store, &mut pmm, 0x60_5000, 0x7000, present_rw(), false), Ok(()));
    assert!(!maps_huge_page(&top, &store, &pmm, 0x60_5000));
    assert!(!maps_huge_page(&top, &store, &pmm, 0x80_0000_0000));
}

#[test]
fn identity_map_leaves_other_mappings_alone() {
    let mut top = PageTable::new();
    let mut store = TableStore::new();
    let mut pmm = Pmm::init();
    assert_eq!(set_mapping(&mut top, &mut store, &mut pmm, 0x8000_0000, 0x7000, present_rw(), false), Ok(()));
    assert_eq!(store.table_count(), 3);
    assert_eq!(store.read(2, 0), 0x7003);
    assert_eq!(map_huge_identity(&mut top, &mut store, &mut pmm, 0, 0x40_0000), Ok(()));
    assert_eq!(store.table_count(), 4);
    assert_eq!(store.frame_at(3), 0x10_3000);
    assert_eq!(store.read(2, 0), 0x7003);
    assert_eq!(store.read(1, 0), 0x10_2003);
    assert_eq!(store.read(0, 2), 0x10_1003);
    assert_eq!(store.read(0, 0), 0x10_3003);
    assert_eq!(store.read(3, 0), IDENTITY_FLAGS);
    assert_eq!(store.read(3, 1), 0x20_0000 | IDENTITY_FLAGS);
}
