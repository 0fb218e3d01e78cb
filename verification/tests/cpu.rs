use sane::cpu::amd::cache::{build_topology, decode_leaf, CacheLevel, MAX_CACHE_LEAVES};
use sane::cpu::amd::cores as amd;
use sane::cpu::boot::idt;
use sane::cpu::intel::cores as intel;
use sane::cpu::{core_count_from_ebx, tsc_from_parts, vendor_from_cpuid, CpuVendor};

const L1D: (u32, u32, u32) = (0x4021, 0x01C0_003F, 63);
const L2: (u32, u32, u32) = (0x4043, 0x01C0_003F, 1023);

fn fields(c: &CacheLevel) -> (u8, u32, u8, u8) {
    (c.level, c.size_kb, c.associativity, c.shared_cpus)
}

#[test]
fn vendor_strings() {
    assert_eq!(vendor_from_cpuid(0x6874_7541, 0x6974_6E65, 0x444D_4163), CpuVendor::Amd);
    assert_eq!(vendor_from_cpuid(0x756E_6547, 0x4965_6E69, 0x6C65_746E), CpuVendor::Intel);
    assert_eq!(vendor_from_cpuid(0x756E_6547, 0x6974_6E65, 0x444D_4163), CpuVendor::Other);
    assert_eq!(vendor_from_cpuid(0, 0, 0), CpuVendor::Other);
}

#[test]
fn logical_processor_count() {
    assert_eq!(core_count_from_ebx(0x0010_0800), 16);
    assert_eq!(core_count_from_ebx(0xFFFF_FFFF), 255);
    assert_eq!(core_count_from_ebx(0x0000_FFFF), 0);
}

#[test]
fn tsc_halves() {
    assert_eq!(tsc_from_parts(5, 1), 0x1_0000_0005);
    assert_eq!(tsc_from_parts(0xFFFF_FFFF, 0xFFFF_FFFF), u64::MAX);
    assert_eq!(tsc_from_parts(0, 0), 0);
}

#[test]
fn cache_leaf_decoding() {
    assert!(decode_leaf(0, 0x01C0_003F, 63).is_none());
    assert!(decode_leaf(0x20, 0x01C0_003F, 63).is_none());
    let l1 = decode_leaf(L1D.0, L1D.1, L1D.2).unwrap();
    assert_eq!(fields(&l1), (1, 32, 8, 2));
    let l2 = decode_leaf(L2.0, L2.1, L2.2).unwrap();
    assert_eq!(fields(&l2), (2, 512, 8, 2));
}

#[test]
fn cache_table_stops_at_first_empty_leaf() {
    let mut leaves = vec![(0u32, 0u32, 0u32); MAX_CACHE_LEAVES];
    leaves[0] = L1D;
    leaves[1] = L2;
    leaves[3] = L1D;
    let table = build_topology(&leaves);
    assert_eq!(table.len(), 2);
    assert_eq!(fields(&table[0]), (1, 32, 8, 2));
    assert_eq!(fields(&table[1]), (2, 512, 8, 2));
    let none = build_topology(&vec![(0u32, 0u32, 0u32); MAX_CACHE_LEAVES]);
    assert!(none.is_empty());
}

#[test]
fn amd_topology() {
    let c = amd::probe(3, 0x0000_0105, 0x0000_0302);
    assert_eq!((c.apic_id, c.core_id, c.smt_id, c.ccd_id, c.ccx_id), (3, 5, 1, 2, 3));
    let t = amd::scan(4, 0x0000_0105, 0x0000_0F02);
    assert_eq!(t.len(), 4);
    for (i, c) in t.iter().enumerate() {
        assert_eq!(c.apic_id, i as u32);
        assert_eq!((c.core_id, c.smt_id, c.ccd_id, c.ccx_id), (5, 1, 2, 7));
    }
    assert!(amd::scan(0, 1, 1).is_empty());
}

#[test]
fn intel_topology() {
    let c = intel::probe(1, 0x100, 4, 0x201, 23);
    assert_eq!((c.apic_id, c.smt_id, c.core_id, c.pkg_id), (23, 1, 3, 1));
    // the first level is not the SMT level: no thread bits
    let c = intel::probe(1, 0x200, 4, 0x201, 23);
    assert_eq!((c.smt_id, c.core_id, c.pkg_id), (0, 7, 1));
    // neither level type matches: everything is package
    let c = intel::probe(1, 0x300, 4, 0x301, 23);
    assert_eq!((c.smt_id, c.core_id, c.pkg_id), (0, 0, 23));
    let t = intel::scan(3, 1, 0x100, 4, 0x201, 23);
    assert_eq!(t.len(), 3);
    assert!(t.iter().all(|c| (c.apic_id, c.smt_id, c.core_id, c.pkg_id) == (23, 1, 3, 1)));
}

#[test]
fn descriptor_table_load_is_harmless() {
    idt::load();
}
