pub mod amd;
pub mod boot;
pub mod intel;

use vstd::prelude::*;

verus! {

#[derive(Clone, Copy, Debug, PartialEq, Eq, Structural)]
pub enum CpuVendor {
    Amd,
    Intel,
    Other,
}

/// The vendor named by the identification string that `cpuid` leaf 0 gives in ebx, edx,
/// ecx: "AuthenticAMD", "GenuineIntel", or anything else.
pub open spec fn vendor_of(ebx: u32, edx: u32, ecx: u32) -> CpuVendor {
    if ebx == 0x6874_7541 && edx == 0x6974_6E65 && ecx == 0x444D_4163 {
        CpuVendor::Amd
    } else if ebx == 0x756E_6547 && edx == 0x4965_6E69 && ecx == 0x6C65_746E {
        CpuVendor::Intel
    } else {
        CpuVendor::Other
    }
}

/// Decides the vendor from the registers of `cpuid` leaf 0.
pub fn vendor_from_cpuid(ebx: u32, edx: u32, ecx: u32) -> (v: CpuVendor)
    ensures
        v == vendor_of(ebx, edx, ecx),
{
    if ebx == 0x6874_7541 && edx == 0x6974_6E65 && ecx == 0x444D_4163 {
        CpuVendor::Amd
    } else if ebx == 0x756E_6547 && edx == 0x4965_6E69 && ecx == 0x6C65_746E {
        CpuVendor::Intel
    } else {
        CpuVendor::Other
    }
}

/// The logical processor count, bits 16..24 of ebx of `cpuid` leaf 1.
pub fn core_count_from_ebx(ebx: u32) -> (n: u8)
    ensures
        n == (ebx / 65536) % 256,
{
    proof {
        assert((ebx >> 16u32) & 0xFF == (ebx / 65536) % 256) by (bit_vector);
    }
    ((ebx >> 16) & 0xFF) as u8
}

/// The time-stamp counter from the two halves `rdtsc` gives.
pub fn tsc_from_parts(lo: u32, hi: u32) -> (t: u64)
    ensures
        t == hi * 4294967296 + lo,
{
    let h = hi as u64;
    let l = lo as u64;
    proof {
        assert((h << 32u64) | l == h * 4294967296 + l) by (bit_vector)
            requires h < 4294967296, l < 4294967296;
    }
    (h << 32) | l
}

/// The vendor is read from the twelve characters `cpuid` leaf 0 spells in ebx, edx, ecx, four
/// per register, lowest byte first: "AuthenticAMD" is AMD, "GenuineIntel" is Intel, and any
/// other string is neither.
pub proof fn law_vendor_string(ebx: u32, edx: u32, ecx: u32)
    ensures
        (ebx == 0x41 + 256 * 0x75 + 65536 * 0x74 + 16777216 * 0x68 && edx == 0x65 + 256 * 0x6E + 65536 * 0x74 + 16777216 * 0x69
            && ecx == 0x63 + 256 * 0x41 + 65536 * 0x4D + 16777216 * 0x44) <==> vendor_of(ebx, edx, ecx) == CpuVendor::Amd,
        (ebx == 0x47 + 256 * 0x65 + 65536 * 0x6E + 16777216 * 0x75 && edx == 0x69 + 256 * 0x6E + 65536 * 0x65 + 16777216 * 0x49
            && ecx == 0x6E + 256 * 0x74 + 65536 * 0x65 + 16777216 * 0x6C) <==> vendor_of(ebx, edx, ecx) == CpuVendor::Intel,
{
}

} // verus!
