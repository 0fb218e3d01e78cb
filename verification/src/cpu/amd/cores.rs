use vstd::prelude::*;

verus! {

#[derive(Clone, Copy, Default, Debug)]
pub struct LogicalCpu {
    pub apic_id: u32,
    pub core_id: u8,
    pub ccd_id: u8,
    pub ccx_id: u8,
    pub smt_id: u8,
}

/// The topology of a logical processor from ebx and ecx of `cpuid` 0x8000001E: core id in
/// ebx bits 0..8, thread id in ebx bits 8..16, die id in ecx bits 0..8, complex id in ecx
/// bits 8..11.
pub open spec fn amd_cpu(apic_id: u32, ebx: u32, ecx: u32) -> LogicalCpu {
    LogicalCpu {
        apic_id,
        core_id: (ebx % 256) as u8,
        ccx_id: ((ecx / 256) % 8) as u8,
        ccd_id: (ecx % 256) as u8,
        smt_id: ((ebx / 256) % 256) as u8,
    }
}

/// Decodes one logical processor.
pub fn probe(apic_id: u32, ebx: u32, ecx: u32) -> (c: LogicalCpu)
    ensures
        c == amd_cpu(apic_id, ebx, ecx),
{
    proof {
        assert(ebx & 0xFF == ebx % 256 && (ecx >> 8u32) & 0x7 == (ecx / 256) % 8 && ecx & 0xFF == ecx % 256
            && (ebx >> 8u32) & 0xFF == (ebx / 256) % 256) by (bit_vector);
    }
    LogicalCpu {
        apic_id,
        core_id: (ebx & 0xFF) as u8,
        ccx_id: ((ecx >> 8) & 0x7) as u8,
        ccd_id: (ecx & 0xFF) as u8,
        smt_id: ((ebx >> 8) & 0xFF) as u8,
    }
}

/// The topology table of `n` logical processors, entry `i` with APIC id `i`, all decoded
/// from the same `cpuid` registers.
pub fn scan(n: u8, ebx: u32, ecx: u32) -> (topo: Vec<LogicalCpu>)
    ensures
        topo@.len() == n,
        forall|i: int| 0 <= i < n ==> #[trigger] topo@[i] == amd_cpu(i as u32, ebx, ecx),
{
    let mut topo: Vec<LogicalCpu> = Vec::new();
    let mut i: usize = 0;
    while i < n as usize
        invariant
            i <= n,
            topo@.len() == i,
            forall|j: int| 0 <= j < i ==> #[trigger] topo@[j] == amd_cpu(j as u32, ebx, ecx),
        decreases n - i,
    {
        topo.push(probe(i as u32, ebx, ecx));
        i = i + 1;
    }
    topo
}

/// The identifiers are whole bit fields of the registers: the core id is the low byte of ebx
/// and the thread id the byte above it, so together they give back the low half of ebx; the
/// die id is the low byte of ecx and the complex id the three bits above it. Every entry of
/// a scan has its index as its APIC id.
pub proof fn law_topology_fields(apic_id: u32, ebx: u32, ecx: u32)
    ensures
        amd_cpu(apic_id, ebx, ecx).apic_id == apic_id,
        amd_cpu(apic_id, ebx, ecx).core_id + 256 * amd_cpu(apic_id, ebx, ecx).smt_id == ebx % 65536,
        amd_cpu(apic_id, ebx, ecx).ccd_id + 256 * (amd_cpu(apic_id, ebx, ecx).ccx_id as int) == ecx % 2048,
        ebx < 256 ==> amd_cpu(apic_id, ebx, ecx).core_id == ebx && amd_cpu(apic_id, ebx, ecx).smt_id == 0,
{
    assert(ebx % 65536 == ebx % 256 + 256 * ((ebx / 256) % 256)) by (nonlinear_arith);
    assert(ecx % 2048 == ecx % 256 + 256 * ((ecx / 256) % 8)) by (nonlinear_arith);
}

} // verus!
