use vstd::prelude::*;

verus! {

#[derive(Clone, Copy, Default, Debug)]
pub struct LogicalCpu {
    pub apic_id: u32,
    pub smt_id: u8,
    pub core_id: u16,
    pub pkg_id: u8,
}

/// The width of a topology level from `cpuid` leaf 0xB: eax bits 0..5 when the level type
/// (ecx bits 8..16) is the expected one, else 0.
pub open spec fn level_width(eax: u32, ecx: u32, level_type: u32) -> u32 {
    if (ecx / 256) % 256 == level_type { eax % 32 } else { 0 }
}

/// A mask of the low `w` bits.
pub open spec fn low_mask(w: u32) -> u32 {
    ((1u32 << w) - 1) as u32
}

/// The topology of the processor with APIC id `edx1`, from the SMT level (eax0, ecx0) and
/// the core level (eax1, ecx1) of `cpuid` leaf 0xB: thread id in the low SMT-width bits,
/// core id in the bits up to the core width, package id above.
pub open spec fn intel_cpu(eax0: u32, ecx0: u32, eax1: u32, ecx1: u32, edx1: u32) -> LogicalCpu {
    let smt_w = level_width(eax0, ecx0, 1);
    let core_w = level_width(eax1, ecx1, 2);
    let smt_mask = low_mask(smt_w);
    let core_mask = low_mask(core_w) ^ smt_mask;
    let pkg_mask = !low_mask(core_w);
    LogicalCpu {
        apic_id: edx1,
        smt_id: (edx1 & smt_mask) as u8,
        core_id: ((edx1 & core_mask) >> smt_w) as u16,
        pkg_id: ((edx1 & pkg_mask) >> core_w) as u8,
    }
}

fn width(eax: u32, ecx: u32, level_type: u32) -> (w: u32)
    ensures
        w == level_width(eax, ecx, level_type),
        w < 32,
{
    proof {
        assert((ecx >> 8u32) & 0xFF == (ecx / 256) % 256 && eax & 0x1F == eax % 32) by (bit_vector);
    }
    if (ecx >> 8) & 0xFF == level_type { eax & 0x1F } else { 0 }
}

fn mask(w: u32) -> (m: u32)
    requires
        w < 32,
    ensures
        m == low_mask(w),
{
    proof {
        assert(1u32 << w >= 1) by (bit_vector) requires w < 32;
    }
    (1u32 << w).wrapping_sub(1)
}

/// Decodes the calling processor's topology.
pub fn probe(eax0: u32, ecx0: u32, eax1: u32, ecx1: u32, edx1: u32) -> (c: LogicalCpu)
    ensures
        c == intel_cpu(eax0, ecx0, eax1, ecx1, edx1),
{
    let smt_w = width(eax0, ecx0, 1);
    let core_w = width(eax1, ecx1, 2);
    let apic = edx1;
    let smt_mask = mask(smt_w);
    let core_mask = mask(core_w) ^ smt_mask;
    let pkg_mask = !mask(core_w);
    LogicalCpu {
        apic_id: apic,
        smt_id: (apic & smt_mask) as u8,
        core_id: ((apic & core_mask) >> smt_w) as u16,
        pkg_id: ((apic & pkg_mask) >> core_w) as u8,
    }
}

/// The topology table of `n` logical processors, each decoded from the same registers.
pub fn scan(n: u8, eax0: u32, ecx0: u32, eax1: u32, ecx1: u32, edx1: u32) -> (topo: Vec<LogicalCpu>)
    ensures
        topo@.len() == n,
        forall|i: int| 0 <= i < n ==> #[trigger] topo@[i] == intel_cpu(eax0, ecx0, eax1, ecx1, edx1),
{
    let mut topo: Vec<LogicalCpu> = Vec::new();
    let mut i: usize = 0;
    while i < n as usize
        invariant
            i <= n,
            topo@.len() == i,
            forall|j: int| 0 <= j < i ==> #[trigger] topo@[j] == intel_cpu(eax0, ecx0, eax1, ecx1, edx1),
        decreases n - i,
    {
        topo.push(probe(eax0, ecx0, eax1, ecx1, edx1));
        i = i + 1;
    }
    topo
}

/// The three ids split the APIC id at the level widths: the thread id is its bits below the
/// SMT width, the core id the bits from there up to the core width, the package id the bits
/// above; so, when the SMT level is no wider than the core level and each id fits its field,
/// putting them back in place gives the APIC id.
pub proof fn law_ids_split_the_apic_id(eax0: u32, ecx0: u32, eax1: u32, ecx1: u32, apic: u32)
    requires
        level_width(eax0, ecx0, 1) <= 8,
        level_width(eax0, ecx0, 1) <= level_width(eax1, ecx1, 2),
        level_width(eax1, ecx1, 2) - level_width(eax0, ecx0, 1) <= 16,
        apic >> level_width(eax1, ecx1, 2) < 256,
    ensures
        ({
            let c = intel_cpu(eax0, ecx0, eax1, ecx1, apic);
            let w1 = level_width(eax0, ecx0, 1);
            let w2 = level_width(eax1, ecx1, 2);
            &&& c.apic_id == apic
            &&& apic == (c.smt_id as u32) | ((c.core_id as u32) << w1) | ((c.pkg_id as u32) << w2)
        }),
{
    let w1 = level_width(eax0, ecx0, 1);
    let w2 = level_width(eax1, ecx1, 2);
    assert(w2 < 32);
    let c = intel_cpu(eax0, ecx0, eax1, ecx1, apic);
    assert(apic == ((apic & low_mask(w1)) as u8 as u32) | ((((apic & (low_mask(w2) ^ low_mask(w1))) >> w1) as u16 as u32) << w1)
        | ((((apic & !low_mask(w2)) >> w2) as u8 as u32) << w2)) by (bit_vector)
        requires
            w1 <= 8,
            w1 <= w2,
            w2 < 32,
            w2 - w1 <= 16,
            apic >> w2 < 256;
}

} // verus!
