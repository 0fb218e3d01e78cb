use vstd::prelude::*;

verus! {

#[derive(Clone, Copy, Debug)]
pub struct CacheLevel {
    pub level: u8,
    pub size_kb: u32,
    pub associativity: u8,
    pub shared_cpus: u8,
}

/// The number of cache sub-leaves that are read.
pub const MAX_CACHE_LEAVES: usize = 16;

/// A sub-leaf of `cpuid` 0x8000001D describes a cache unless its type (eax bits 0..5) is 0.
pub open spec fn leaf_present(eax: u32) -> bool {
    eax % 32 != 0
}

pub open spec fn leaf_ways(ebx: u32) -> int {
    (ebx / 4194304) % 1024 + 1
}

pub open spec fn leaf_partitions(ebx: u32) -> int {
    (ebx / 4096) % 1024 + 1
}

pub open spec fn leaf_line_size(ebx: u32) -> int {
    ebx % 4096 + 1
}

/// The cache size in bytes: ways × partitions × line size × sets.
pub open spec fn leaf_bytes(ebx: u32, ecx: u32) -> int {
    leaf_ways(ebx) * leaf_partitions(ebx) * leaf_line_size(ebx) * (ecx + 1)
}

/// The cache level a present sub-leaf describes.
pub open spec fn leaf_level(eax: u32, ebx: u32, ecx: u32) -> CacheLevel {
    CacheLevel {
        level: ((eax / 32) % 8) as u8,
        size_kb: (leaf_bytes(ebx, ecx) / 1024) as u32,
        associativity: leaf_ways(ebx) as u8,
        shared_cpus: (((eax / 16384) % 4096) as u8 + 1) as u8,
    }
}

/// The sub-leaf can be decoded without overflow.
pub open spec fn leaf_decodable(eax: u32, ebx: u32, ecx: u32) -> bool {
    &&& ecx < u32::MAX
    &&& leaf_bytes(ebx, ecx) <= u32::MAX
    &&& (((eax / 16384) % 4096) as u8) < 255
}

proof fn lemma_leaf_type(eax: u32)
    ensures
        eax & 0x1F == eax % 32,
{
    assert(eax & 0x1F == eax % 32) by (bit_vector);
}

/// Decodes one sub-leaf; `None` for a sub-leaf that describes no cache.
pub fn decode_leaf(eax: u32, ebx: u32, ecx: u32) -> (res: Option<CacheLevel>)
    requires
        leaf_present(eax) ==> leaf_decodable(eax, ebx, ecx),
    ensures
        !leaf_present(eax) ==> res is None,
        leaf_present(eax) ==> res == Some(leaf_level(eax, ebx, ecx)),
{
    proof {
        lemma_leaf_type(eax);
    }
    if eax & 0x1F == 0 {
        return None;
    }
    proof {
        assert((ebx >> 22u32) & 0x3FF == (ebx / 4194304) % 1024 && (ebx >> 12u32) & 0x3FF == (ebx / 4096) % 1024
            && ebx & 0xFFF == ebx % 4096 && (eax >> 5u32) & 0x7 == (eax / 32) % 8
            && (eax >> 14u32) & 0xFFF == (eax / 16384) % 4096) by (bit_vector);
    }
    let ways = ((ebx >> 22) & 0x3FF) + 1;
    let partitions = ((ebx >> 12) & 0x3FF) + 1;
    let line_size = (ebx & 0xFFF) + 1;
    let sets = ecx + 1;
    proof {
        assert(ways * partitions <= 1024 * 1024) by (nonlinear_arith) requires ways <= 1024, partitions <= 1024;
        assert(ways * partitions * line_size <= 1024 * 1024 * 4096) by (nonlinear_arith)
            requires ways * partitions <= 1024 * 1024, line_size <= 4096, ways * partitions >= 0;
        assert(ways * partitions * line_size * sets <= u32::MAX);
        assert(ways * partitions >= 0) by (nonlinear_arith) requires ways >= 0, partitions >= 0;
        assert(ways * partitions * line_size <= ways * partitions * line_size * sets) by (nonlinear_arith)
            requires ways * partitions * line_size >= 0, sets >= 1, ways * partitions >= 0, line_size >= 0;
        assert(ways * partitions <= ways * partitions * line_size) by (nonlinear_arith)
            requires ways * partitions >= 0, line_size >= 1;
    }
    let size = ways * partitions * line_size * sets;
    Some(CacheLevel {
        level: ((eax >> 5) & 0x7) as u8,
        size_kb: size / 1024,
        associativity: ways as u8,
        shared_cpus: ((eax >> 14) & 0xFFF) as u8 + 1,
    })
}

/// How many of the sub-leaves describe caches before the first that does not (at most
/// `MAX_CACHE_LEAVES`).
pub open spec fn present_prefix(leaves: Seq<(u32, u32, u32)>, k: int) -> bool {
    forall|j: int| 0 <= j < k ==> leaf_present(#[trigger] leaves[j].0)
}

/// Builds the cache table from the sub-leaves of `cpuid` 0x8000001D, in order, stopping at
/// the first sub-leaf that describes no cache.
pub fn build_topology(leaves: &Vec<(u32, u32, u32)>) -> (table: Vec<CacheLevel>)
    requires
        leaves@.len() == MAX_CACHE_LEAVES,
        forall|j: int| 0 <= j < MAX_CACHE_LEAVES && present_prefix(leaves@, j + 1) ==> leaf_decodable(
            #[trigger] leaves@[j].0,
            leaves@[j].1,
            leaves@[j].2,
        ),
    ensures
        table@.len() <= MAX_CACHE_LEAVES,
        present_prefix(leaves@, table@.len() as int),
        table@.len() < MAX_CACHE_LEAVES ==> !leaf_present(leaves@[table@.len() as int].0),
        forall|j: int| 0 <= j < table@.len() ==> #[trigger] table@[j] == leaf_level(leaves@[j].0, leaves@[j].1, leaves@[j].2),
{
    let mut table: Vec<CacheLevel> = Vec::new();
    let mut sub: usize = 0;
    while sub < MAX_CACHE_LEAVES
        invariant_except_break
            sub <= MAX_CACHE_LEAVES,
            leaves@.len() == MAX_CACHE_LEAVES,
            forall|j: int| 0 <= j < MAX_CACHE_LEAVES && present_prefix(leaves@, j + 1) ==> leaf_decodable(
                #[trigger] leaves@[j].0,
                leaves@[j].1,
                leaves@[j].2,
            ),
            table@.len() == sub,
            present_prefix(leaves@, sub as int),
            forall|j: int| 0 <= j < table@.len() ==> #[trigger] table@[j] == leaf_level(leaves@[j].0, leaves@[j].1, leaves@[j].2),
        ensures
            table@.len() <= MAX_CACHE_LEAVES,
            present_prefix(leaves@, table@.len() as int),
            table@.len() < MAX_CACHE_LEAVES ==> !leaf_present(leaves@[table@.len() as int].0),
            forall|j: int| 0 <= j < table@.len() ==> #[trigger] table@[j] == leaf_level(leaves@[j].0, leaves@[j].1, leaves@[j].2),
        decreases MAX_CACHE_LEAVES - sub,
    {
        let (eax, ebx, ecx) = leaves[sub];
        if eax & 0x1F == 0 {
            proof {
                lemma_leaf_type(eax);
            }
            break;
        }
        proof {
            lemma_leaf_type(eax);
            assert(present_prefix(leaves@, sub + 1));
        }
        match decode_leaf(eax, ebx, ecx) {
            Some(c) => table.push(c),
            None => {},
        }
        sub = sub + 1;
    }
    table
}

} // verus!
