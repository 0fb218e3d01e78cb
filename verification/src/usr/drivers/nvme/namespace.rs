use vstd::prelude::*;

verus! {

#[derive(Debug, Clone, Copy)]
pub struct Namespace {
    pub nsid: u32,
    pub lba_size: u32,
    pub lba_count: u64,
    pub size_mb: u64,
}

/// `256` to the power `n`.
pub open spec fn pow256(n: nat) -> nat
    decreases n,
{
    if n == 0 { 1 } else { 256 * pow256((n - 1) as nat) }
}

/// The little-endian value of the `n` bytes of `s` from `start` on.
pub open spec fn le_value(s: Seq<u8>, start: int, n: nat) -> nat
    decreases n,
{
    if n == 0 { 0 } else { s[start] as nat + 256 * le_value(s, start + 1, (n - 1) as nat) }
}

proof fn lemma_le_bound(s: Seq<u8>, start: int, n: nat)
    ensures
        le_value(s, start, n) < pow256(n),
    decreases n,
{
    if n > 0 {
        lemma_le_bound(s, start + 1, (n - 1) as nat);
    }
}

/// The index of the LBA format in use, from byte 26 of the identify data.
pub open spec fn lba_format_index(data: Seq<u8>) -> int {
    (data[26] & 0xF) as int
}

/// The LBA format descriptor in use.
pub open spec fn lba_format(data: Seq<u8>) -> nat {
    le_value(data, 128 + lba_format_index(data) * 4, 4)
}

/// The log2 of the LBA size, from bits 16..24 of the format descriptor.
pub open spec fn lba_shift(data: Seq<u8>) -> nat {
    ((lba_format(data) / 65536) % 256) as nat
}

/// Reads the `n`-byte little-endian value at `start`.
fn read_le(data: &[u8; 4096], start: usize, n: usize) -> (v: u64)
    requires
        n <= 8,
        start + n <= 4096,
    ensures
        v == le_value(data@, start as int, n as nat),
{
    let mut v: u64 = 0;
    let mut k: usize = n;
    proof {
        assert(pow256(0) == 1);
    }
    while k > 0
        invariant
            k <= n <= 8,
            start + n <= 4096,
            v == le_value(data@, start + k, (n - k) as nat),
        decreases k,
    {
        k = k - 1;
        proof {
            lemma_le_bound(data@, start + k + 1, (n - k - 1) as nat);
            reveal_with_fuel(pow256, 8);
            assert(pow256(7) == 72057594037927936);
            lemma_pow256_mono((n - k - 1) as nat, 7);
        }
        v = v * 256 + data[start + k] as u64;
    }
    v
}

proof fn lemma_pow256_mono(a: nat, b: nat)
    requires
        a <= b,
    ensures
        pow256(a) <= pow256(b),
    decreases b,
{
    if a < b {
        lemma_pow256_mono(a, (b - 1) as nat);
    }
}

impl Namespace {
    /// The namespace described by identify data `data`: its size in blocks (bytes 0..8), its
    /// block size from the LBA format in use, and its size in MiB (rounded down).
    pub fn from_identify(nsid: u32, data: &[u8; 4096]) -> (ns: Self)
        requires
            lba_shift(data@) < 32,
            le_value(data@, 0, 8) * pow2_u32(lba_shift(data@)) <= u64::MAX,
        ensures
            ns.nsid == nsid,
            ns.lba_count == le_value(data@, 0, 8),
            ns.lba_size == pow2_u32(lba_shift(data@)),
            ns.size_mb == le_value(data@, 0, 8) * pow2_u32(lba_shift(data@)) / (1024 * 1024),
    {
        let nsze = read_le(data, 0, 8);
        let b26 = data[26];
        let lba_idx = (b26 & 0xF) as usize;
        proof {
            assert(b26 & 0xF <= 0xF) by (bit_vector);
        }
        let lba_fmt = read_le(data, 128 + lba_idx * 4, 4);
        proof {
            lemma_le_bound(data@, 128 + lba_idx * 4, 4);
            reveal_with_fuel(pow256, 5);
            assert(pow256(4) == 4294967296);
        }
        let fmt32 = lba_fmt as u32;
        let shift = (fmt32 >> 16) & 0xFF;
        proof {
            assert((fmt32 >> 16u32) & 0xFF == (fmt32 / 65536) % 256) by (bit_vector);
        }
        let lba_size: u32 = 1u32 << shift;
        proof {
            lemma_shl_pow2(shift);
        }
        Namespace { nsid, lba_size, lba_count: nsze, size_mb: (nsze * lba_size as u64) / (1024 * 1024) }
    }
}

/// `2` to the power `n`.
pub open spec fn pow2_u32(n: nat) -> nat
    decreases n,
{
    if n == 0 { 1 } else { 2 * pow2_u32((n - 1) as nat) }
}

proof fn lemma_shl_pow2(s: u32)
    requires
        s < 32,
    ensures
        1u32 << s == pow2_u32(s as nat),
    decreases s,
{
    if s == 0 {
        assert(1u32 << 0u32 == 1) by (bit_vector);
    } else {
        lemma_shl_pow2((s - 1) as u32);
        assert(1u32 << s == 2 * (1u32 << ((s - 1) as u32))) by (bit_vector)
            requires 0 < s < 32;
    }
}

} // verus!
