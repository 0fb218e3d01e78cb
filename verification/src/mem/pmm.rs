use vstd::prelude::*;
use vstd::std_specs::bits::{u64_trailing_zeros, axiom_u64_trailing_zeros};

verus! {

pub const PAGE_SIZE: usize = 4096;
pub const HUGE_SIZE: usize = 2097152;
/// The number of 4 KiB frames the bitmap covers (4 GiB of memory).
pub const MAX_FRAMES: usize = 1048576;
/// The number of 64-bit words of the bitmap.
pub const BITMAP_WORDS: usize = 16384;
/// The number of bitmap words a 2 MiB frame spans.
pub const WORDS_PER_HUGE: usize = 8;
/// The first frame that `init` makes available (1 MiB) and how many follow it (up to 512 MiB).
pub const FIRST_USABLE_FRAME: usize = 256;
pub const USABLE_FRAMES: usize = 130816;

/// Bit `j` of `w`.
pub open spec fn bit(w: u64, j: u64) -> bool {
    (w >> j) & 1u64 == 1u64
}

/// The number of set bits among the low `n` bits of `w`.
pub open spec fn ones(w: u64, n: nat) -> nat
    decreases n,
{
    if n == 0 {
        0
    } else {
        ones(w, (n - 1) as nat) + if bit(w, (n - 1) as u64) { 1nat } else { 0nat }
    }
}

/// The number of set bits of `w`.
pub open spec fn popcount(w: u64) -> nat {
    ones(w, 64)
}

/// The number of set bits in all the words.
pub open spec fn total_ones(s: Seq<u64>) -> nat
    decreases s.len(),
{
    if s.len() == 0 {
        0
    } else {
        total_ones(s.drop_last()) + popcount(s.last())
    }
}

/// Two words whose bits agree below `n` except at bit `b` have counts that differ by that bit.
proof fn lemma_ones_one_bit(w: u64, v: u64, b: u64, n: nat)
    requires
        b < 64,
        n <= 64,
        forall|j: u64| j < 64 && j != b ==> bit(w, j) == bit(v, j),
    ensures
        b < n ==> ones(v, n) + (if bit(w, b) { 1int } else { 0int }) == ones(w, n) + (if bit(v, b) { 1int } else { 0int }),
        b >= n ==> ones(v, n) == ones(w, n),
    decreases n,
{
    if n > 0 {
        lemma_ones_one_bit(w, v, b, (n - 1) as nat);
        if (n - 1) as u64 != b {
            assert(bit(w, (n - 1) as u64) == bit(v, (n - 1) as u64));
        }
    }
}

proof fn lemma_ones_all(w: u64, n: nat, on: bool)
    requires
        n <= 64,
        forall|j: u64| j < 64 ==> bit(w, j) == on,
    ensures
        ones(w, n) == if on { n } else { 0 },
    decreases n,
{
    if n > 0 {
        lemma_ones_all(w, (n - 1) as nat, on);
        assert(bit(w, (n - 1) as u64) == on);
    }
}

/// A word with bit `b` set counts at least one.
proof fn lemma_ones_pos(w: u64, b: u64, n: nat)
    requires
        b < n <= 64,
        bit(w, b),
    ensures
        ones(w, n) >= 1,
    decreases n,
{
    if (n - 1) as u64 != b {
        lemma_ones_pos(w, b, (n - 1) as nat);
    }
}

/// Changing one word changes the total by the difference of its counts.
proof fn lemma_total_update(s: Seq<u64>, i: int, v: u64)
    requires
        0 <= i < s.len(),
    ensures
        total_ones(s.update(i, v)) + popcount(s[i]) == total_ones(s) + popcount(v),
    decreases s.len(),
{
    let t = s.update(i, v);
    if i < s.len() - 1 {
        assert(t.drop_last() =~= s.drop_last().update(i, v));
        lemma_total_update(s.drop_last(), i, v);
    } else {
        assert(t.drop_last() =~= s.drop_last());
    }
}

/// One word's count is part of the total.
proof fn lemma_total_ge(s: Seq<u64>, i: int)
    requires
        0 <= i < s.len(),
    ensures
        total_ones(s) >= popcount(s[i]),
    decreases s.len(),
{
    if i < s.len() - 1 {
        lemma_total_ge(s.drop_last(), i);
    }
}

/// A run of words each with a full count adds up to 64 per word.
proof fn lemma_total_ge_run(s: Seq<u64>, i: int, k: int)
    requires
        0 <= i,
        i + k <= s.len(),
        0 <= k,
        forall|j: int| i <= j < i + k ==> #[trigger] s[j] == u64::MAX,
    ensures
        total_ones(s) >= 64 * k,
    decreases s.len(),
{
    if s.len() > 0 {
        if i + k == s.len() && k > 0 {
            assert forall|j: int| i <= j < i + k - 1 implies #[trigger] s.drop_last()[j] == u64::MAX by {
                assert(s.drop_last()[j] == s[j]);
            }
            lemma_total_ge_run(s.drop_last(), i, k - 1);
            assert forall|j: u64| j < 64 implies bit(u64::MAX, j) == true by {
                assert((u64::MAX >> j) & 1u64 == 1u64) by (bit_vector) requires j < 64;
            }
            lemma_ones_all(u64::MAX, 64, true);
        } else if k > 0 {
            assert forall|j: int| i <= j < i + k implies #[trigger] s.drop_last()[j] == u64::MAX by {
                assert(s.drop_last()[j] == s[j]);
            }
            lemma_total_ge_run(s.drop_last(), i, k);
        }
    }
}

/// Whether frame `f` is free in `bitmap`.
pub open spec fn frame_free(bitmap: Seq<u64>, f: int) -> bool {
    bit(bitmap[f / 64], (f % 64) as u64)
}

/// Whether the 2 MiB group starting at word `i` is wholly free.
pub open spec fn group_free(bitmap: Seq<u64>, i: int) -> bool {
    forall|j: int| i <= j < i + WORDS_PER_HUGE ==> #[trigger] bitmap[j] == u64::MAX
}

/// `alloc_frame` took `before` to `after` and answered `res`: `None` exactly when no frame is
/// free, and then nothing changes; otherwise the address of the lowest free frame, which is
/// no longer free afterwards, with one frame fewer counted free.
pub open spec fn frame_taken(before: Pmm, after: Pmm, res: Option<usize>) -> bool {
    &&& after.spec_total_frames() == before.spec_total_frames()
    &&& res is None <==> forall|f: int| 0 <= f < MAX_FRAMES ==> !#[trigger] before.is_free(f)
    &&& res is None ==> after == before
    &&& res matches Some(a) ==> exists|f: int| {
        &&& 0 <= f < MAX_FRAMES
        &&& a == f * PAGE_SIZE
        &&& #[trigger] before.is_free(f)
        &&& forall|g: int| 0 <= g < f ==> !#[trigger] before.is_free(g)
        &&& after.spec_bitmap() == before.spec_bitmap().update(
            f / 64,
            before.spec_bitmap()[f / 64] & !(1u64 << ((f % 64) as u64)),
        )
        &&& forall|g: int| 0 <= g < MAX_FRAMES ==> (#[trigger] after.is_free(g) <==> before.is_free(g) && g != f)
        &&& after.spec_free_frames() == before.spec_free_frames() - 1
    }
}

/// `alloc_huge` took `before` to `after` and answered `res`: `None` exactly when no aligned
/// 2 MiB group (eight bitmap words) is wholly free, and then nothing changes; otherwise the
/// address of the lowest such group, whose words are all cleared, with 512 frames fewer
/// counted free.
pub open spec fn huge_taken(before: Pmm, after: Pmm, res: Option<usize>) -> bool {
    &&& after.spec_total_frames() == before.spec_total_frames()
    &&& res is None <==> forall|g: int|
        0 <= g && g + WORDS_PER_HUGE <= BITMAP_WORDS && g % 8 == 0 ==> !#[trigger] group_free(before.spec_bitmap(), g)
    &&& res is None ==> after == before
    &&& res matches Some(a) ==> exists|g: int| {
        &&& 0 <= g && g + WORDS_PER_HUGE <= BITMAP_WORDS && g % 8 == 0
        &&& a == g * 64 * PAGE_SIZE
        &&& #[trigger] group_free(before.spec_bitmap(), g)
        &&& forall|h: int| 0 <= h < g && h % 8 == 0 ==> !#[trigger] group_free(before.spec_bitmap(), h)
        &&& after.spec_bitmap() == Seq::new(
            BITMAP_WORDS as nat,
            |j: int| if g <= j < g + WORDS_PER_HUGE { 0u64 } else { before.spec_bitmap()[j] },
        )
        &&& after.spec_free_frames() == before.spec_free_frames() - 512
    }
}

/// `free_frame(phys)` took `before` to `after`: the frame holding `phys` is marked free and
/// counted once more.
pub open spec fn frame_returned(before: Pmm, after: Pmm, phys: usize) -> bool {
    let f = (phys / PAGE_SIZE) as int;
    &&& after.spec_total_frames() == before.spec_total_frames()
    &&& after.spec_bitmap() == before.spec_bitmap().update(
        f / 64,
        before.spec_bitmap()[f / 64] | (1u64 << ((f % 64) as u64)),
    )
    &&& forall|g: int| 0 <= g < MAX_FRAMES ==> (#[trigger] after.is_free(g) <==> before.is_free(g) || g == f)
    &&& after.spec_free_frames() == before.spec_free_frames() + 1
}

/// The physical frame allocator: one bit per 4 KiB frame, set when the frame is free, and
/// the counts of usable and free frames.
pub struct Pmm {
    bitmap: Vec<u64>,
    total_frames: usize,
    free_frames: usize,
}

impl Pmm {
    pub closed spec fn spec_bitmap(&self) -> Seq<u64> {
        self.bitmap@
    }

    pub closed spec fn spec_free_frames(&self) -> nat {
        self.free_frames as nat
    }

    pub closed spec fn spec_total_frames(&self) -> nat {
        self.total_frames as nat
    }

    /// The bitmap covers every frame, and the free count is at least the number of free
    /// bits (a frame freed twice is counted twice).
    pub closed spec fn wf(&self) -> bool {
        &&& self.bitmap@.len() == BITMAP_WORDS
        &&& total_ones(self.bitmap@) <= self.free_frames
    }

    /// Whether frame `f` is free.
    pub open spec fn is_free(&self, f: int) -> bool {
        frame_free(self.spec_bitmap(), f)
    }

    /// The allocator after start-up: frames from 1 MiB up to 512 MiB are free, none else.
    pub fn init() -> (p: Self)
        ensures
            p.wf(),
            p.spec_total_frames() == USABLE_FRAMES,
            p.spec_free_frames() == USABLE_FRAMES,
            forall|f: int| 0 <= f < MAX_FRAMES ==> (#[trigger] p.is_free(f) <==> FIRST_USABLE_FRAME <= f < FIRST_USABLE_FRAME + USABLE_FRAMES),
    {
        let mut bitmap: Vec<u64> = Vec::new();
        let mut k: usize = 0;
        while k < BITMAP_WORDS
            invariant
                k <= BITMAP_WORDS,
                bitmap@.len() == k,
                forall|j: int| 0 <= j < k ==> #[trigger] bitmap@[j] == 0,
            decreases BITMAP_WORDS - k,
        {
            bitmap.push(0);
            k = k + 1;
        }
        let ghost zero = bitmap@;
        let mut i: usize = FIRST_USABLE_FRAME;
        proof {
            lemma_total_zero(zero);
            assert forall|f: int| 0 <= f < MAX_FRAMES implies !#[trigger] frame_free(bitmap@, f) by {
                lemma_zero_bit((f % 64) as u64);
            }
        }
        while i < FIRST_USABLE_FRAME + USABLE_FRAMES
            invariant
                FIRST_USABLE_FRAME <= i <= FIRST_USABLE_FRAME + USABLE_FRAMES,
                bitmap@.len() == BITMAP_WORDS,
                total_ones(bitmap@) == i - FIRST_USABLE_FRAME,
                forall|f: int| 0 <= f < MAX_FRAMES ==> (#[trigger] frame_free(bitmap@, f) <==> FIRST_USABLE_FRAME <= f < i),
            decreases FIRST_USABLE_FRAME + USABLE_FRAMES - i,
        {
            let wi = i / 64;
            let b = (i % 64) as u64;
            let w = bitmap[wi];
            let nw = w | (1u64 << b);
            proof {
                assert(!frame_free(bitmap@, i as int));
                lemma_set_bit(w, b);
                lemma_ones_one_bit(w, nw, b, 64);
                lemma_total_update(bitmap@, wi as int, nw);
            }
            let ghost before = bitmap@;
            bitmap.set(wi, nw);
            proof {
                assert forall|f: int| 0 <= f < MAX_FRAMES implies (#[trigger] frame_free(bitmap@, f) <==> FIRST_USABLE_FRAME <= f < i + 1) by {
                    assert(frame_free(before, f) <==> FIRST_USABLE_FRAME <= f < i);
                    if f / 64 == wi {
                        assert(bitmap@[f / 64] == nw);
                        if f != i {
                            assert(f % 64 != i % 64) by {
                                vstd::arithmetic::div_mod::lemma_fundamental_div_mod(f, 64);
                                vstd::arithmetic::div_mod::lemma_fundamental_div_mod(i as int, 64);
                            }
                            assert(bit(nw, (f % 64) as u64) == bit(w, (f % 64) as u64));
                            assert(before[f / 64] == w);
                        }
                    } else {
                        assert(bitmap@[f / 64] == before[f / 64]);
                    }
                }
            }
            i = i + 1;
        }
        Pmm { bitmap, total_frames: USABLE_FRAMES, free_frames: USABLE_FRAMES }
    }

    /// Takes the lowest free frame and returns its address (see `frame_taken`).
    pub fn alloc_frame(&mut self) -> (res: Option<usize>)
        requires
            old(self).wf(),
        ensures
            final(self).wf(),
            frame_taken(*old(self), *final(self), res),
    {
        let mut wi: usize = 0;
        while wi < BITMAP_WORDS
            invariant
                self.wf(),
                *self == *old(self),
                wi <= BITMAP_WORDS,
                forall|j: int| 0 <= j < wi ==> #[trigger] self.bitmap@[j] == 0,
            decreases BITMAP_WORDS - wi,
        {
            let word = self.bitmap[wi];
            if word != 0 {
                let b = word.trailing_zeros();
                proof {
                    axiom_u64_trailing_zeros(word);
                }
                let bb = b as u64;
                let nw = word & !(1u64 << bb);
                let f: usize = wi * 64 + b as usize;
                let ghost old_bm = self.bitmap@;
                proof {
                    lemma_clear_bit(word, bb);
                    lemma_ones_one_bit(word, nw, bb, 64);
                    lemma_total_update(old_bm, wi as int, nw);
                    lemma_total_ge(old_bm, wi as int);
                    lemma_ones_pos(word, bb, 64);
                    lemma_word_bits(f as int, wi as int, b as int);
                    assert(self.is_free(f as int));
                    assert forall|g: int| 0 <= g < f implies !#[trigger] self.is_free(g) by {
                        vstd::arithmetic::div_mod::lemma_fundamental_div_mod(g, 64);
                        if g / 64 < wi {
                            assert(self.bitmap@[g / 64] == 0);
                            lemma_zero_bit((g % 64) as u64);
                        } else {
                            assert(g / 64 == wi);
                            assert(((g % 64) as u64) < bb);
                        }
                    }
                }
                self.bitmap.set(wi, nw);
                self.free_frames = self.free_frames - 1;
                proof {
                    assert forall|g: int| 0 <= g < MAX_FRAMES implies (#[trigger] self.is_free(g) <==> old_bm_free(old_bm, g) && g != f) by {
                        if g / 64 == wi {
                            if g != f {
                                vstd::arithmetic::div_mod::lemma_fundamental_div_mod(g, 64);
                            }
                        } else {
                            assert(self.bitmap@[g / 64] == old_bm[g / 64]);
                        }
                    }
                    assert(f * PAGE_SIZE <= usize::MAX);
                }
                return Some(f * PAGE_SIZE);
            }
            wi = wi + 1;
        }
        proof {
            assert forall|f: int| 0 <= f < MAX_FRAMES implies !#[trigger] self.is_free(f) by {
                assert(self.bitmap@[f / 64] == 0);
                lemma_zero_bit((f % 64) as u64);
            }
        }
        None
    }

    /// Takes the lowest wholly free, 2 MiB aligned group of 512 frames and returns its
    /// address (see `huge_taken`).
    pub fn alloc_huge(&mut self) -> (res: Option<usize>)
        requires
            old(self).wf(),
        ensures
            final(self).wf(),
            huge_taken(*old(self), *final(self), res),
    {
        let mut i: usize = 0;
        while i + WORDS_PER_HUGE <= BITMAP_WORDS
            invariant
                self.wf(),
                *self == *old(self),
                i % 8 == 0,
                i <= BITMAP_WORDS,
                forall|h: int| 0 <= h < i && h % 8 == 0 ==> !#[trigger] group_free(self.bitmap@, h),
            decreases BITMAP_WORDS - i,
        {
            let mut all = true;
            let mut j: usize = i;
            while j < i + WORDS_PER_HUGE
                invariant
                    self.wf(),
                    i + WORDS_PER_HUGE <= BITMAP_WORDS,
                    i <= j <= i + WORDS_PER_HUGE,
                    all == forall|k: int| i <= k < j ==> #[trigger] self.bitmap@[k] == u64::MAX,
                decreases i + WORDS_PER_HUGE - j,
            {
                if self.bitmap[j] != u64::MAX {
                    all = false;
                }
                j = j + 1;
            }
            if all {
                let ghost old_bm = self.bitmap@;
                assert(forall|h: int| 0 <= h < i && h % 8 == 0 ==> !#[trigger] group_free(old(self).spec_bitmap(), h));
                proof {
                    lemma_total_ge_run(old_bm, i as int, WORDS_PER_HUGE as int);
                }
                let mut k: usize = i;
                while k < i + WORDS_PER_HUGE
                    invariant
                        i + WORDS_PER_HUGE <= BITMAP_WORDS,
                        i <= k <= i + WORDS_PER_HUGE,
                        self.bitmap@.len() == BITMAP_WORDS,
                        self.free_frames == old(self).free_frames,
                        self.total_frames == old(self).total_frames,
                        old_bm == old(self).bitmap@,
                        old_bm.len() == BITMAP_WORDS,
                        forall|j: int| i <= j < i + WORDS_PER_HUGE ==> #[trigger] old_bm[j] == u64::MAX,
                        total_ones(old_bm) <= self.free_frames,
                        total_ones(old_bm) >= 512,
                        total_ones(self.bitmap@) + 64 * (k - i) == total_ones(old_bm),
                        forall|j: int| 0 <= j < BITMAP_WORDS ==> #[trigger] self.bitmap@[j] == (if i <= j < k { 0u64 } else { old_bm[j] }),
                    decreases i + WORDS_PER_HUGE - k,
                {
                    proof {
                        lemma_total_update(self.bitmap@, k as int, 0u64);
                        assert forall|b: u64| b < 64 implies bit(u64::MAX, b) == true by {
                            assert((u64::MAX >> b) & 1u64 == 1u64) by (bit_vector) requires b < 64;
                        }
                        lemma_ones_all(u64::MAX, 64, true);
                        assert forall|b: u64| b < 64 implies bit(0u64, b) == false by {
                            lemma_zero_bit(b);
                        }
                        lemma_ones_all(0u64, 64, false);
                    }
                    self.bitmap.set(k, 0);
                    k = k + 1;
                }
                self.free_frames = self.free_frames - 512;
                proof {
                    assert(group_free(old_bm, i as int));
                    assert(group_free(old(self).spec_bitmap(), i as int));
                    assert(self.bitmap@ =~= Seq::new(
                        BITMAP_WORDS as nat,
                        |j: int| if i <= j < i + WORDS_PER_HUGE { 0u64 } else { old_bm[j] },
                    ));
                }
                return Some(i * 64 * PAGE_SIZE);
            }
            i = i + WORDS_PER_HUGE;
        }
        None
    }

    /// Marks the frame holding `phys` free and counts it (see `frame_returned`); freeing a
    /// frame that is already free counts it twice.
    pub fn free_frame(&mut self, phys: usize)
        requires
            old(self).wf(),
            phys / PAGE_SIZE < MAX_FRAMES,
            old(self).spec_free_frames() < usize::MAX,
        ensures
            final(self).wf(),
            frame_returned(*old(self), *final(self), phys),
    {
        let frame = phys / PAGE_SIZE;
        let wi = frame / 64;
        let b = (frame % 64) as u64;
        let w = self.bitmap[wi];
        let nw = w | (1u64 << b);
        let ghost old_bm = self.bitmap@;
        proof {
            lemma_set_bit(w, b);
            lemma_ones_one_bit(w, nw, b, 64);
            lemma_total_update(old_bm, wi as int, nw);
        }
        self.bitmap.set(wi, nw);
        self.free_frames = self.free_frames + 1;
        proof {
            assert forall|g: int| 0 <= g < MAX_FRAMES implies (#[trigger] self.is_free(g) <==> old_bm_free(old_bm, g) || g == frame) by {
                if g / 64 == wi {
                    if g != frame {
                        vstd::arithmetic::div_mod::lemma_fundamental_div_mod(g, 64);
                        vstd::arithmetic::div_mod::lemma_fundamental_div_mod(frame as int, 64);
                    }
                } else {
                    assert(self.bitmap@[g / 64] == old_bm[g / 64]);
                }
            }
        }
    }

    /// The number of frames counted free.
    pub fn free_frames(&self) -> (n: usize)
        ensures
            n == self.spec_free_frames(),
    {
        self.free_frames
    }

    /// The number of usable frames.
    pub fn total_frames(&self) -> (n: usize)
        ensures
            n == self.spec_total_frames(),
    {
        self.total_frames
    }
}

/// Whether frame `g` is free in `bm`.
pub open spec fn old_bm_free(bm: Seq<u64>, g: int) -> bool {
    frame_free(bm, g)
}

proof fn lemma_total_zero(s: Seq<u64>)
    requires
        forall|j: int| 0 <= j < s.len() ==> #[trigger] s[j] == 0,
    ensures
        total_ones(s) == 0,
    decreases s.len(),
{
    if s.len() > 0 {
        assert forall|j: int| 0 <= j < s.len() - 1 implies #[trigger] s.drop_last()[j] == 0 by {
            assert(s.drop_last()[j] == s[j]);
        }
        lemma_total_zero(s.drop_last());
        assert forall|j: u64| j < 64 implies bit(0u64, j) == false by {
            assert((0u64 >> j) & 1u64 == 0u64) by (bit_vector);
        }
        lemma_ones_all(0u64, 64, false);
    }
}

/// Taking a 2 MiB group frees no frame: a frame free afterwards was free before.
pub proof fn lemma_huge_taken_frees_nothing(before: Pmm, after: Pmm, res: Option<usize>, f: int)
    requires
        before.wf(),
        huge_taken(before, after, res),
        0 <= f < MAX_FRAMES,
        after.is_free(f),
    ensures
        before.is_free(f),
{
    if let Some(a) = res {
        let g = choose|g: int| {
            &&& 0 <= g && g + WORDS_PER_HUGE <= BITMAP_WORDS && g % 8 == 0
            &&& a == g * 64 * PAGE_SIZE
            &&& #[trigger] group_free(before.spec_bitmap(), g)
            &&& forall|h: int| 0 <= h < g && h % 8 == 0 ==> !#[trigger] group_free(before.spec_bitmap(), h)
            &&& after.spec_bitmap() == Seq::new(
                BITMAP_WORDS as nat,
                |j: int| if g <= j < g + WORDS_PER_HUGE { 0u64 } else { before.spec_bitmap()[j] },
            )
            &&& after.spec_free_frames() == before.spec_free_frames() - 512
        };
        lemma_zero_bit((f % 64) as u64);
    }
}

/// No bit of 0 is set.
proof fn lemma_zero_bit(j: u64)
    ensures
        !bit(0u64, j),
{
    assert((0u64 >> j) & 1u64 == 0u64) by (bit_vector);
}

/// Frame `f` lies in word `wi` at bit `b`.
proof fn lemma_word_bits(f: int, wi: int, b: int)
    requires
        f == wi * 64 + b,
        0 <= b < 64,
        0 <= wi,
    ensures
        f / 64 == wi,
        f % 64 == b,
{
    vstd::arithmetic::div_mod::lemma_fundamental_div_mod_converse(f, 64, wi, b);
}

/// Clearing bit `b` of `w` clears that bit and keeps the others.
proof fn lemma_clear_bit(w: u64, b: u64)
    requires
        b < 64,
    ensures
        !bit(w & !(1u64 << b), b),
        forall|j: u64| j < 64 && j != b ==> bit(w & !(1u64 << b), j) == bit(w, j),
{
    assert(((w & !(1u64 << b)) >> b) & 1u64 != 1u64) by (bit_vector) requires b < 64;
    assert forall|j: u64| j < 64 && j != b implies bit(w & !(1u64 << b), j) == bit(w, j) by {
        assert(((w & !(1u64 << b)) >> j) & 1u64 == (w >> j) & 1u64) by (bit_vector) requires j < 64, b < 64, j != b;
    }
}

/// Setting bit `b` of `w` sets that bit and keeps the others.
proof fn lemma_set_bit(w: u64, b: u64)
    requires
        b < 64,
    ensures
        bit(w | (1u64 << b), b),
        forall|j: u64| j < 64 && j != b ==> bit(w | (1u64 << b), j) == bit(w, j),
{
    assert(((w | (1u64 << b)) >> b) & 1u64 == 1u64) by (bit_vector) requires b < 64;
    assert forall|j: u64| j < 64 && j != b implies bit(w | (1u64 << b), j) == bit(w, j) by {
        assert(((w | (1u64 << b)) >> j) & 1u64 == (w >> j) & 1u64) by (bit_vector) requires j < 64, b < 64, j != b;
    }
}

/// Freeing the frame that `alloc_frame` just handed out gives back the bitmap and the free
/// count as they were before the allocation.
pub proof fn law_free_undoes_alloc(p0: Pmm, p1: Pmm, p2: Pmm, a: usize)
    requires
        p0.wf(),
        frame_taken(p0, p1, Some(a)),
        frame_returned(p1, p2, a),
    ensures
        p2.spec_bitmap() == p0.spec_bitmap(),
        p2.spec_free_frames() == p0.spec_free_frames(),
        p2.spec_total_frames() == p0.spec_total_frames(),
{
    let f = choose|f: int| {
        &&& 0 <= f < MAX_FRAMES
        &&& a == f * PAGE_SIZE
        &&& #[trigger] p0.is_free(f)
        &&& forall|g: int| 0 <= g < f ==> !#[trigger] p0.is_free(g)
        &&& p1.spec_bitmap() == p0.spec_bitmap().update(
            f / 64,
            p0.spec_bitmap()[f / 64] & !(1u64 << ((f % 64) as u64)),
        )
        &&& forall|g: int| 0 <= g < MAX_FRAMES ==> (#[trigger] p1.is_free(g) <==> p0.is_free(g) && g != f)
        &&& p1.spec_free_frames() == p0.spec_free_frames() - 1
    };
    vstd::arithmetic::div_mod::lemma_fundamental_div_mod_converse(a as int, PAGE_SIZE as int, f, 0);
    let w = p0.spec_bitmap()[f / 64];
    let b = (f % 64) as u64;
    assert(b < 64);
    assert(bit(w, b));
    assert((w & !(1u64 << b)) | (1u64 << b) == w) by (bit_vector)
        requires (w >> b) & 1u64 == 1u64, b < 64;
    assert(p2.spec_bitmap() =~= p0.spec_bitmap());
}

/// A frame that `alloc_frame` hands out is no longer free, so the next allocation hands out
/// another frame.
pub proof fn law_alloc_gives_distinct_frames(p0: Pmm, p1: Pmm, p2: Pmm, a: usize, b: usize)
    requires
        frame_taken(p0, p1, Some(a)),
        frame_taken(p1, p2, Some(b)),
    ensures
        a != b,
{
    let f = choose|f: int| {
        &&& 0 <= f < MAX_FRAMES
        &&& a == f * PAGE_SIZE
        &&& #[trigger] p0.is_free(f)
        &&& forall|g: int| 0 <= g < f ==> !#[trigger] p0.is_free(g)
        &&& p1.spec_bitmap() == p0.spec_bitmap().update(
            f / 64,
            p0.spec_bitmap()[f / 64] & !(1u64 << ((f % 64) as u64)),
        )
        &&& forall|g: int| 0 <= g < MAX_FRAMES ==> (#[trigger] p1.is_free(g) <==> p0.is_free(g) && g != f)
        &&& p1.spec_free_frames() == p0.spec_free_frames() - 1
    };
    let e = choose|e: int| {
        &&& 0 <= e < MAX_FRAMES
        &&& b == e * PAGE_SIZE
        &&& #[trigger] p1.is_free(e)
        &&& forall|g: int| 0 <= g < e ==> !#[trigger] p1.is_free(g)
        &&& p2.spec_bitmap() == p1.spec_bitmap().update(
            e / 64,
            p1.spec_bitmap()[e / 64] & !(1u64 << ((e % 64) as u64)),
        )
        &&& forall|g: int| 0 <= g < MAX_FRAMES ==> (#[trigger] p2.is_free(g) <==> p1.is_free(g) && g != e)
        &&& p2.spec_free_frames() == p1.spec_free_frames() - 1
    };
    assert(e != f);
    if a == b {
        assert(f * PAGE_SIZE == e * PAGE_SIZE);
        assert(f == e) by (nonlinear_arith) requires f * 4096 == e * 4096;
    }
}

/// A freed frame is free afterwards.
pub proof fn law_freed_frame_is_free(p0: Pmm, p1: Pmm, phys: usize)
    requires
        frame_returned(p0, p1, phys),
        phys / PAGE_SIZE < MAX_FRAMES,
    ensures
        p1.is_free((phys / PAGE_SIZE) as int),
{
}

} // verus!
