//! Four-level x86-64 page tables: mapping pages, freezing regions for copy-on-write, and the
//! copy-on-write fault decision. The tables below the top-level one are held in a
//! `TableStore`, each under the address of the physical frame it lives in; the frames come
//! from the physical frame allocator.
use vstd::prelude::*;
use crate::mem::pmm::{Pmm, frame_taken, huge_taken, lemma_huge_taken_frees_nothing, MAX_FRAMES, PAGE_SIZE};

verus! {

/// The number of entries of a page table.
pub const ENTRIES: usize = 512;
/// The size of a huge page (2 MiB).
pub const HUGE_SIZE: usize = 2097152;
/// The bits of an entry that hold the address of a 4 KiB frame.
pub const ADDR_MASK: u64 = 0x000F_FFFF_FFFF_F000;
/// The bits of an entry that hold the address of a 2 MiB frame.
pub const HUGE_ADDR_MASK: u64 = 0x000F_FFFF_FFE0_0000;
/// The flag bits that `PteFlags` names.
pub const KNOWN_FLAGS: u64 = 0x8000_0000_0000_0387;

/// The flags of a page-table entry, one bit each.
#[derive(Clone, Copy, Debug, PartialEq, Eq, Structural)]
pub struct PteFlags(pub u64);

impl PteFlags {
    pub fn present() -> (f: Self)
        ensures
            f.0 == 1,
    {
        PteFlags(1)
    }

    pub fn writable() -> (f: Self)
        ensures
            f.0 == 2,
    {
        PteFlags(2)
    }

    pub fn user() -> (f: Self)
        ensures
            f.0 == 4,
    {
        PteFlags(4)
    }

    pub fn huge() -> (f: Self)
        ensures
            f.0 == 0x80,
    {
        PteFlags(0x80)
    }

    pub fn global() -> (f: Self)
        ensures
            f.0 == 0x100,
    {
        PteFlags(0x100)
    }

    /// Marks a page shared read-only until its first write copies it.
    pub fn frozen() -> (f: Self)
        ensures
            f.0 == 0x200,
    {
        PteFlags(0x200)
    }

    pub fn no_exec() -> (f: Self)
        ensures
            f.0 == 0x8000_0000_0000_0000,
    {
        PteFlags(0x8000_0000_0000_0000)
    }

    pub fn bits(&self) -> (b: u64)
        ensures
            b == self.0,
    {
        self.0
    }

    /// The flags among `bits` that have a name here; the other bits are dropped.
    pub fn from_bits_truncate(bits: u64) -> (f: Self)
        ensures
            f.0 == bits & KNOWN_FLAGS,
    {
        PteFlags(bits & KNOWN_FLAGS)
    }

    /// Whether every flag of `other` is set.
    pub fn contains(&self, other: PteFlags) -> (res: bool)
        ensures
            res == (self.0 & other.0 == other.0),
    {
        self.0 & other.0 == other.0
    }

    /// The flags of either.
    pub fn union(&self, other: PteFlags) -> (f: Self)
        ensures
            f.0 == self.0 | other.0,
    {
        PteFlags(self.0 | other.0)
    }

    pub fn insert(&mut self, other: PteFlags)
        ensures
            final(self).0 == old(self).0 | other.0,
    {
        self.0 = self.0 | other.0;
    }

    pub fn remove(&mut self, other: PteFlags)
        ensures
            final(self).0 == old(self).0 & !other.0,
    {
        self.0 = self.0 & !other.0;
    }
}

/// A page table: 512 entries.
pub struct PageTable(pub Vec<u64>);

impl PageTable {
    /// A table with every entry zero (nothing present).
    pub fn new() -> (t: Self)
        ensures
            t.0@.len() == ENTRIES,
            forall|j: int| 0 <= j < ENTRIES ==> #[trigger] t.0@[j] == 0,
    {
        let mut v: Vec<u64> = Vec::new();
        let mut k: usize = 0;
        while k < ENTRIES
            invariant
                k <= ENTRIES,
                v@.len() == k,
                forall|j: int| 0 <= j < k ==> #[trigger] v@[j] == 0,
            decreases ENTRIES - k,
        {
            v.push(0);
            k = k + 1;
        }
        PageTable(v)
    }
}

/// Whether entry `e` is present.
pub open spec fn present(e: u64) -> bool {
    e & 1 != 0
}

/// Whether entry `e` maps a huge page (in a page directory).
pub open spec fn huge_entry(e: u64) -> bool {
    e & 0x80 != 0
}

/// The 4 KiB frame address that entry `e` holds.
pub open spec fn frame_of(e: u64) -> u64 {
    e & ADDR_MASK
}

/// The index that virtual address `v` selects in a table whose entries cover `1 << shift`
/// bytes each.
pub open spec fn idx(v: u64, shift: u64) -> int {
    ((v >> shift) & 0x1FF) as int
}

/// The page tables below a top-level table, as they sit in physical memory: for each, the
/// address of the frame that holds it, its level (3: page-directory-pointer tables, 2: page
/// directories, 1: page tables) and its 512 entries.
pub struct TableStore {
    addrs: Vec<u64>,
    levels: Vec<u8>,
    entries: Vec<u64>,
}

impl TableStore {
    /// The frames that hold tables, in the order the tables were added.
    pub closed spec fn frames(&self) -> Seq<u64> {
        self.addrs@
    }

    pub closed spec fn spec_levels(&self) -> Seq<u8> {
        self.levels@
    }

    pub closed spec fn spec_entries(&self) -> Seq<u64> {
        self.entries@
    }

    /// Each table has a level and 512 entries, and no two tables share a frame.
    pub closed spec fn shape(&self) -> bool {
        &&& self.levels@.len() == self.addrs@.len()
        &&& self.entries@.len() == self.addrs@.len() * 512
        &&& self.addrs@.no_duplicates()
    }

    /// Whether a table lives at frame `a`.
    pub open spec fn has(&self, a: u64) -> bool {
        self.frames().contains(a)
    }

    /// The position of the table at frame `a`.
    pub open spec fn pos(&self, a: u64) -> int {
        self.frames().index_of(a)
    }

    /// The level of the table at frame `a`.
    pub open spec fn level(&self, a: u64) -> u8 {
        self.spec_levels()[self.pos(a)]
    }

    /// Entry `j` of the table at frame `a`.
    pub open spec fn entry(&self, a: u64, j: int) -> u64 {
        self.spec_entries()[self.pos(a) * 512 + j]
    }

    /// No table yet.
    pub fn new() -> (s: Self)
        ensures
            s.shape(),
            s.frames().len() == 0,
    {
        TableStore { addrs: Vec::new(), levels: Vec::new(), entries: Vec::new() }
    }

    /// The position of the table at frame `a`, if there is one.
    fn find(&self, a: u64) -> (res: Option<usize>)
        requires
            self.shape(),
        ensures
            res is None <==> !self.has(a),
            res matches Some(i) ==> i < self.frames().len() && i == self.pos(a) && self.frames()[i as int] == a,
    {
        let mut i: usize = 0;
        while i < self.addrs.len()
            invariant
                self.shape(),
                i <= self.addrs@.len(),
                forall|w: int| 0 <= w < i ==> #[trigger] self.addrs@[w] != a,
            decreases self.addrs@.len() - i,
        {
            if self.addrs[i] == a {
                proof {
                    assert(self.frames().contains(a));
                    let w = self.pos(a);
                    assert(self.addrs@[w] == a);
                }
                return Some(i);
            }
            i = i + 1;
        }
        None
    }

    /// The number of tables held.
    pub fn table_count(&self) -> (n: usize)
        ensures
            n == self.frames().len(),
    {
        self.addrs.len()
    }

    /// The frame that holds the table at position `i`.
    pub fn frame_at(&self, i: usize) -> (a: u64)
        requires
            i < self.frames().len(),
        ensures
            a == self.frames()[i as int],
    {
        self.addrs[i]
    }

    /// Entry `j` of the table at position `i`.
    pub fn read(&self, i: usize, j: usize) -> (e: u64)
        requires
            self.shape(),
            i < self.frames().len(),
            j < ENTRIES,
        ensures
            e == self.entry(self.frames()[i as int], j as int),
    {
        proof {
            self.lemma_pos(i as int);
            assert(self.entries@.len() == self.entries.len());
        }
        self.entries[i * 512 + j]
    }

    /// Sets entry `j` of the table at position `i`.
    fn write(&mut self, i: usize, j: usize, e: u64)
        requires
            old(self).shape(),
            i < old(self).frames().len(),
            j < ENTRIES,
        ensures
            final(self).shape(),
            final(self).frames() == old(self).frames(),
            final(self).spec_levels() == old(self).spec_levels(),
            written(*old(self), *final(self), old(self).frames()[i as int], j as int, e),
            forall|a: u64, w: int| old(self).has(a) && 0 <= w < ENTRIES ==> #[trigger] final(self).entry(a, w) == if a == old(self).frames()[i as int] && w == j {
                e
            } else {
                old(self).entry(a, w)
            },
    {
        proof {
            self.lemma_pos(i as int);
            assert(self.entries@.len() == self.entries.len());
        }
        let ghost before = *self;
        self.entries.set(i * 512 + j, e);
        proof {
            assert forall|a: u64, w: int| before.has(a) && 0 <= w < ENTRIES implies #[trigger] self.entry(a, w) == if a == before.frames()[i as int] && w == j {
                e
            } else {
                before.entry(a, w)
            } by {
                if !(a == before.frames()[i as int] && w == j) {
                    let q = before.pos(a);
                    before.lemma_pos_in(a);
                    assert(q * 512 + w != i * 512 + j) by (nonlinear_arith)
                        requires
                            0 <= w < 512,
                            0 <= j < 512,
                            q != i || w != j;
                }
            }
        }
    }

    /// Adds a table with every entry zero at frame `a`, of level `level`.
    fn add(&mut self, a: u64, level: u8) -> (i: usize)
        requires
            old(self).shape(),
            !old(self).has(a),
        ensures
            final(self).shape(),
            i == old(self).frames().len(),
            final(self).frames() == old(self).frames().push(a),
            final(self).spec_levels() == old(self).spec_levels().push(level),
            final(self).pos(a) == i,
            forall|b: u64, w: int| old(self).has(b) && 0 <= w < ENTRIES ==> #[trigger] final(self).entry(b, w) == old(self).entry(b, w),
            forall|b: u64| old(self).has(b) ==> #[trigger] final(self).pos(b) == old(self).pos(b),
            forall|w: int| 0 <= w < ENTRIES ==> #[trigger] final(self).entry(a, w) == 0,
    {
        let ghost before = *self;
        let i = self.addrs.len();
        self.addrs.push(a);
        self.levels.push(level);
        let mut k: usize = 0;
        while k < ENTRIES
            invariant
                k <= ENTRIES,
                self.entries@.len() == before.entries@.len() + k,
                forall|w: int| 0 <= w < before.entries@.len() ==> #[trigger] self.entries@[w] == before.entries@[w],
                forall|w: int| before.entries@.len() <= w < before.entries@.len() + k ==> #[trigger] self.entries@[w] == 0,
                self.addrs@ == before.addrs@.push(a),
                self.levels@ == before.levels@.push(level),
                before.shape(),
                i == before.addrs@.len(),
            decreases ENTRIES - k,
        {
            self.entries.push(0);
            k = k + 1;
        }
        proof {
            assert(self.addrs@.no_duplicates()) by {
                assert forall|x: int, y: int| 0 <= x < self.addrs@.len() && 0 <= y < self.addrs@.len() && x != y
                    implies self.addrs@[x] != self.addrs@[y] by {
                    if x == i {
                        assert(before.addrs@.contains(self.addrs@[y]) || y == i);
                    } else if y == i {
                        assert(before.addrs@.contains(self.addrs@[x]));
                    }
                }
            }
            assert(self.frames()[i as int] == a);
            self.lemma_pos(i as int);
            assert forall|b: u64| before.has(b) implies #[trigger] self.pos(b) == before.pos(b) by {
                before.lemma_pos_in(b);
                self.lemma_pos(before.pos(b));
            }
            assert forall|b: u64, w: int| before.has(b) && 0 <= w < ENTRIES implies #[trigger] self.entry(b, w) == before.entry(b, w) by {
                before.lemma_pos_in(b);
                self.lemma_pos(before.pos(b));
                {
                    let q = before.pos(b);
                    assert(q * 512 + w < before.entries@.len()) by (nonlinear_arith)
                        requires
                            0 <= q < before.addrs@.len(),
                            0 <= w < 512,
                            before.entries@.len() == before.addrs@.len() * 512;
                }
            }
            assert forall|w: int| 0 <= w < ENTRIES implies #[trigger] self.entry(a, w) == 0 by {
                assert(i * 512 + w >= before.entries@.len());
            }
        }
        i
    }

    /// The table at position `i` is found at its frame, and its entries lie within the store.
    proof fn lemma_pos(&self, i: int)
        requires
            self.shape(),
            0 <= i < self.frames().len(),
        ensures
            self.has(self.frames()[i]),
            self.pos(self.frames()[i]) == i,
            i * 512 + 511 < self.spec_entries().len(),
    {
        assert(i * 512 + 511 < self.spec_entries().len()) by (nonlinear_arith)
            requires
                0 <= i < self.frames().len(),
                self.spec_entries().len() == self.frames().len() * 512;
        let a = self.frames()[i];
        assert(self.frames().contains(a));
        let q = self.pos(a);
        assert(self.frames()[q] == a);
    }

    /// The table at frame `a` has a position.
    proof fn lemma_pos_in(&self, a: u64)
        requires
            self.shape(),
            self.has(a),
        ensures
            0 <= self.pos(a) < self.frames().len(),
            self.frames()[self.pos(a)] == a,
    {
    }
}

/// Why a page-table operation stopped: no physical frame was free for a table or a copy.
#[derive(Clone, Copy, Debug, PartialEq, Eq, Structural)]
pub enum VmmError {
    OutOfMemory,
}

/// Whether `a` is the address of a 4 KiB frame of the allocator's range that the allocator
/// holds as taken.
pub open spec fn frame_held(pmm: Pmm, a: u64) -> bool {
    &&& a % 4096 == 0
    &&& a < 0x1_0000_0000
    &&& !pmm.is_free((a / 4096) as int)
}

/// What a present entry of a table of `level` leads to: a level-2 table below level 3, a
/// level-1 table below level 2 unless it maps a huge page; at level 1 it maps a page.
pub open spec fn links_ok(s: TableStore, level: u8, e: u64) -> bool {
    &&& level == 3 ==> s.has(frame_of(e)) && s.level(frame_of(e)) == 2
    &&& level == 2 && !huge_entry(e) ==> s.has(frame_of(e)) && s.level(frame_of(e)) == 1
}

/// The store is in place: its tables live in frames the allocator holds as taken, and every
/// present entry leads where its table's level says.
pub open spec fn store_ok(s: TableStore, pmm: Pmm) -> bool {
    &&& s.shape()
    &&& forall|i: int| 0 <= i < s.frames().len() ==> frame_held(pmm, #[trigger] s.frames()[i])
    &&& forall|a: u64, j: int|
        s.has(a) && 0 <= j < ENTRIES && present(#[trigger] s.entry(a, j)) ==> links_ok(s, s.level(a), s.entry(a, j))
}

/// The tables below top-level table `top` are in place: `top` has 512 entries, the store is
/// in place, and every present entry of `top` leads to a level-3 table.
pub open spec fn tables_ok(top: Seq<u64>, s: TableStore, pmm: Pmm) -> bool {
    &&& top.len() == ENTRIES
    &&& store_ok(s, pmm)
    &&& forall|j: int| 0 <= j < ENTRIES && present(#[trigger] top[j]) ==> s.has(frame_of(top[j])) && s.level(frame_of(top[j])) == 3
}

/// The frame of the level-3 table that `v` reaches from `top`, if its entry is present.
pub open spec fn pdpt_of(top: Seq<u64>, v: u64) -> Option<u64> {
    let e = top[idx(v, 39)];
    if present(e) {
        Some(frame_of(e))
    } else {
        None
    }
}

/// The frame of the page directory that `v` reaches, if the entries on the way are present.
pub open spec fn pd_of(top: Seq<u64>, s: TableStore, v: u64) -> Option<u64> {
    match pdpt_of(top, v) {
        Some(a) => {
            let e = s.entry(a, idx(v, 30));
            if present(e) {
                Some(frame_of(e))
            } else {
                None
            }
        },
        None => None,
    }
}

/// The frame of the page table that `v` reaches, if the entries on the way are present and
/// the directory entry maps no huge page.
pub open spec fn pt_of(top: Seq<u64>, s: TableStore, v: u64) -> Option<u64> {
    match pd_of(top, s, v) {
        Some(a) => {
            let e = s.entry(a, idx(v, 21));
            if present(e) && !huge_entry(e) {
                Some(frame_of(e))
            } else {
                None
            }
        },
        None => None,
    }
}

/// The entry that maps `v`: a present huge-page entry of its directory, or else a present
/// entry of its page table; none when `v` is not mapped.
pub open spec fn mapping(top: Seq<u64>, s: TableStore, v: u64) -> Option<u64> {
    match pd_of(top, s, v) {
        Some(a) => {
            let e = s.entry(a, idx(v, 21));
            if present(e) && huge_entry(e) {
                Some(e)
            } else {
                match pt_of(top, s, v) {
                    Some(b) => {
                        let e1 = s.entry(b, idx(v, 12));
                        if present(e1) {
                            Some(e1)
                        } else {
                            None
                        }
                    },
                    None => None,
                }
            }
        },
        None => None,
    }
}

/// Where the entry for `v`'s 2 MiB region (when `huge`) or 4 KiB page sits, present or not,
/// when the tables leading to it are there: the frame of its table and its index.
pub open spec fn slot_of(top: Seq<u64>, s: TableStore, v: u64, huge: bool) -> Option<(u64, int)> {
    if huge {
        match pd_of(top, s, v) {
            Some(a) => Some((a, idx(v, 21))),
            None => None,
        }
    } else {
        match pt_of(top, s, v) {
            Some(a) => Some((a, idx(v, 12))),
            None => None,
        }
    }
}

/// Whether entry `j` of the table at `a` leads `v` down to a table below: its entry in the
/// level-3 table or in the directory.
pub open spec fn on_way(top: Seq<u64>, s: TableStore, v: u64, a: u64, j: int) -> bool {
    ||| pdpt_of(top, v) == Some(a) && j == idx(v, 30)
    ||| pd_of(top, s, v) == Some(a) && j == idx(v, 21)
}

/// `(top1, s1)` is `(top0, s0)` with no change but these: tables added; entries on `v`'s way
/// down that were not present now lead to added tables; the entry for `v`'s region (when
/// `huge`) or page changed. The added tables hold nothing else.
pub open spec fn changed_only_along(top0: Seq<u64>, s0: TableStore, top1: Seq<u64>, s1: TableStore, v: u64, huge: bool) -> bool {
    &&& forall|j: int| 0 <= j < ENTRIES && #[trigger] top1[j] != top0[j] ==> j == idx(v, 39) && !present(top0[j])
    &&& forall|a: u64| #![trigger s0.has(a)] #![trigger s1.has(a)] s0.has(a) ==> s1.has(a) && s1.level(a) == s0.level(a)
    &&& forall|a: u64, j: int|
        s0.has(a) && 0 <= j < ENTRIES && #[trigger] s1.entry(a, j) != s0.entry(a, j) ==> slot_of(top1, s1, v, huge) == Some((a, j))
            || !present(s0.entry(a, j)) && on_way(top1, s1, v, a, j)
    &&& forall|a: u64, j: int|
        s1.has(a) && !s0.has(a) && 0 <= j < ENTRIES && #[trigger] s1.entry(a, j) != 0 ==> slot_of(top1, s1, v, huge) == Some((a, j))
            || on_way(top1, s1, v, a, j)
}

/// The entry `set_mapping` writes for `phys` with `flags`: the frame address of `phys`
/// (2 MiB aligned when `huge`, 4 KiB aligned otherwise) with the flags.
pub open spec fn leaf_entry(phys: u64, flags: u64, huge: bool) -> u64 {
    if huge {
        (phys & !0x1F_FFFFu64) | flags
    } else {
        (phys & !0xFFFu64) | flags
    }
}

/// A table entry built from a frame address and flags below 8 names that frame and maps no
/// huge page.
proof fn lemma_table_entry(frame: u64, tf: u64)
    requires
        frame % 4096 == 0,
        frame < 0x1_0000_0000,
        tf < 8,
        tf & 1 == 1,
    ensures
        present(frame | tf),
        frame_of(frame | tf) == frame,
        !huge_entry(frame | tf),
{
    assert(present(frame | tf) && frame_of(frame | tf) == frame && !huge_entry(frame | tf)) by (bit_vector)
        requires
            frame % 4096 == 0,
            frame < 0x1_0000_0000,
            tf < 8,
            tf & 1 == 1;
}

/// The entry that leads to the table for `pte`'s slot, adding one (every entry zero) of
/// `level` in a frame taken from `pmm` when `pte` is not present: such an entry names the
/// frame and is present and writable, and user-accessible when `child_flags` is. Returns the
/// entry and the table's position; `OutOfMemory` when no frame was free.
fn ensure_table(store: &mut TableStore, pmm: &mut Pmm, pte: u64, level: u8, child_flags: PteFlags) -> (res: Result<(u64, usize), VmmError>)
    requires
        store_ok(*old(store), *old(pmm)),
        old(pmm).wf(),
        1 <= level <= 3,
        present(pte) ==> old(store).has(frame_of(pte)) && old(store).level(frame_of(pte)) == level,
    ensures
        store_ok(*final(store), *final(pmm)),
        final(pmm).wf(),
        forall|a: u64| #![trigger old(store).has(a)] #![trigger final(store).has(a)] old(store).has(a) ==> final(store).has(a) && final(store).level(a) == old(store).level(a),
        forall|a: u64, j: int| old(store).has(a) && 0 <= j < ENTRIES ==> #[trigger] final(store).entry(a, j) == old(store).entry(a, j),
        forall|a: u64, j: int|
            final(store).has(a) && !old(store).has(a) && 0 <= j < ENTRIES ==> #[trigger] final(store).entry(a, j) == 0,
        forall|a: u64| final(store).has(a) && !old(store).has(a) ==> #[trigger] final(store).level(a) == level,
        grown(*old(store), *final(store)),
        forall|g: int| 0 <= g < MAX_FRAMES && #[trigger] final(pmm).is_free(g) ==> old(pmm).is_free(g),
        forall|a: u64| final(store).has(a) && !old(store).has(a) ==> #[trigger] old(pmm).is_free((a / 4096) as int),
        present(pte) ==> res == Ok::<(u64, usize), VmmError>((pte, old(store).pos(frame_of(pte)) as usize)) && *final(store) == *old(store)
            && *final(pmm) == *old(pmm),
        !present(pte) ==> match res {
            Ok((e, i)) => {
                &&& frame_taken(*old(pmm), *final(pmm), Some(frame_of(e) as usize))
                &&& e == frame_of(e) | (if child_flags.0 & 4 == 4 { 7u64 } else { 3u64 })
                &&& !huge_entry(e)
                &&& !old(store).has(frame_of(e))
                &&& final(store).frames() == old(store).frames().push(frame_of(e))
                &&& i == old(store).frames().len()
            },
            Err(_) => frame_taken(*old(pmm), *final(pmm), None) && *final(store) == *old(store),
        },
        res matches Ok((e, i)) ==> {
            &&& present(e)
            &&& i < final(store).frames().len()
            &&& final(store).frames()[i as int] == frame_of(e)
            &&& final(store).pos(frame_of(e)) == i
            &&& final(store).level(frame_of(e)) == level
        },
{
    if pte & 1 == 0 {
        let ghost s0 = *store;
        let ghost p0 = *pmm;
        let frame = match pmm.alloc_frame() {
            Some(f) => f,
            None => return Err(VmmError::OutOfMemory),
        };
        let ghost f = choose|f: int| {
            &&& 0 <= f < MAX_FRAMES
            &&& frame == f * PAGE_SIZE
            &&& #[trigger] p0.is_free(f)
            &&& forall|g: int| 0 <= g < f ==> !#[trigger] p0.is_free(g)
            &&& pmm.spec_bitmap() == p0.spec_bitmap().update(f / 64, p0.spec_bitmap()[f / 64] & !(1u64 << ((f % 64) as u64)))
            &&& forall|g: int| 0 <= g < MAX_FRAMES ==> (#[trigger] pmm.is_free(g) <==> p0.is_free(g) && g != f)
            &&& pmm.spec_free_frames() == p0.spec_free_frames() - 1
        };
        let a = frame as u64;
        proof {
            assert(a / 4096 == f);
            assert(!s0.has(a)) by {
                if s0.has(a) {
                    let w = s0.pos(a);
                    assert(frame_held(p0, s0.frames()[w]));
                }
            }
        }
        let mut table_flags = PteFlags::present().union(PteFlags::writable());
        if child_flags.contains(PteFlags::user()) {
            table_flags = table_flags.union(PteFlags::user());
        }
        let i = store.add(a, level);
        let e = a | table_flags.bits();
        proof {
            assert((1u64 | 2u64) == 3u64 && (3u64 | 4u64) == 7u64 && 3u64 & 1 == 1 && 7u64 & 1 == 1) by (bit_vector);
            assert(table_flags.0 == (if child_flags.0 & 4 == 4 { 7u64 } else { 3u64 }));
            lemma_table_entry(a, table_flags.0);
            assert forall|w: int| 0 <= w < store.frames().len() implies frame_held(*pmm, #[trigger] store.frames()[w]) by {
                if w < s0.frames().len() {
                    assert(frame_held(p0, s0.frames()[w]));
                    assert(store.frames()[w] == s0.frames()[w]);
                } else {
                    assert(store.frames()[w] == a);
                }
            }
            assert forall|b: u64| #![trigger s0.has(b)] #![trigger store.has(b)] s0.has(b) implies store.has(b) && store.level(b) == s0.level(b) by {
                s0.lemma_pos_in(b);
                let w = s0.pos(b);
                assert(store.frames()[w] == b);
                assert(store.spec_levels()[w] == s0.spec_levels()[w]);
            }
            assert forall|b: u64, j: int| store.has(b) && 0 <= j < ENTRIES && present(#[trigger] store.entry(b, j))
                implies links_ok(*store, store.level(b), store.entry(b, j)) by {
                if s0.has(b) {
                    assert(store.entry(b, j) == s0.entry(b, j));
                    assert(links_ok(s0, s0.level(b), s0.entry(b, j)));
                    assert(store.has(b) && store.level(b) == s0.level(b));
                    let e1 = s0.entry(b, j);
                    if s0.has(frame_of(e1)) {
                        assert(store.has(frame_of(e1)) && store.level(frame_of(e1)) == s0.level(frame_of(e1)));
                    }
                } else {
                    assert(store.frames().contains(b));
                    let w = store.pos(b);
                    assert(b == a);
                    assert(store.entry(b, j) == 0);
                    lemma_zero_absent();
                }
            }
            assert forall|b: u64| store.has(b) && !s0.has(b) implies #[trigger] store.level(b) == level by {
                let w = store.pos(b);
                assert(store.frames()[w] == b);
            }
            assert forall|b: u64, j: int| store.has(b) && !s0.has(b) && 0 <= j < ENTRIES implies #[trigger] store.entry(b, j) == 0 by {
                let w = store.pos(b);
                assert(store.frames()[w] == b);
            }
            assert forall|b: u64| store.has(b) && !s0.has(b) implies #[trigger] p0.is_free((b / 4096) as int) by {
                let w = store.pos(b);
                assert(store.frames()[w] == b);
            }
        }
        Ok((e, i))
    } else {
        let a = pte & ADDR_MASK;
        match store.find(a) {
            Some(i) => Ok((pte, i)),
            None => Err(VmmError::OutOfMemory),
        }
    }
}

/// The four indices of a virtual address, each below 512.
proof fn lemma_idx(v: u64)
    ensures
        0 <= idx(v, 39) < 512,
        0 <= idx(v, 30) < 512,
        0 <= idx(v, 21) < 512,
        0 <= idx(v, 12) < 512,
{
    assert((v >> 39u64) & 0x1FF < 512 && (v >> 30u64) & 0x1FF < 512 && (v >> 21u64) & 0x1FF < 512
        && (v >> 12u64) & 0x1FF < 512) by (bit_vector);
}

/// Whether `v`'s directory entry is present and maps a huge page.
pub open spec fn maps_huge(top: Seq<u64>, s: TableStore, v: u64) -> bool {
    match pd_of(top, s, v) {
        Some(a) => present(s.entry(a, idx(v, 21))) && huge_entry(s.entry(a, idx(v, 21))),
        None => false,
    }
}

/// How far `set_mapping` of `v` has come from `(top0, s0, p0)`: the tables are in place, only
/// `v`'s way has changed, the allocator has only lost free frames, and every added table
/// lives in a frame that was free at the start.
pub open spec fn progress(top0: Seq<u64>, s0: TableStore, p0: Pmm, top: Seq<u64>, s: TableStore, p: Pmm, v: u64, huge: bool) -> bool {
    &&& tables_ok(top, s, p)
    &&& p.wf()
    &&& changed_only_along(top0, s0, top, s, v, huge)
    &&& forall|g: int| 0 <= g < MAX_FRAMES && #[trigger] p.is_free(g) ==> p0.is_free(g)
    &&& forall|a: u64| s.has(a) && !s0.has(a) ==> #[trigger] p0.is_free((a / 4096) as int)
}

/// What `ensure_table` leaves of the store it was given: the old tables with their levels
/// and entries, and added tables with every entry zero.
pub open spec fn grown(sa: TableStore, sb: TableStore) -> bool {
    &&& forall|a: u64| #![trigger sa.has(a)] #![trigger sb.has(a)] sa.has(a) ==> sb.has(a) && sb.level(a) == sa.level(a)
    &&& forall|a: u64, j: int| sa.has(a) && 0 <= j < ENTRIES ==> #[trigger] sb.entry(a, j) == sa.entry(a, j)
    &&& forall|a: u64, j: int| sb.has(a) && !sa.has(a) && 0 <= j < ENTRIES ==> #[trigger] sb.entry(a, j) == 0
}

/// `sb` is `sa` with entry `j` of the table at `a` set to `e`.
pub open spec fn written(sa: TableStore, sb: TableStore, a: u64, j: int, e: u64) -> bool {
    &&& forall|b: u64| #![trigger sa.has(b)] #![trigger sb.has(b)] sa.has(b) ==> sb.has(b) && sb.level(b) == sa.level(b)
    &&& forall|b: u64| sb.has(b) ==> #[trigger] sa.has(b)
    &&& forall|b: u64, w: int| sa.has(b) && 0 <= w < ENTRIES ==> #[trigger] sb.entry(b, w) == if b == a && w == j {
        e
    } else {
        sa.entry(b, w)
    }
}

/// The first step of `set_mapping`: linking entry `idx(v, 39)` of the top-level table, when
/// it was not present, to a new level-3 table.
proof fn lemma_top_step(top0: Seq<u64>, s0: TableStore, p0: Pmm, top1: Seq<u64>, s1: TableStore, p1: Pmm, v: u64, huge: bool)
    requires
        progress(top0, s0, p0, top0, s0, p0, v, huge),
        store_ok(s1, p1),
        p1.wf(),
        0 <= idx(v, 39) < 512,
        top1 == top0.update(idx(v, 39), top1[idx(v, 39)]),
        present(top1[idx(v, 39)]),
        present(top0[idx(v, 39)]) ==> top1[idx(v, 39)] == top0[idx(v, 39)],
        s1.has(frame_of(top1[idx(v, 39)])) && s1.level(frame_of(top1[idx(v, 39)])) == 3,
        grown(s0, s1),
        forall|g: int| 0 <= g < MAX_FRAMES && #[trigger] p1.is_free(g) ==> p0.is_free(g),
        forall|a: u64| s1.has(a) && !s0.has(a) ==> #[trigger] p0.is_free((a / 4096) as int),
    ensures
        progress(top0, s0, p0, top1, s1, p1, v, huge),
{
    let i4 = idx(v, 39);
    assert forall|j: int| 0 <= j < ENTRIES && present(#[trigger] top1[j]) implies s1.has(frame_of(top1[j])) && s1.level(frame_of(top1[j])) == 3 by {
        if j != i4 {
            assert(top1[j] == top0[j]);
        }
    }
}

/// A later step of `set_mapping`: entry `j` of the table at `a`, on `v`'s way down and so
/// far untouched, is set to `e`, which leads to a table (`sm` may have grown one); `e` is the
/// old entry when that was present.
proof fn lemma_link_step(
    top0: Seq<u64>,
    s0: TableStore,
    p0: Pmm,
    top: Seq<u64>,
    sa: TableStore,
    pa: Pmm,
    sm: TableStore,
    pm: Pmm,
    sb: TableStore,
    a: u64,
    j: int,
    e: u64,
    v: u64,
    huge: bool,
)
    requires
        progress(top0, s0, p0, top, sa, pa, v, huge),
        on_way(top, sa, v, a, j),
        sa.has(a),
        0 <= j < ENTRIES,
        s0.has(a) ==> sa.entry(a, j) == s0.entry(a, j),
        present(e),
        present(sa.entry(a, j)) ==> e == sa.entry(a, j),
        store_ok(sm, pm),
        pm.wf(),
        grown(sa, sm),
        forall|g: int| 0 <= g < MAX_FRAMES && #[trigger] pm.is_free(g) ==> pa.is_free(g),
        forall|b: u64| sm.has(b) && !sa.has(b) ==> #[trigger] pa.is_free((b / 4096) as int),
        sb.shape(),
        sb.frames() == sm.frames(),
        written(sm, sb, a, j, e),
        links_ok(sm, sm.level(a), e),
    ensures
        progress(top0, s0, p0, top, sb, pm, v, huge),
        on_way(top, sb, v, a, j),
{
    lemma_path_grows(top, sa, pa, sm, sb, a, j, e, v);
    assert(forall|b: u64| #![trigger sm.has(b)] #![trigger sb.has(b)] sm.has(b) ==> sb.has(b) && sb.level(b) == sm.level(b));
    assert(forall|b: u64| #[trigger] sb.has(b) ==> sm.has(b));
    lemma_links_carry(sm, pm, sb, a, j, e);
    assert forall|w: int| 0 <= w < ENTRIES && present(#[trigger] top[w]) implies sb.has(frame_of(top[w])) && sb.level(frame_of(top[w])) == 3 by {
        let t = frame_of(top[w]);
        assert(sa.has(t));
        assert(sm.has(t) && sm.level(t) == sa.level(t));
    }
    assert forall|b: u64| #![trigger s0.has(b)] #![trigger sb.has(b)] s0.has(b) implies sb.has(b) && sb.level(b) == s0.level(b) by {
        assert(sa.has(b) && sa.level(b) == s0.level(b));
        assert(sm.has(b) && sm.level(b) == sa.level(b));
    }
    assert forall|b: u64, w: int| s0.has(b) && 0 <= w < ENTRIES && #[trigger] sb.entry(b, w) != s0.entry(b, w) implies
        slot_of(top, sb, v, huge) == Some((b, w)) || !present(s0.entry(b, w)) && on_way(top, sb, v, b, w) by {
        assert(sa.has(b));
        assert(sm.entry(b, w) == sa.entry(b, w));
        if !(b == a && w == j) {
            assert(sb.entry(b, w) == sa.entry(b, w));
        }
    }
    assert forall|b: u64, w: int| sb.has(b) && !s0.has(b) && 0 <= w < ENTRIES && #[trigger] sb.entry(b, w) != 0 implies
        slot_of(top, sb, v, huge) == Some((b, w)) || on_way(top, sb, v, b, w) by {
        if !(b == a && w == j) {
            assert(sb.entry(b, w) == sm.entry(b, w));
            if sa.has(b) {
                assert(sm.entry(b, w) == sa.entry(b, w));
            }
        }
    }
    assert forall|b: u64| sb.has(b) && !s0.has(b) implies #[trigger] p0.is_free((b / 4096) as int) by {
        if !sa.has(b) {
            assert(pa.is_free((b / 4096) as int));
            assert(frame_held(pm, b) || true);
            let w = sb.pos(b);
            assert(sb.frames()[w] == b);
            assert(frame_held(pm, sm.frames()[w]));
        }
    }
}

/// Setting an entry that was not present, or setting one to what it was, only lengthens
/// `v`'s way: what `v` reached before it still reaches.
proof fn lemma_path_grows(top: Seq<u64>, sa: TableStore, pa: Pmm, sm: TableStore, sb: TableStore, a: u64, j: int, e: u64, v: u64)
    requires
        tables_ok(top, sa, pa),
        sa.has(a),
        0 <= j < ENTRIES,
        present(sa.entry(a, j)) ==> e == sa.entry(a, j),
        grown(sa, sm),
        written(sm, sb, a, j, e),
    ensures
        forall|x: u64| pd_of(top, sa, v) == Some(x) ==> pd_of(top, sb, v) == Some(x),
        forall|x: u64| pt_of(top, sa, v) == Some(x) ==> pt_of(top, sb, v) == Some(x),
        forall|h: bool, p: (u64, int)| slot_of(top, sa, v, h) == Some(p) ==> slot_of(top, sb, v, h) == Some(p),
        forall|b: u64, w: int| on_way(top, sa, v, b, w) ==> on_way(top, sb, v, b, w),
{
    lemma_idx(v);
    if let Some(a3) = pdpt_of(top, v) {
        assert(sa.has(a3));
        let i3 = idx(v, 30);
        assert(sb.entry(a3, i3) == if a3 == a && i3 == j { e } else { sm.entry(a3, i3) });
        if present(sa.entry(a3, i3)) {
            assert(sb.entry(a3, i3) == sa.entry(a3, i3));
            let a2 = frame_of(sa.entry(a3, i3));
            assert(links_ok(sa, sa.level(a3), sa.entry(a3, i3)));
            assert(sa.has(a2));
            let i2 = idx(v, 21);
            if present(sa.entry(a2, i2)) {
                assert(sb.entry(a2, i2) == sa.entry(a2, i2));
            }
        }
    }
}

/// Links stay in place when one entry is set to an entry whose link is in place.
proof fn lemma_links_carry(sm: TableStore, pm: Pmm, sb: TableStore, a: u64, j: int, e: u64)
    requires
        store_ok(sm, pm),
        written(sm, sb, a, j, e),
        present(e) ==> links_ok(sm, sm.level(a), e),
    ensures
        forall|b: u64, w: int| sb.has(b) && 0 <= w < ENTRIES && present(#[trigger] sb.entry(b, w))
            ==> links_ok(sb, sb.level(b), sb.entry(b, w)),
{
    assert forall|b: u64, w: int| sb.has(b) && 0 <= w < ENTRIES && present(#[trigger] sb.entry(b, w))
        implies links_ok(sb, sb.level(b), sb.entry(b, w)) by {
        assert(sm.has(b));
        let x = sb.entry(b, w);
        if !(b == a && w == j) {
            assert(x == sm.entry(b, w));
        }
        assert(links_ok(sm, sm.level(b), x));
        if sm.has(frame_of(x)) {
            assert(sb.has(frame_of(x)) && sb.level(frame_of(x)) == sm.level(frame_of(x)));
        }
    }
}
/// The entry for `v`'s region (when `huge`) or page is set to `leaf`: only that entry
/// changes, and `v`'s way is as before.
proof fn lemma_leaf_step(top0: Seq<u64>, s0: TableStore, p0: Pmm, top: Seq<u64>, sa: TableStore, pa: Pmm, sb: TableStore, a: u64, j: int, leaf: u64, v: u64, huge: bool)
    requires
        progress(top0, s0, p0, top, sa, pa, v, huge),
        slot_of(top, sa, v, huge) == Some((a, j)),
        sb.shape(),
        sb.frames() == sa.frames(),
        written(sa, sb, a, j, leaf),
        present(leaf) ==> links_ok(sa, sa.level(a), leaf),
    ensures
        progress(top0, s0, p0, top, sb, pa, v, huge),
        slot_of(top, sb, v, huge) == Some((a, j)),
        sb.entry(a, j) == leaf,
{
    lemma_idx(v);
    assert(forall|b: u64| #![trigger sa.has(b)] #![trigger sb.has(b)] sa.has(b) ==> sb.has(b) && sb.level(b) == sa.level(b));
    assert(forall|b: u64| #[trigger] sb.has(b) ==> sa.has(b));
    let a3 = pdpt_of(top, v)->Some_0;
    assert(pdpt_of(top, v) is Some);
    assert(sa.has(a3) && sa.level(a3) == 3);
    let i3 = idx(v, 30);
    assert(present(sa.entry(a3, i3)));
    let a2 = frame_of(sa.entry(a3, i3));
    assert(links_ok(sa, sa.level(a3), sa.entry(a3, i3)));
    assert(sa.has(a2) && sa.level(a2) == 2);
    assert(sb.entry(a3, i3) == sa.entry(a3, i3));
    if !huge {
        let i2 = idx(v, 21);
        assert(links_ok(sa, sa.level(a2), sa.entry(a2, i2)));
        assert(sb.entry(a2, i2) == sa.entry(a2, i2));
    }
    lemma_links_carry(sa, pa, sb, a, j, leaf);
    assert forall|w: int| 0 <= w < ENTRIES && present(#[trigger] top[w]) implies sb.has(frame_of(top[w])) && sb.level(frame_of(top[w])) == 3 by {
        assert(sa.has(frame_of(top[w])));
    }
    assert forall|b: u64| #![trigger s0.has(b)] #![trigger sb.has(b)] s0.has(b) implies sb.has(b) && sb.level(b) == s0.level(b) by {
        assert(sa.has(b) && sa.level(b) == s0.level(b));
    }
    assert forall|b: u64, w: int| s0.has(b) && 0 <= w < ENTRIES && #[trigger] sb.entry(b, w) != s0.entry(b, w) implies
        slot_of(top, sb, v, huge) == Some((b, w)) || !present(s0.entry(b, w)) && on_way(top, sb, v, b, w) by {
        assert(sa.has(b));
        if !(b == a && w == j) {
            assert(sb.entry(b, w) == sa.entry(b, w));
        }
    }
    assert forall|b: u64, w: int| sb.has(b) && !s0.has(b) && 0 <= w < ENTRIES && #[trigger] sb.entry(b, w) != 0 implies
        slot_of(top, sb, v, huge) == Some((b, w)) || on_way(top, sb, v, b, w) by {
        if !(b == a && w == j) {
            assert(sb.entry(b, w) == sa.entry(b, w));
        }
    }
    assert forall|b: u64| sb.has(b) && !s0.has(b) implies #[trigger] p0.is_free((b / 4096) as int) by {
        assert(sa.has(b));
    }
    assert(forall|i: int| 0 <= i < sb.frames().len() ==> frame_held(pa, #[trigger] sb.frames()[i]));
}

/// Whether `virt` lies in a 2 MiB page that the tables map (its page-directory entry is
/// present and huge): the case in which `set_mapping` of a 4 KiB page, and `freeze_region`
/// of 4 KiB pages, do not apply.
pub fn maps_huge_page(pml4: &PageTable, store: &TableStore, pmm: &Pmm, virt: usize) -> (res: bool)
    requires
        tables_ok(pml4.0@, *store, *pmm),
    ensures
        res == maps_huge(pml4.0@, *store, virt as u64),
{
    match locate(pml4, store, Ghost(*pmm), virt as u64, true) {
        Some((t, j)) => {
            let e = store.read(t, j);
            e & 1 != 0 && e & 0x80 != 0
        },
        None => false,
    }
}

/// Maps virtual address `virt` to physical address `phys` with `flags`: a 2 MiB region
/// through its directory entry when `huge`, else a 4 KiB page through its page-table entry.
/// Tables missing on the way are added (see `ensure_table`), each in a frame that was free.
/// The entry written is `leaf_entry`; nothing else changes but the tables added and the
/// entries that lead to them (see `changed_only_along`). `OutOfMemory` when a table was
/// needed and no frame was free; the tables added until then stay. The caller flushes `virt`
/// from the TLB. A present 2 MiB entry must carry the huge flag: without it the directory
/// entry would send every later walk to a page table in the frame it names, memory that
/// these tables do not hold; likewise a 4 KiB page cannot be mapped inside a 2 MiB one.
pub fn set_mapping(pml4: &mut PageTable, store: &mut TableStore, pmm: &mut Pmm, virt: usize, phys: usize, flags: PteFlags, huge: bool) -> (res: Result<(), VmmError>)
    requires
        tables_ok(old(pml4).0@, *old(store), *old(pmm)),
        old(pmm).wf(),
        huge && flags.0 & 1 == 1 ==> flags.0 & 0x80 == 0x80,
        !huge ==> !maps_huge(old(pml4).0@, *old(store), virt as u64),
    ensures
        progress(old(pml4).0@, *old(store), *old(pmm), final(pml4).0@, *final(store), *final(pmm), virt as u64, huge),
        res is Ok ==> (slot_of(final(pml4).0@, *final(store), virt as u64, huge) matches Some((a, j))
            && final(store).entry(a, j) == leaf_entry(phys as u64, flags.0, huge)),
        res is Err ==> forall|g: int| 0 <= g < MAX_FRAMES ==> !#[trigger] final(pmm).is_free(g),
{
    let v = virt as u64;
    let i4 = ((v >> 39) & 0x1FF) as usize;
    let i3 = ((v >> 30) & 0x1FF) as usize;
    let i2 = ((v >> 21) & 0x1FF) as usize;
    proof {
        lemma_idx(v);
    }
    let ghost top0 = pml4.0@;
    let ghost s0 = *store;
    let ghost p0 = *pmm;
    let e4 = pml4.0[i4];
    let (e4n, t3) = match ensure_table(store, pmm, e4, 3, flags) {
        Ok(r) => r,
        Err(e) => return Err(e),
    };
    pml4.0.set(i4, e4n);
    proof {
        lemma_top_step(top0, s0, p0, pml4.0@, *store, *pmm, v, huge);
        assert(pml4.0@[i4 as int] == e4n);
    }
    let ghost top1 = pml4.0@;
    let ghost a3 = frame_of(e4n);
    let ghost sa = *store;
    let ghost pa = *pmm;
    let e3 = store.read(t3, i3);
    let (e3n, t2) = match ensure_table(store, pmm, e3, 2, flags) {
        Ok(r) => r,
        Err(e) => return Err(e),
    };
    let ghost sm = *store;
    let ghost pm = *pmm;
    store.write(t3, i3, e3n);
    proof {
        assert(present(top1[i4 as int]));
        assert(tables_ok(top1, sa, pa));
        assert(sa.has(a3) && sa.level(a3) == 3);
        lemma_grown_keeps(sa, sm, a3);
        lemma_link_step(top0, s0, p0, top1, sa, pa, sm, pm, *store, a3, i3 as int, e3n, v, huge);
        assert(store.entry(a3, i3 as int) == e3n);
    }
    let ghost a2 = frame_of(e3n);
    let ghost s2 = *store;
    if huge {
        let leaf = ((phys as u64) & !0x1F_FFFFu64) | flags.bits();
        store.write(t2, i2, leaf);
        proof {
            lemma_huge_leaf(phys as u64, flags.0);
            assert(s2.has(a2) && s2.level(a2) == 2);
            lemma_leaf_step(top0, s0, p0, top1, s2, pm, *store, a2, i2 as int, leaf, v, huge);
        }
    } else {
        let e2 = store.read(t2, i2);
        proof {
            // the directory entry on the way maps no huge page: it is the one `v` met
            // before, or a zero entry of a new directory
            assert(a2 != a3);
            assert(store.entry(a2, i2 as int) == sm.entry(a2, i2 as int));
            if present(e2) {
                if s0.has(a2) {
                    assert(sa.has(a2));
                    if present(e4) {
                        assert(e4n == e4);
                        assert(s0.has(a3));
                        assert(e3 == s0.entry(a3, i3 as int));
                        if present(e3) {
                            assert(pd_of(top0, s0, v) == Some(a2));
                            assert(sm.entry(a2, i2 as int) == s0.entry(a2, i2 as int));
                        } else {
                            assert(!sa.has(a2));
                        }
                    } else {
                        assert(!s0.has(a3));
                        assert(e3 == 0);
                        lemma_zero_absent();
                        assert(!sa.has(a2));
                    }
                } else {
                    if present(e3) {
                        assert(sa.has(a2));
                        if present(e4) {
                            assert(s0.has(a3));
                            assert(links_ok(s0, s0.level(a3), s0.entry(a3, i3 as int)));
                        } else {
                            assert(e3 == 0);
                            lemma_zero_absent();
                        }
                    } else {
                        assert(!sa.has(a2));
                        assert(sm.entry(a2, i2 as int) == 0);
                        lemma_zero_absent();
                    }
                }
                assert(!huge_entry(e2));
                assert(links_ok(s2, s2.level(a2), e2));
            }
        }
        let ghost pm1 = *pmm;
        let (e2n, t1) = match ensure_table(store, pmm, e2, 1, flags) {
            Ok(r) => r,
            Err(e) => return Err(e),
        };
        let ghost sm2 = *store;
        let ghost pm2 = *pmm;
        store.write(t2, i2, e2n);
        let ghost a1 = frame_of(e2n);
        proof {
            assert(sm2.has(a2) && sm2.level(a2) == 2);
            assert(!huge_entry(e2n));
            lemma_link_step(top0, s0, p0, top1, s2, pm1, sm2, pm2, *store, a2, i2 as int, e2n, v, huge);
            assert(store.entry(a3, i3 as int) == e3n);
            assert(pd_of(top1, *store, v) == Some(a2));
            assert(pt_of(top1, *store, v) == Some(a1));
        }
        let i1 = ((v >> 12) & 0x1FF) as usize;
        let leaf = ((phys as u64) & !0xFFFu64) | flags.bits();
        let ghost s3 = *store;
        store.write(t1, i1, leaf);
        proof {
            assert(s3.has(a1) && s3.level(a1) == 1);
            lemma_leaf_step(top0, s0, p0, top1, s3, pm2, *store, a1, i1 as int, leaf, v, huge);
        }
    }
    Ok(())
}

/// A huge-page entry is present and maps a huge page exactly when its flags say so; a page
/// entry is present exactly when its flags say so.
proof fn lemma_huge_leaf(phys: u64, flags: u64)
    ensures
        present(leaf_entry(phys, flags, true)) == (flags & 1 == 1),
        huge_entry(leaf_entry(phys, flags, true)) == (flags & 0x80 == 0x80),
        present(leaf_entry(phys, flags, false)) == (flags & 1 == 1),
{
    assert((((phys & !0x1F_FFFFu64) | flags) & 1 != 0 <==> flags & 1 == 1)
        && (((phys & !0x1F_FFFFu64) | flags) & 0x80 != 0 <==> flags & 0x80 == 0x80)
        && (((phys & !0xFFFu64) | flags) & 1 != 0 <==> flags & 1 == 1)) by (bit_vector);
}
/// A table of the store `ensure_table` was given is still there, at the same level.
proof fn lemma_grown_keeps(sa: TableStore, sb: TableStore, a: u64)
    requires
        grown(sa, sb),
        sa.has(a),
    ensures
        sb.has(a),
        sb.level(a) == sa.level(a),
{
}
/// Entry `e` frozen: read-only and marked for copy-on-write.
pub open spec fn frozen_entry(e: u64) -> u64 {
    (e & !2u64) | 0x200
}

/// Freezing an entry keeps its presence, its huge-page flag and its frame, and freezing
/// twice is freezing once.
proof fn lemma_freeze_bits(e: u64)
    ensures
        present(frozen_entry(e)) == present(e),
        huge_entry(frozen_entry(e)) == huge_entry(e),
        frame_of(frozen_entry(e)) == frame_of(e),
        frozen_entry(frozen_entry(e)) == frozen_entry(e),
        frozen_entry(e) & 0x200 != 0,
        frozen_entry(e) & 2 == 0,
{
    assert(((e & !2u64) | 0x200) & 1 == e & 1 && ((e & !2u64) | 0x200) & 0x80 == e & 0x80
        && ((e & !2u64) | 0x200) & 0x000F_FFFF_FFFF_F000 == e & 0x000F_FFFF_FFFF_F000
        && ((((e & !2u64) | 0x200) & !2u64) | 0x200) == ((e & !2u64) | 0x200)
        && ((e & !2u64) | 0x200) & 0x200 != 0 && ((e & !2u64) | 0x200) & 2 == 0) by (bit_vector);
}

/// `s1` holds the tables of `s0`, at the same levels, with entries that agree in presence,
/// huge-page flag and frame: every way down leads where it did.
pub open spec fn same_links(s0: TableStore, s1: TableStore) -> bool {
    &&& s1.frames() == s0.frames()
    &&& s1.spec_levels() == s0.spec_levels()
    &&& forall|a: u64, j: int| s0.has(a) && 0 <= j < ENTRIES ==> {
        &&& present(#[trigger] s1.entry(a, j)) == present(s0.entry(a, j))
        &&& huge_entry(s1.entry(a, j)) == huge_entry(s0.entry(a, j))
        &&& frame_of(s1.entry(a, j)) == frame_of(s0.entry(a, j))
    }
}

/// Tables with the same links lead every address the same way.
proof fn lemma_same_links(top: Seq<u64>, s0: TableStore, p: Pmm, s1: TableStore, v: u64)
    requires
        tables_ok(top, s0, p),
        s1.shape(),
        same_links(s0, s1),
    ensures
        tables_ok(top, s1, p),
        pd_of(top, s1, v) == pd_of(top, s0, v),
        pt_of(top, s1, v) == pt_of(top, s0, v),
        slot_of(top, s1, v, true) == slot_of(top, s0, v, true),
        slot_of(top, s1, v, false) == slot_of(top, s0, v, false),
        maps_huge(top, s1, v) == maps_huge(top, s0, v),
{
    lemma_idx(v);
    assert(forall|a: u64| #[trigger] s1.has(a) == s0.has(a));
    assert(forall|a: u64| #[trigger] s1.level(a) == s0.level(a));
    if let Some(a3) = pdpt_of(top, v) {
        assert(s0.has(a3));
        let e3 = s0.entry(a3, idx(v, 30));
        assert(present(s1.entry(a3, idx(v, 30))) == present(e3));
        if present(e3) {
            assert(links_ok(s0, s0.level(a3), e3));
            let a2 = frame_of(e3);
            assert(s0.has(a2));
            assert(present(s1.entry(a2, idx(v, 21))) == present(s0.entry(a2, idx(v, 21))));
        }
    }
    assert forall|a: u64, j: int| s1.has(a) && 0 <= j < ENTRIES && present(#[trigger] s1.entry(a, j))
        implies links_ok(s1, s1.level(a), s1.entry(a, j)) by {
        assert(links_ok(s0, s0.level(a), s0.entry(a, j)));
    }
}

/// Where the entry for `v`'s region (when `huge`) or page sits: the position of its table
/// and its index, when the tables leading to it are there (see `slot_of`).
fn locate(pml4: &PageTable, store: &TableStore, Ghost(p): Ghost<Pmm>, v: u64, huge: bool) -> (res: Option<(usize, usize)>)
    requires
        tables_ok(pml4.0@, *store, p),
    ensures
        match res {
            Some((t, j)) => t < store.frames().len() && j < ENTRIES
                && slot_of(pml4.0@, *store, v, huge) == Some((store.frames()[t as int], j as int)),
            None => slot_of(pml4.0@, *store, v, huge) is None,
        },
{
    let i4 = ((v >> 39) & 0x1FF) as usize;
    let i3 = ((v >> 30) & 0x1FF) as usize;
    let i2 = ((v >> 21) & 0x1FF) as usize;
    let i1 = ((v >> 12) & 0x1FF) as usize;
    proof {
        lemma_idx(v);
    }
    let e4 = pml4.0[i4];
    if e4 & 1 == 0 {
        return None;
    }
    let t3 = match store.find(e4 & ADDR_MASK) {
        Some(t) => t,
        None => return None,
    };
    let e3 = store.read(t3, i3);
    if e3 & 1 == 0 {
        return None;
    }
    let t2 = match store.find(e3 & ADDR_MASK) {
        Some(t) => t,
        None => return None,
    };
    proof {
        assert(links_ok(*store, store.level(frame_of(e4)), e3));
    }
    if huge {
        return Some((t2, i2));
    }
    let e2 = store.read(t2, i2);
    if e2 & 1 == 0 || e2 & 0x80 != 0 {
        return None;
    }
    let t1 = match store.find(e2 & ADDR_MASK) {
        Some(t) => t,
        None => return None,
    };
    proof {
        assert(links_ok(*store, store.level(frame_of(e3)), e2));
    }
    Some((t1, i1))
}

/// The `k`-th address of a walk from `start` in steps of `step`.
pub open spec fn step_addr(start: int, k: int, step: int) -> int {
    start + k * step
}

/// Whether entry `j` of the table at `a` is the entry for one of the first `n` addresses of
/// the walk from `start` in steps of `step` (regions when `huge`, pages otherwise).
pub open spec fn walked(top: Seq<u64>, s: TableStore, start: int, n: int, step: int, huge: bool, a: u64, j: int) -> bool {
    exists|k: int| 0 <= k < n && #[trigger] slot_of(top, s, step_addr(start, k, step) as u64, huge) == Some((a, j))
}

/// The addresses among the first `n` of the walk whose entry is present, in order.
pub open spec fn present_steps(top: Seq<u64>, s: TableStore, start: int, n: int, step: int, huge: bool) -> Seq<usize>
    decreases n,
{
    if n <= 0 {
        Seq::empty()
    } else {
        let v = step_addr(start, n - 1, step);
        present_steps(top, s, start, n - 1, step, huge) + match slot_of(top, s, v as u64, huge) {
            Some((a, j)) => if present(s.entry(a, j)) { seq![v as usize] } else { Seq::empty() },
            None => Seq::empty(),
        }
    }
}

/// The number of steps of `step` from `start` below `end`.
pub open spec fn step_count(start: int, end: int, step: int) -> int {
    if end <= start { 0 } else { (end - start + step - 1) / step }
}

/// Freezes the pages (the 2 MiB regions when `huge`) from `virt_start` for `size` bytes, in
/// steps of 4 KiB (2 MiB): each present entry for a stepped address becomes read-only and
/// marked for copy-on-write (see `frozen_entry`); nothing else changes. Returns the stepped
/// addresses whose entry was present, in order, which the caller flushes from the TLB.
pub fn freeze_region(pml4: &PageTable, store: &mut TableStore, pmm: &Pmm, virt_start: usize, size: usize, huge: bool) -> (flushed: Vec<usize>)
    requires
        tables_ok(pml4.0@, *old(store), *pmm),
        virt_start + size <= usize::MAX,
        virt_start + step_count(virt_start as int, virt_start + size, if huge { HUGE_SIZE as int } else { 4096 })
            * (if huge { HUGE_SIZE as int } else { 4096 }) <= usize::MAX,
        !huge ==> forall|k: int| 0 <= k < step_count(virt_start as int, virt_start + size, 4096)
            ==> !#[trigger] maps_huge(pml4.0@, *old(store), step_addr(virt_start as int, k, 4096) as u64),
    ensures
        tables_ok(pml4.0@, *final(store), *pmm),
        final(store).frames() == old(store).frames(),
        final(store).spec_levels() == old(store).spec_levels(),
        forall|a: u64, j: int| old(store).has(a) && 0 <= j < ENTRIES ==> #[trigger] final(store).entry(a, j) == if walked(
            pml4.0@,
            *old(store),
            virt_start as int,
            step_count(virt_start as int, virt_start + size, if huge { HUGE_SIZE as int } else { 4096 }),
            if huge { HUGE_SIZE as int } else { 4096 },
            huge,
            a,
            j,
        ) && present(old(store).entry(a, j)) {
            frozen_entry(old(store).entry(a, j))
        } else {
            old(store).entry(a, j)
        },
        flushed@ == present_steps(
            pml4.0@,
            *old(store),
            virt_start as int,
            step_count(virt_start as int, virt_start + size, if huge { HUGE_SIZE as int } else { 4096 }),
            if huge { HUGE_SIZE as int } else { 4096 },
            huge,
        ),
{
    let ghost top = pml4.0@;
    let ghost s0 = *store;
    let step: usize = if huge { HUGE_SIZE } else { 4096 };
    let ghost st = step as int;
    let ghost n = step_count(virt_start as int, virt_start + size, st);
    let end = virt_start + size;
    let mut virt = virt_start;
    let mut flushed: Vec<usize> = Vec::new();
    let ghost mut k: int = 0;
    while virt < end
        invariant
            top == pml4.0@,
            st == step as int,
            step == if huge { HUGE_SIZE } else { 4096 },
            end == virt_start + size,
            virt_start + n * st <= usize::MAX,
            0 <= k,
            virt == step_addr(virt_start as int, k, st),
            k == 0 || step_addr(virt_start as int, k - 1, st) < end,
            tables_ok(top, s0, *pmm),
            store.shape(),
            same_links(s0, *store),
            forall|a: u64, j: int| s0.has(a) && 0 <= j < ENTRIES ==> #[trigger] store.entry(a, j) == if walked(
                top,
                s0,
                virt_start as int,
                k,
                st,
                huge,
                a,
                j,
            ) && present(s0.entry(a, j)) {
                frozen_entry(s0.entry(a, j))
            } else {
                s0.entry(a, j)
            },
            flushed@ == present_steps(top, s0, virt_start as int, k, st, huge),
            !huge ==> forall|q: int| 0 <= q < n ==> !#[trigger] maps_huge(top, s0, step_addr(virt_start as int, q, 4096) as u64),
            n == step_count(virt_start as int, virt_start + size, st),
        decreases end + step - virt,
    {
        let v = virt as u64;
        let ghost sb = *store;
        let ghost vk = step_addr(virt_start as int, k, st);
        proof {
            lemma_same_links(top, s0, *pmm, *store, v);
            lemma_walked_next(top, s0, virt_start as int, k, st, huge);
            assert(v == vk as u64);
        }
        match locate(pml4, store, Ghost(*pmm), v, huge) {
            Some((t, j)) => {
                let ghost a = store.frames()[t as int];
                let e = store.read(t, j);
                if e & 1 != 0 {
                    let fe = (e & !2u64) | 0x200;
                    store.write(t, j, fe);
                    flushed.push(virt);
                    proof {
                        lemma_freeze_bits(e);
                        lemma_freeze_bits(s0.entry(a, j as int));
                        assert(forall|b: u64| #[trigger] sb.has(b) == s0.has(b));
                        assert forall|b: u64, w: int| s0.has(b) && 0 <= w < ENTRIES implies {
                            &&& present(#[trigger] store.entry(b, w)) == present(s0.entry(b, w))
                            &&& huge_entry(store.entry(b, w)) == huge_entry(s0.entry(b, w))
                            &&& frame_of(store.entry(b, w)) == frame_of(s0.entry(b, w))
                        } by {
                            assert(present(sb.entry(b, w)) == present(s0.entry(b, w)));
                        }
                        assert(flushed@ == present_steps(top, s0, virt_start as int, k + 1, st, huge));
                    }
                } else {
                    proof {
                        assert(flushed@ == present_steps(top, s0, virt_start as int, k + 1, st, huge));
                    }
                }
            },
            None => {
                proof {
                    assert(flushed@ == present_steps(top, s0, virt_start as int, k + 1, st, huge));
                }
            },
        }
        proof {
            assert(vk + st == step_addr(virt_start as int, k + 1, st)) by (nonlinear_arith)
                requires
                    vk == step_addr(virt_start as int, k, st);
            lemma_step_within(virt_start as int, end as int, st, k);
            assert((k + 1) * st <= n * st) by (nonlinear_arith)
                requires
                    k + 1 <= n,
                    st > 0;
        }
        virt = virt + step;
        proof {
            k = k + 1;
        }
    }
    proof {
        lemma_walk_end(virt_start as int, virt_start + size, st, k);
    }
    flushed
}

/// One more step of a walk adds the entry for the new address to the walked ones.
proof fn lemma_walked_next(top: Seq<u64>, s: TableStore, start: int, k: int, st: int, huge: bool)
    requires
        0 <= k,
    ensures
        forall|a: u64, j: int| #[trigger] walked(top, s, start, k + 1, st, huge, a, j) == (walked(top, s, start, k, st, huge, a, j)
            || slot_of(top, s, step_addr(start, k, st) as u64, huge) == Some((a, j))),
{
    assert forall|a: u64, j: int| #[trigger] walked(top, s, start, k + 1, st, huge, a, j) == (walked(top, s, start, k, st, huge, a, j)
        || slot_of(top, s, step_addr(start, k, st) as u64, huge) == Some((a, j))) by {
        if walked(top, s, start, k + 1, st, huge, a, j) {
            let q = choose|q: int| 0 <= q < k + 1 && #[trigger] slot_of(top, s, step_addr(start, q, st) as u64, huge) == Some((a, j));
            if q < k {
                assert(walked(top, s, start, k, st, huge, a, j));
            }
        }
        if walked(top, s, start, k, st, huge, a, j) {
            let q = choose|q: int| 0 <= q < k && #[trigger] slot_of(top, s, step_addr(start, q, st) as u64, huge) == Some((a, j));
            assert(walked(top, s, start, k + 1, st, huge, a, j));
        }
        if slot_of(top, s, step_addr(start, k, st) as u64, huge) == Some((a, j)) {
            assert(walked(top, s, start, k + 1, st, huge, a, j));
        }
    }
}

/// A walk that has just passed `end` has taken `step_count` steps.
/// A stepped address below the end is one of the walk's steps.
proof fn lemma_step_within(start: int, end: int, st: int, k: int)
    requires
        st > 0,
        0 <= k,
        step_addr(start, k, st) < end,
    ensures
        k + 1 <= step_count(start, end, st),
{
    assert(k * st <= end - start - 1);
    assert((k + 1) * st <= end - start + st - 1) by (nonlinear_arith)
        requires
            k * st <= end - start - 1;
    assert(k + 1 <= (end - start + st - 1) / st) by (nonlinear_arith)
        requires
            (k + 1) * st <= end - start + st - 1,
            st > 0,
            k >= 0;
}

proof fn lemma_walk_end(start: int, end: int, st: int, k: int)
    requires
        st > 0,
        0 <= k,
        step_addr(start, k, st) >= end,
        k == 0 || step_addr(start, k - 1, st) < end,
        start <= end,
    ensures
        k == step_count(start, end, st),
{
    if end > start {
        if k == 0 {
            assert(start + 0 * st == start) by (nonlinear_arith);
        }
        assert(k > 0);
        let d = end - start;
        assert((k - 1) * st < d && d <= k * st);
        assert((d + st - 1) / st == k) by (nonlinear_arith)
            requires
                st > 0,
                k > 0,
                (k - 1) * st < d,
                d <= k * st;
    } else {
        assert(k == 0) by (nonlinear_arith)
            requires
                start + k * st >= end,
                k == 0 || start + (k - 1) * st < end,
                end == start,
                st > 0,
                k >= 0;
    }
}
/// The copy that a copy-on-write fault asks of the caller: `len` bytes from the frozen frame
/// at `from` to the new frame at `to`.
#[derive(Clone, Copy, Debug, PartialEq, Eq, Structural)]
pub struct CowCopy {
    pub from: u64,
    pub to: u64,
    pub len: usize,
}

/// The entry for frozen entry `e` once its page is copied to `new_phys`: the named flags of
/// `e`, writable and no longer frozen, with the new frame.
pub open spec fn thawed_entry(new_phys: u64, e: u64) -> u64 {
    new_phys | (((e & KNOWN_FLAGS) | 2) & !0x200u64)
}

/// A thawed entry is present and maps a huge page exactly when the frozen one did.
proof fn lemma_thaw_bits(n: u64, e: u64)
    requires
        n % 4096 == 0,
    ensures
        present(thawed_entry(n, e)) == present(e),
        huge_entry(thawed_entry(n, e)) == huge_entry(e),
        thawed_entry(n, e) & 2 == 2,
        thawed_entry(n, e) & 0x200 == 0,
{
    assert((n | (((e & 0x8000_0000_0000_0387) | 2) & !0x200u64)) & 1 == e & 1
        && (n | (((e & 0x8000_0000_0000_0387) | 2) & !0x200u64)) & 0x80 == e & 0x80
        && (n | (((e & 0x8000_0000_0000_0387) | 2) & !0x200u64)) & 2 == 2
        && (n | (((e & 0x8000_0000_0000_0387) | 2) & !0x200u64)) & 0x200 == 0) by (bit_vector)
        requires
            n % 4096 == 0;
}

/// What a fault at `v` with `error_code` asks to copy: for a write fault on a present,
/// frozen entry, where that entry sits and whether it maps a huge page; none otherwise.
pub open spec fn cow_target(top: Seq<u64>, s: TableStore, v: u64, error_code: u64) -> Option<(u64, int, bool)> {
    if error_code & 2 == 0 {
        None
    } else {
        match pd_of(top, s, v) {
            None => None,
            Some(a2) => {
                let e2 = s.entry(a2, idx(v, 21));
                if !present(e2) {
                    None
                } else if huge_entry(e2) {
                    if e2 & 0x200 != 0 {
                        Some((a2, idx(v, 21), true))
                    } else {
                        None
                    }
                } else {
                    match pt_of(top, s, v) {
                        Some(a1) => {
                            let e1 = s.entry(a1, idx(v, 12));
                            if present(e1) && e1 & 0x200 != 0 {
                                Some((a1, idx(v, 12), false))
                            } else {
                                None
                            }
                        },
                        None => None,
                    }
                }
            },
        }
    }
}

/// Handles a page fault at `fault_address` for copy-on-write: on a write fault (bit 1 of
/// `error_code`) whose entry is present and frozen (see `cow_target`), takes a new frame (a
/// 2 MiB one for a huge page) from `pmm`, points the entry at it with `thawed_entry`, and
/// returns the copy the caller must make from the old frame before the faulting code goes
/// on (then it flushes `fault_address`). `None` when the fault is not one to copy; nothing
/// changes then. `OutOfMemory` when no frame was free; nothing changes then either.
pub fn handle_page_fault(pml4: &PageTable, store: &mut TableStore, pmm: &mut Pmm, fault_address: usize, error_code: u64) -> (res: Result<Option<CowCopy>, VmmError>)
    requires
        tables_ok(pml4.0@, *old(store), *old(pmm)),
        old(pmm).wf(),
    ensures
        tables_ok(pml4.0@, *final(store), *final(pmm)),
        final(pmm).wf(),
        cow_target(pml4.0@, *old(store), fault_address as u64, error_code) is None ==> res == Ok::<Option<CowCopy>, VmmError>(None)
            && *final(store) == *old(store) && *final(pmm) == *old(pmm),
        cow_target(pml4.0@, *old(store), fault_address as u64, error_code) matches Some((a, j, h)) ==> match res {
            Ok(Some(c)) => {
                let e = old(store).entry(a, j);
                &&& c.from == if h { e & HUGE_ADDR_MASK } else { e & ADDR_MASK }
                &&& c.len == if h { HUGE_SIZE } else { 4096 }
                &&& if h { huge_taken(*old(pmm), *final(pmm), Some(c.to as usize)) } else { frame_taken(*old(pmm), *final(pmm), Some(c.to as usize)) }
                &&& final(store).frames() == old(store).frames()
                &&& written(*old(store), *final(store), a, j, thawed_entry(c.to, e))
            },
            Ok(None) => false,
            Err(_) => (if h { huge_taken(*old(pmm), *final(pmm), None) } else { frame_taken(*old(pmm), *final(pmm), None) })
                && *final(store) == *old(store),
        },
{
    let write_bit = (error_code & 2) != 0;
    if !write_bit {
        return Ok(None);
    }
    let v = fault_address as u64;
    let i2 = ((v >> 21) & 0x1FF) as usize;
    let i1 = ((v >> 12) & 0x1FF) as usize;
    proof {
        lemma_idx(v);
    }
    let ghost s0 = *store;
    let ghost p0 = *pmm;
    let t2 = match locate(pml4, store, Ghost(*pmm), v, true) {
        Some((t, _)) => t,
        None => return Ok(None),
    };
    let ghost a2 = store.frames()[t2 as int];
    let e2 = store.read(t2, i2);
    if e2 & 1 == 0 {
        return Ok(None);
    }
    if e2 & 0x80 != 0 {
        if e2 & 0x200 != 0 {
            let old_phys = e2 & HUGE_ADDR_MASK;
            let new_phys = match pmm.alloc_huge() {
                Some(p) => p,
                None => return Err(VmmError::OutOfMemory),
            };
            let mut flags = PteFlags::from_bits_truncate(e2);
            flags.insert(PteFlags::writable());
            flags.remove(PteFlags::frozen());
            let ne = (new_phys as u64) | flags.bits();
            store.write(t2, i2, ne);
            proof {
                lemma_cow_keeps(pml4.0@, s0, p0, *store, *pmm, a2, i2 as int, e2, new_phys as u64, true);
            }
            return Ok(Some(CowCopy { from: old_phys, to: new_phys as u64, len: HUGE_SIZE }));
        }
        return Ok(None);
    }
    let t1 = match locate(pml4, store, Ghost(*pmm), v, false) {
        Some((t, _)) => t,
        None => return Ok(None),
    };
    let ghost a1 = store.frames()[t1 as int];
    let e1 = store.read(t1, i1);
    if e1 & 1 == 0 {
        return Ok(None);
    }
    if e1 & 0x200 != 0 {
        let old_phys = e1 & ADDR_MASK;
        let new_phys = match pmm.alloc_frame() {
            Some(p) => p,
            None => return Err(VmmError::OutOfMemory),
        };
        let mut flags = PteFlags::from_bits_truncate(e1);
        flags.insert(PteFlags::writable());
        flags.remove(PteFlags::frozen());
        let ne = (new_phys as u64) | flags.bits();
        store.write(t1, i1, ne);
        proof {
            lemma_cow_keeps(pml4.0@, s0, p0, *store, *pmm, a1, i1 as int, e1, new_phys as u64, false);
        }
        return Ok(Some(CowCopy { from: old_phys, to: new_phys as u64, len: 4096 }));
    }
    Ok(None)
}

/// Pointing a frozen entry at a copy keeps the tables in place.
proof fn lemma_cow_keeps(top: Seq<u64>, s0: TableStore, p0: Pmm, s1: TableStore, p1: Pmm, a: u64, j: int, e: u64, n: u64, h: bool)
    requires
        tables_ok(top, s0, p0),
        p0.wf(),
        s0.has(a),
        0 <= j < ENTRIES,
        e == s0.entry(a, j),
        present(e),
        h ==> huge_entry(e) && s0.level(a) == 2,
        !h ==> s0.level(a) == 1,
        s1.shape(),
        s1.frames() == s0.frames(),
        written(s0, s1, a, j, thawed_entry(n, e)),
        n % 4096 == 0,
        h ==> huge_taken(p0, p1, Some(n as usize)),
        !h ==> frame_taken(p0, p1, Some(n as usize)),
    ensures
        tables_ok(top, s1, p1),
{
    lemma_thaw_bits(n, e);
    lemma_links_carry(s0, p0, s1, a, j, thawed_entry(n, e));
    assert forall|i: int| 0 <= i < s1.frames().len() implies frame_held(p1, #[trigger] s1.frames()[i]) by {
        let b = s1.frames()[i];
        assert(frame_held(p0, s0.frames()[i]));
        if p1.is_free((b / 4096) as int) {
            if h {
                lemma_huge_taken_frees_nothing(p0, p1, Some(n as usize), (b / 4096) as int);
            }
        }
    }
    assert forall|w: int| 0 <= w < ENTRIES && present(#[trigger] top[w]) implies s1.has(frame_of(top[w])) && s1.level(frame_of(top[w])) == 3 by {
        assert(s0.has(frame_of(top[w])));
    }
}

/// The flags of the identity mapping: present, writable, huge, global.
pub const IDENTITY_FLAGS: u64 = 0x183;

/// The `q`-th 2 MiB region from `lo`.
pub open spec fn region(lo: int, q: int) -> u64 {
    (lo + q * HUGE_SIZE) as u64
}

/// Once `set_mapping(p)` has run, a region `r` whose entry was present keeps its way and its
/// entry, unless its entry is the one `p` writes.
/// A zero entry is not present.
proof fn lemma_zero_absent()
    ensures
        !present(0u64),
{
    assert(!present(0u64)) by (bit_vector);
}

/// The entry `(a, j)` had in `s0`: its value there, or zero for a table added since.
pub open spec fn entry_before(s0: TableStore, a: u64, j: int) -> u64 {
    if s0.has(a) { s0.entry(a, j) } else { 0 }
}

/// Since `(top0, s0)`, mapping the first `k` regions from `lo` changed nothing but absent
/// top-level entries, absent entries of tables other than page directories (which now lead
/// to added tables), and the entries of those regions; every table is still there at its
/// level. So no entry that was present changes, unless it is the entry of one of those
/// regions, and every entry that changed in a page directory is such a region's entry.
pub open spec fn identity_changes_only(top0: Seq<u64>, s0: TableStore, top: Seq<u64>, s: TableStore, lo: int, k: int) -> bool {
    &&& forall|j: int| 0 <= j < ENTRIES && #[trigger] top[j] != top0[j] ==> !present(top0[j])
    &&& forall|a: u64| #![trigger s0.has(a)] #![trigger s.has(a)] s0.has(a) ==> s.has(a) && s.level(a) == s0.level(a)
    &&& forall|a: u64, j: int|
        s.has(a) && 0 <= j < ENTRIES && #[trigger] s.entry(a, j) != entry_before(s0, a, j) ==> (!present(entry_before(s0, a, j))
            && s.level(a) != 2) || exists|q: int| 0 <= q < k && #[trigger] slot_of(top, s, region(lo, q), true) == Some((a, j))
}

/// The directory that `v` reaches is a level-2 table.
proof fn lemma_pd_level(top: Seq<u64>, s: TableStore, pm: Pmm, v: u64)
    requires
        tables_ok(top, s, pm),
        pd_of(top, s, v) is Some,
    ensures
        s.has(pd_of(top, s, v)->Some_0),
        s.level(pd_of(top, s, v)->Some_0) == 2,
{
    lemma_idx(v);
    let a3 = pdpt_of(top, v)->Some_0;
    assert(present(top[idx(v, 39)]));
    assert(s.has(a3) && s.level(a3) == 3);
    assert(present(s.entry(a3, idx(v, 30))));
}

/// One more region mapped keeps `identity_changes_only`.
proof fn lemma_identity_changes_step(top0: Seq<u64>, s0: TableStore, top: Seq<u64>, s: TableStore, pm: Pmm, top1: Seq<u64>, s1: TableStore, pm1: Pmm, lo: int, k: int, p: u64)
    requires
        0 <= k,
        p == region(lo, k),
        identity_changes_only(top0, s0, top, s, lo, k),
        tables_ok(top, s, pm),
        tables_ok(top1, s1, pm1),
        changed_only_along(top, s, top1, s1, p, true),
    ensures
        identity_changes_only(top0, s0, top1, s1, lo, k + 1),
{
    lemma_idx(p);
    lemma_zero_absent();
    assert forall|j: int| 0 <= j < ENTRIES && #[trigger] top1[j] != top0[j] implies !present(top0[j]) by {
        if top1[j] != top[j] {
            assert(!present(top[j]));
        }
    }
    assert forall|a: u64| #[trigger] s0.has(a) implies s1.has(a) && s1.level(a) == s0.level(a) by {
        assert(s.has(a));
    }
    assert forall|a: u64, j: int|
        s1.has(a) && 0 <= j < ENTRIES && #[trigger] s1.entry(a, j) != entry_before(s0, a, j) implies (!present(entry_before(s0, a, j))
            && s1.level(a) != 2) || exists|q: int| 0 <= q < k + 1 && #[trigger] slot_of(top1, s1, region(lo, q), true) == Some((a, j)) by {
        let base = entry_before(s0, a, j);
        if slot_of(top1, s1, p, true) == Some((a, j)) {
            assert(slot_of(top1, s1, region(lo, k), true) == Some((a, j)));
        } else if s.has(a) {
            if s1.entry(a, j) == s.entry(a, j) {
                assert(s.entry(a, j) != base);
                if !(!present(base) && s.level(a) != 2) {
                    let q = choose|q: int| 0 <= q < k && #[trigger] slot_of(top, s, region(lo, q), true) == Some((a, j));
                    lemma_region_kept(top, s, pm, top1, s1, pm1, p, region(lo, q));
                    assert(slot_of(top1, s1, region(lo, q), true) == Some((a, j)));
                }
            } else {
                assert(!present(s.entry(a, j)) && on_way(top1, s1, p, a, j));
                assert(pdpt_of(top1, p) == Some(a));
                assert(present(top1[idx(p, 39)]));
                assert(s1.level(a) == 3);
                if s.entry(a, j) != base {
                    if !(!present(base) && s.level(a) != 2) {
                        let q = choose|q: int| 0 <= q < k && #[trigger] slot_of(top, s, region(lo, q), true) == Some((a, j));
                        lemma_pd_level(top, s, pm, region(lo, q));
                        assert(s.level(a) == 2);
                    }
                }
            }
        } else {
            assert(!s0.has(a));
            assert(base == 0);
            assert(s1.entry(a, j) != 0);
            assert(on_way(top1, s1, p, a, j));
            assert(pdpt_of(top1, p) == Some(a));
            assert(present(top1[idx(p, 39)]));
        }
    }
}

proof fn lemma_region_kept(top: Seq<u64>, s: TableStore, pm: Pmm, top1: Seq<u64>, s1: TableStore, pm1: Pmm, p: u64, r: u64)
    requires
        tables_ok(top, s, pm),
        tables_ok(top1, s1, pm1),
        changed_only_along(top, s, top1, s1, p, true),
        slot_of(top, s, r, true) is Some,
    ensures
        slot_of(top1, s1, r, true) == slot_of(top, s, r, true),
        slot_of(top, s, r, true) matches Some((a, j)) ==> (s1.entry(a, j) == s.entry(a, j) || slot_of(top1, s1, p, true) == Some((a, j))),
{
    lemma_idx(r);
    lemma_idx(p);
    let a3 = pdpt_of(top, r)->Some_0;
    assert(pdpt_of(top, r) is Some);
    let i4 = idx(r, 39);
    assert(top1[i4] == top[i4]);
    assert(s.has(a3) && s.level(a3) == 3);
    assert(s1.has(a3) && s1.level(a3) == 3);
    let i3 = idx(r, 30);
    if s1.entry(a3, i3) != s.entry(a3, i3) {
        let a2p = pd_of(top1, s1, p)->Some_0;
        if slot_of(top1, s1, p, true) == Some((a3, i3)) {
            assert(pd_of(top1, s1, p) == Some(a3));
            let p3 = pdpt_of(top1, p)->Some_0;
            assert(s1.has(p3) && s1.level(p3) == 3);
            assert(links_ok(s1, s1.level(p3), s1.entry(p3, idx(p, 30))));
        }
    }
    assert(s1.entry(a3, i3) == s.entry(a3, i3));
}

/// Maps the 2 MiB regions that cover `size` bytes from `phys_start` each to itself
/// (`set_mapping` with `IDENTITY_FLAGS`, huge), lowest first. Afterwards every region of
/// the range is mapped by an identity entry of a region of the range whose entry sits in the
/// same place (the last one mapped), so by its own when no other region of the range shares
/// its entry. Nothing else changes but the absent entries that now lead to added tables
/// (see `identity_changes_only`). `OutOfMemory` when a table was needed and no frame was free.
pub fn map_huge_identity(pml4: &mut PageTable, store: &mut TableStore, pmm: &mut Pmm, phys_start: usize, size: usize) -> (res: Result<(), VmmError>)
    requires
        tables_ok(old(pml4).0@, *old(store), *old(pmm)),
        old(pmm).wf(),
        phys_start + size + HUGE_SIZE - 1 <= usize::MAX,
    ensures
        tables_ok(final(pml4).0@, *final(store), *final(pmm)),
        final(pmm).wf(),
        forall|g: int| 0 <= g < MAX_FRAMES && #[trigger] final(pmm).is_free(g) ==> old(pmm).is_free(g),
        res is Err ==> forall|g: int| 0 <= g < MAX_FRAMES ==> !#[trigger] final(pmm).is_free(g),
        res is Ok ==> {
            let lo = (phys_start & !0x1F_FFFFusize) as int;
            let hi = ((phys_start + size + HUGE_SIZE - 1) as usize & !0x1F_FFFFusize) as int;
            let n = (hi - lo) / (HUGE_SIZE as int);
            &&& forall|q: int| 0 <= q < n ==> {
                &&& #[trigger] identity_at(final(pml4).0@, *final(store), lo, n, q)
                &&& (forall|y: int| 0 <= y < n && y != q
                    ==> slot_of(final(pml4).0@, *final(store), region(lo, y), true) != slot_of(final(pml4).0@, *final(store), region(lo, q), true))
                    ==> mapping(final(pml4).0@, *final(store), region(lo, q)) == Some(leaf_entry(region(lo, q), IDENTITY_FLAGS, true))
            }
            &&& identity_changes_only(old(pml4).0@, *old(store), final(pml4).0@, *final(store), lo, n)
        },
{
    let flags = PteFlags::present().union(PteFlags::writable()).union(PteFlags::huge()).union(PteFlags::global());
    let mut phys = phys_start & !(HUGE_SIZE - 1);
    let end = (phys_start + size + (HUGE_SIZE - 1)) & !(HUGE_SIZE - 1);
    let ghost lo = phys as int;
    let ghost hi = end as int;
    let ghost p0 = *pmm;
    let ghost top0 = pml4.0@;
    let ghost s0 = *store;
    proof {
        lemma_identity_setup(phys_start, (phys_start + size + HUGE_SIZE - 1) as usize);
        reveal(identity_upto);
    }
    let ghost mut k: int = 0;
    while phys < end
        invariant
            flags.0 == IDENTITY_FLAGS,
            lo % (HUGE_SIZE as int) == 0,
            hi % (HUGE_SIZE as int) == 0,
            lo <= hi,
            hi == end as int,
            IDENTITY_FLAGS & 1 == 1,
            IDENTITY_FLAGS & 0x80 == 0x80,
            0 <= k,
            phys as int == lo + k * HUGE_SIZE,
            phys <= end,
            tables_ok(pml4.0@, *store, *pmm),
            pmm.wf(),
            forall|g: int| 0 <= g < MAX_FRAMES && #[trigger] pmm.is_free(g) ==> p0.is_free(g),
            identity_upto(pml4.0@, *store, lo, k),
            identity_changes_only(top0, s0, pml4.0@, *store, lo, k),
        decreases end - phys,
    {
        let ghost top = pml4.0@;
        let ghost s = *store;
        let ghost pm = *pmm;
        match set_mapping(pml4, store, pmm, phys, phys, flags, true) {
            Ok(()) => {},
            Err(e) => return Err(e),
        }
        proof {
            let p = phys as u64;
            assert(p == region(lo, k));
            lemma_identity_step(lo, k, top, s, pm, pml4.0@, *store, *pmm, p);
            lemma_identity_changes_step(top0, s0, top, s, pm, pml4.0@, *store, *pmm, lo, k, p);
            assert(phys + HUGE_SIZE <= end) by (nonlinear_arith)
                requires
                    phys as int == lo + k * HUGE_SIZE,
                    phys < end,
                    lo % (HUGE_SIZE as int) == 0,
                    hi % (HUGE_SIZE as int) == 0,
                    hi == end as int;
            assert(phys + HUGE_SIZE == lo + (k + 1) * HUGE_SIZE) by (nonlinear_arith)
                requires
                    phys as int == lo + k * HUGE_SIZE;
        }
        phys = phys + HUGE_SIZE;
        proof {
            k = k + 1;
        }
    }
    proof {
        assert(k == (hi - lo) / (HUGE_SIZE as int)) by (nonlinear_arith)
            requires
                lo + k * HUGE_SIZE == hi;
        lemma_identity_done(pml4.0@, *store, lo, k);
    }
    Ok(())
}

/// The first `k` regions from `lo` are each mapped by a present entry that an identity
/// mapping of one of them, at or after it, wrote.
#[verifier::opaque]
pub open spec fn identity_upto(top: Seq<u64>, s: TableStore, lo: int, k: int) -> bool {
    forall|q: int| 0 <= q < k ==> #[trigger] identity_at(top, s, lo, k, q)
}

/// The entry for region `q` from `lo` is the one the identity mapping of a region `x` among
/// the first `k`, at or after `q`, wrote: `x`'s entry sits in the same place.
pub open spec fn identity_at(top: Seq<u64>, s: TableStore, lo: int, k: int, q: int) -> bool {
    slot_of(top, s, region(lo, q), true) matches Some((a, j)) && exists|x: int| q <= x < k
        && #[trigger] slot_of(top, s, region(lo, x), true) == Some((a, j))
        && s.entry(a, j) == leaf_entry(region(lo, x), IDENTITY_FLAGS, true)
}

/// One region more of `map_huge_identity`, for one region `q`.
proof fn lemma_identity_one(lo: int, k: int, q: int, top: Seq<u64>, s: TableStore, pm: Pmm, top1: Seq<u64>, s1: TableStore, pm1: Pmm, p: u64)
    requires
        0 <= q < k + 1,
        p == region(lo, k),
        IDENTITY_FLAGS & 1 == 1,
        IDENTITY_FLAGS & 0x80 == 0x80,
        tables_ok(top, s, pm),
        tables_ok(top1, s1, pm1),
        changed_only_along(top, s, top1, s1, p, true),
        slot_of(top1, s1, p, true) matches Some((a, j)) && s1.entry(a, j) == leaf_entry(p, IDENTITY_FLAGS, true),
        q < k ==> identity_at(top, s, lo, k, q),
    ensures
        identity_at(top1, s1, lo, k + 1, q),
{
    if q < k {
        let rq = region(lo, q);
        lemma_region_kept(top, s, pm, top1, s1, pm1, p, rq);
        let (aq, jq) = slot_of(top, s, rq, true)->Some_0;
        let x = choose|x: int| q <= x < k
            && #[trigger] slot_of(top, s, region(lo, x), true) == Some((aq, jq))
            && s.entry(aq, jq) == leaf_entry(region(lo, x), IDENTITY_FLAGS, true);
        if s1.entry(aq, jq) == s.entry(aq, jq) {
            lemma_region_kept(top, s, pm, top1, s1, pm1, p, region(lo, x));
            assert(slot_of(top1, s1, region(lo, x), true) == Some((aq, jq)));
        } else {
            assert(slot_of(top1, s1, region(lo, k), true) == Some((aq, jq)));
        }
    } else {
        assert(slot_of(top1, s1, region(lo, k), true) == slot_of(top1, s1, p, true));
    }
}

/// One region more of `map_huge_identity`.
proof fn lemma_identity_step(lo: int, k: int, top: Seq<u64>, s: TableStore, pm: Pmm, top1: Seq<u64>, s1: TableStore, pm1: Pmm, p: u64)
    requires
        0 <= k,
        p == region(lo, k),
        IDENTITY_FLAGS & 1 == 1,
        IDENTITY_FLAGS & 0x80 == 0x80,
        tables_ok(top, s, pm),
        tables_ok(top1, s1, pm1),
        changed_only_along(top, s, top1, s1, p, true),
        slot_of(top1, s1, p, true) matches Some((a, j)) && s1.entry(a, j) == leaf_entry(p, IDENTITY_FLAGS, true),
        identity_upto(top, s, lo, k),
    ensures
        identity_upto(top1, s1, lo, k + 1),
{
    reveal(identity_upto);
    assert forall|q: int| 0 <= q < k + 1 implies #[trigger] identity_at(top1, s1, lo, k + 1, q) by {
        lemma_identity_one(lo, k, q, top, s, pm, top1, s1, pm1, p);
    }
}

/// Once all `n` regions are mapped, each is mapped by the identity entry of one of them, and
/// by its own when no other region shares its entry.
proof fn lemma_identity_done(top: Seq<u64>, s: TableStore, lo: int, n: int)
    requires
        identity_upto(top, s, lo, n),
        IDENTITY_FLAGS & 1 == 1,
        IDENTITY_FLAGS & 0x80 == 0x80,
    ensures
        forall|q: int| 0 <= q < n ==> {
            &&& #[trigger] identity_at(top, s, lo, n, q)
            &&& (forall|y: int| 0 <= y < n && y != q ==> slot_of(top, s, region(lo, y), true) != slot_of(top, s, region(lo, q), true))
                ==> mapping(top, s, region(lo, q)) == Some(leaf_entry(region(lo, q), IDENTITY_FLAGS, true))
        },
{
    reveal(identity_upto);
    assert forall|q: int| 0 <= q < n implies {
        &&& #[trigger] identity_at(top, s, lo, n, q)
        &&& (forall|y: int| 0 <= y < n && y != q ==> slot_of(top, s, region(lo, y), true) != slot_of(top, s, region(lo, q), true))
            ==> mapping(top, s, region(lo, q)) == Some(leaf_entry(region(lo, q), IDENTITY_FLAGS, true))
    } by {
        assert(identity_at(top, s, lo, n, q));
        let (a, j) = slot_of(top, s, region(lo, q), true)->Some_0;
        let x = choose|x: int| q <= x < n
            && #[trigger] slot_of(top, s, region(lo, x), true) == Some((a, j))
            && s.entry(a, j) == leaf_entry(region(lo, x), IDENTITY_FLAGS, true);
        lemma_huge_leaf(region(lo, q), IDENTITY_FLAGS);
        if forall|y: int| 0 <= y < n && y != q ==> slot_of(top, s, region(lo, y), true) != slot_of(top, s, region(lo, q), true) {
            assert(x == q);
        }
    }
}

/// The flags of the identity mapping, and the 2 MiB alignment of the range's ends.
proof fn lemma_identity_setup(a: usize, b: usize)
    requires
        a <= b,
    ensures
        ((1u64 | 2u64) | 0x80u64) | 0x100u64 == IDENTITY_FLAGS,
        IDENTITY_FLAGS & 1 == 1,
        IDENTITY_FLAGS & 0x80 == 0x80,
        (a & !0x1F_FFFFusize) % 0x20_0000 == 0,
        (b & !0x1F_FFFFusize) % 0x20_0000 == 0,
        (a & !0x1F_FFFFusize) <= (b & !0x1F_FFFFusize),
{
    assert(((1u64 | 2u64) | 0x80u64) | 0x100u64 == 0x183u64 && 0x183u64 & 1 == 1 && 0x183u64 & 0x80 == 0x80
        && (a & !0x1F_FFFFusize) % 0x20_0000 == 0
        && (b & !0x1F_FFFFusize) % 0x20_0000 == 0 && (a & !0x1F_FFFFusize) <= (b & !0x1F_FFFFusize)) by (bit_vector)
        requires
            a <= b;
}

/// What `set_mapping` wrote is what a lookup finds: once it has written a present entry for
/// `virt` (a huge-page one when `huge`), `virt` is mapped by that entry.
pub proof fn law_set_mapping_maps(top: Seq<u64>, s: TableStore, p: Pmm, virt: usize, phys: usize, flags: PteFlags, huge: bool)
    requires
        tables_ok(top, s, p),
        slot_of(top, s, virt as u64, huge) matches Some((a, j)) && s.entry(a, j) == leaf_entry(phys as u64, flags.0, huge),
        flags.0 & 1 == 1,
        huge ==> flags.0 & 0x80 == 0x80,
    ensures
        mapping(top, s, virt as u64) == Some(leaf_entry(phys as u64, flags.0, huge)),
{
    lemma_huge_leaf(phys as u64, flags.0);
}

/// A page that `freeze_region` froze asks for a copy on its next write fault: for a stepped
/// address whose entry was present (mapping a huge page when freezing huge pages), a write
/// fault finds that entry frozen.
pub proof fn law_frozen_page_copies_on_write(
    top: Seq<u64>,
    s0: TableStore,
    p: Pmm,
    s1: TableStore,
    start: usize,
    size: usize,
    huge: bool,
    k: int,
    error_code: u64,
)
    requires
        tables_ok(top, s0, p),
        s1.shape(),
        s1.frames() == s0.frames(),
        s1.spec_levels() == s0.spec_levels(),
        forall|a: u64, j: int| s0.has(a) && 0 <= j < ENTRIES ==> #[trigger] s1.entry(a, j) == if walked(
            top,
            s0,
            start as int,
            step_count(start as int, start + size, if huge { HUGE_SIZE as int } else { 4096 }),
            if huge { HUGE_SIZE as int } else { 4096 },
            huge,
            a,
            j,
        ) && present(s0.entry(a, j)) {
            frozen_entry(s0.entry(a, j))
        } else {
            s0.entry(a, j)
        },
        0 <= k < step_count(start as int, start + size, if huge { HUGE_SIZE as int } else { 4096 }),
        error_code & 2 == 2,
        slot_of(top, s0, step_addr(start as int, k, if huge { HUGE_SIZE as int } else { 4096 }) as u64, huge) matches Some((a, j))
            && present(s0.entry(a, j)) && (huge ==> huge_entry(s0.entry(a, j))),
        !huge ==> !maps_huge(top, s0, step_addr(start as int, k, 4096) as u64),
    ensures
        slot_of(top, s0, step_addr(start as int, k, if huge { HUGE_SIZE as int } else { 4096 }) as u64, huge) matches Some((a, j))
            && cow_target(top, s1, step_addr(start as int, k, if huge { HUGE_SIZE as int } else { 4096 }) as u64, error_code) == Some((a, j, huge)),
{
    let st: int = if huge { HUGE_SIZE as int } else { 4096 };
    let n = step_count(start as int, start + size, st);
    let v = step_addr(start as int, k, st) as u64;
    let (a, j) = slot_of(top, s0, v, huge)->Some_0;
    assert(walked(top, s0, start as int, n, st, huge, a, j));
    assert forall|b: u64, w: int| s0.has(b) && 0 <= w < ENTRIES implies {
        &&& present(#[trigger] s1.entry(b, w)) == present(s0.entry(b, w))
        &&& huge_entry(s1.entry(b, w)) == huge_entry(s0.entry(b, w))
        &&& frame_of(s1.entry(b, w)) == frame_of(s0.entry(b, w))
    } by {
        lemma_freeze_bits(s0.entry(b, w));
    }
    lemma_same_links(top, s0, p, s1, v);
    lemma_freeze_bits(s0.entry(a, j));
    lemma_idx(v);
    if !huge {
        let a2 = pd_of(top, s0, v)->Some_0;
        assert(pd_of(top, s0, v) is Some);
        assert(present(s0.entry(a2, idx(v, 21))));
    }
}

/// A copy-on-write fault copies once: after `handle_page_fault` has pointed the frozen entry
/// at the copy, the entry is writable and no longer frozen, so a write fault at the same
/// address asks for no copy.
pub proof fn law_copy_on_write_once(top: Seq<u64>, s0: TableStore, p0: Pmm, s1: TableStore, v: u64, error_code: u64, c: CowCopy)
    requires
        tables_ok(top, s0, p0),
        cow_target(top, s0, v, error_code) is Some,
        c.to % 4096 == 0,
        s1.shape(),
        s1.frames() == s0.frames(),
        cow_target(top, s0, v, error_code) matches Some((a, j, h))
            && written(s0, s1, a, j, thawed_entry(c.to, s0.entry(a, j))),
    ensures
        cow_target(top, s0, v, error_code) matches Some((a, j, h)) && s1.entry(a, j) & 2 == 2 && s1.entry(a, j) & 0x200 == 0,
        cow_target(top, s1, v, error_code) is None,
{
    lemma_idx(v);
    let (a, j, h) = cow_target(top, s0, v, error_code)->Some_0;
    let e = s0.entry(a, j);
    lemma_thaw_bits(c.to, e);
    assert(forall|b: u64| #![trigger s0.has(b)] #![trigger s1.has(b)] s0.has(b) ==> s1.has(b) && s1.level(b) == s0.level(b));
    let a3 = pdpt_of(top, v)->Some_0;
    assert(s0.has(a3) && s0.level(a3) == 3);
    let a2 = pd_of(top, s0, v)->Some_0;
    assert(links_ok(s0, s0.level(a3), s0.entry(a3, idx(v, 30))));
    assert(s0.has(a2) && s0.level(a2) == 2);
    assert(s1.entry(a3, idx(v, 30)) == s0.entry(a3, idx(v, 30)));
    if !h {
        assert(links_ok(s0, s0.level(a2), s0.entry(a2, idx(v, 21))));
        assert(s1.entry(a2, idx(v, 21)) == s0.entry(a2, idx(v, 21)));
    }
}

} // verus!
