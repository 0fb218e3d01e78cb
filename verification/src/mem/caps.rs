use vstd::prelude::*;
use crate::mem::derivation::{
    child_ok, node_ok, tree_ok, subtree, kids_post, newer, freed, head_after, unlink, kids_without, descends,
    lemma_freed_concat, lemma_freed_other, lemma_freed_in, lemma_freed_len, lemma_kids_post_from,
    lemma_siblings_disjoint, lemma_child_subtree_within, lemma_subtree_has_root, lemma_subtree_in_range,
    lemma_below_child_not_root, lemma_unlink_shape, lemma_revoke_keeps_tree, lemma_subtree_below,
    lemma_descendant_in_subtree, ancestor, lemma_ancestor_split, lemma_ancestor_one,
};

verus! {

/// The number of slots of the capability table; slot 0 is never used.
pub const MAX_CAPS: usize = 4096;

/// A set of access rights, one bit each.
#[derive(Clone, Copy, Debug, PartialEq, Eq, Structural)]
pub struct CapRights(pub u8);

/// Whether every right of `req` is in `have`.
pub open spec fn rights_contain(have: u8, req: u8) -> bool {
    have & req == req
}

impl CapRights {
    pub fn read() -> (r: Self)
        ensures
            r.0 == 1,
    {
        CapRights(1)
    }

    pub fn write() -> (r: Self)
        ensures
            r.0 == 2,
    {
        CapRights(2)
    }

    pub fn execute() -> (r: Self)
        ensures
            r.0 == 4,
    {
        CapRights(4)
    }

    pub fn grant() -> (r: Self)
        ensures
            r.0 == 8,
    {
        CapRights(8)
    }

    /// No right at all.
    pub fn empty() -> (r: Self)
        ensures
            r.0 == 0,
    {
        CapRights(0)
    }

    pub fn bits(&self) -> (b: u8)
        ensures
            b == self.0,
    {
        self.0
    }

    /// Whether every right of `other` is in `self`.
    pub fn contains(&self, other: CapRights) -> (res: bool)
        ensures
            res == rights_contain(self.0, other.0),
    {
        self.0 & other.0 == other.0
    }

    /// The rights of either.
    pub fn union(&self, other: CapRights) -> (r: CapRights)
        ensures
            r.0 == self.0 | other.0,
    {
        CapRights(self.0 | other.0)
    }
}

#[derive(Clone, Copy, Debug)]
pub struct MemCap {
    pub base: u64,
    pub size: u64,
    pub rights: CapRights,
    pub parent: Option<u32>,
    pub first_child: Option<u32>,
    pub next_sibling: Option<u32>,
}

/// A slot of the capability table: free (and then a link of the free list) or holding a
/// memory capability.
#[derive(Clone, Copy, Debug)]
pub enum Slot {
    Free { next_free: Option<u32> },
    Occupied(MemCap),
}

impl Default for Slot {
    fn default() -> (s: Self)
        ensures
            s == (Slot::Free { next_free: None }),
    {
        Slot::Free { next_free: None }
    }
}

/// Whether `i` names a usable slot.
pub open spec fn valid_handle(i: int) -> bool {
    1 <= i < MAX_CAPS
}

/// A link that is absent or names a usable slot.
pub open spec fn link_ok(l: Option<u32>) -> bool {
    l matches Some(i) ==> valid_handle(i as int)
}

/// The table of memory capabilities: each capability covers `size` bytes from `base` with
/// some rights, and capabilities derived from one another form a tree through parent,
/// first-child and next-sibling links.
pub struct CapTableManager {
    table: Vec<Slot>,
    first_free: Option<u32>,
    next_unallocated: usize,
    /// The children of each capability, newest first (the order of the sibling links).
    kids: Ghost<Map<int, Seq<u32>>>,
    /// When each capability was made; a child is always newer than its parent.
    stamp: Ghost<Map<int, nat>>,
    /// The stamp the next capability gets.
    clock: Ghost<nat>,
}

impl CapTableManager {
    pub closed spec fn spec_table(&self) -> Seq<Slot> {
        self.table@
    }

    pub closed spec fn spec_first_free(&self) -> Option<u32> {
        self.first_free
    }

    pub closed spec fn spec_next_unallocated(&self) -> nat {
        self.next_unallocated as nat
    }

    /// The children of each capability, newest first.
    pub closed spec fn spec_kids(&self) -> Map<int, Seq<u32>> {
        self.kids@
    }

    /// When each capability was made.
    pub closed spec fn spec_stamp(&self) -> Map<int, nat> {
        self.stamp@
    }

    pub closed spec fn spec_clock(&self) -> nat {
        self.clock@
    }

    /// The capabilities form a derivation tree (see `tree_ok`).
    pub open spec fn tree_wf(&self) -> bool {
        tree_ok(self.spec_table(), self.spec_kids(), self.spec_stamp(), self.spec_clock())
    }

    /// Whether slot `i` holds a capability.
    pub open spec fn occupied(&self, i: int) -> bool {
        self.spec_table()[i] is Occupied
    }

    /// The capability in slot `i`.
    pub open spec fn cap(&self, i: int) -> MemCap {
        self.spec_table()[i]->Occupied_0
    }

    /// The table's shape and its derivation tree (see `shape_ok` and `tree_wf`).
    pub open spec fn wf(&self) -> bool {
        self.shape_ok() && self.tree_wf()
    }

    /// The table's shape: its size; every link names a usable slot; every capability's
    /// range ends within `u64`; slots at or past the never-used mark are free.
    pub closed spec fn shape_ok(&self) -> bool {
        &&& self.table@.len() == MAX_CAPS
        &&& 1 <= self.next_unallocated <= MAX_CAPS
        &&& link_ok(self.first_free)
        &&& (self.first_free matches Some(f) ==> f < self.next_unallocated)
        &&& forall|i: int|
            0 <= i < MAX_CAPS ==> match #[trigger] self.table@[i] {
                Slot::Free { next_free } => link_ok(next_free) && (next_free matches Some(n) ==> n < self.next_unallocated),
                Slot::Occupied(c) => {
                    &&& link_ok(c.parent)
                    &&& link_ok(c.first_child)
                    &&& link_ok(c.next_sibling)
                },
            }
        &&& forall|i: int| self.next_unallocated <= i < MAX_CAPS ==> !(#[trigger] self.table@[i] is Occupied)
        &&& !(self.table@[0] is Occupied)
    }

    /// The capability held by `handle`, if the handle names a slot that holds one.
    pub fn get(&self, handle: u32) -> (res: Option<MemCap>)
        requires
            self.wf(),
        ensures
            res == (if handle < MAX_CAPS && self.occupied(handle as int) { Some(self.cap(handle as int)) } else { None }),
    {
        if handle as usize >= MAX_CAPS {
            return None;
        }
        match self.table[handle as usize] {
            Slot::Occupied(c) => Some(c),
            Slot::Free { .. } => None,
        }
    }

    /// Whether a new capability would find a slot (see `slot_available`).
    pub fn has_free_slot(&self) -> (ok: bool)
        requires
            self.wf(),
        ensures
            ok == slot_available(*self),
    {
        match self.first_free {
            Some(f) => match self.table[f as usize] {
                Slot::Free { .. } => true,
                Slot::Occupied(_) => self.next_unallocated < MAX_CAPS,
            },
            None => self.next_unallocated < MAX_CAPS,
        }
    }

    /// An empty table.
    pub fn new() -> (m: Self)
        ensures
            m.wf(),
            m.spec_first_free() is None,
            m.spec_next_unallocated() == 1,
            forall|i: int| 0 <= i < MAX_CAPS ==> #[trigger] m.spec_table()[i] == (Slot::Free { next_free: None }),
    {
        let mut table: Vec<Slot> = Vec::new();
        let mut k: usize = 0;
        while k < MAX_CAPS
            invariant
                k <= MAX_CAPS,
                table@.len() == k,
                forall|i: int| 0 <= i < k ==> #[trigger] table@[i] == (Slot::Free { next_free: None }),
            decreases MAX_CAPS - k,
        {
            table.push(Slot::Free { next_free: None });
            k = k + 1;
        }
        CapTableManager {
            table,
            first_free: None,
            next_unallocated: 1,
            kids: Ghost(Map::empty()),
            stamp: Ghost(Map::empty()),
            clock: Ghost(0),
        }
    }

    /// Picks a slot for a new capability without filling it: the head of the free list when
    /// that slot is free (it then leaves the list), else the first never-used slot, else none.
    fn alloc_slot(&mut self) -> (res: Option<u32>)
        requires
            old(self).shape_ok(),
        ensures
            final(self).shape_ok(),
            res matches Some(i) ==> valid_handle(i as int) && !old(self).occupied(i as int),
            slot_picked(*old(self), *final(self), res),
            final(self).kids == old(self).kids,
            final(self).stamp == old(self).stamp,
            final(self).clock == old(self).clock,
    {
        if let Some(slot_idx) = self.first_free {
            if let Slot::Free { next_free } = self.table[slot_idx as usize] {
                self.first_free = next_free;
                return Some(slot_idx);
            }
        }
        if self.next_unallocated < MAX_CAPS {
            let slot_idx = self.next_unallocated as u32;
            self.next_unallocated = self.next_unallocated + 1;
            return Some(slot_idx);
        }
        None
    }

    /// Frees slot `slot_idx` and puts it at the head of the free list.
    fn free_slot(&mut self, slot_idx: u32)
        requires
            old(self).shape_ok(),
            valid_handle(slot_idx as int),
            old(self).occupied(slot_idx as int),
        ensures
            final(self).shape_ok(),
            final(self).spec_table() == old(self).spec_table().update(slot_idx as int, Slot::Free { next_free: old(self).spec_first_free() }),
            final(self).kids == old(self).kids,
            final(self).stamp == old(self).stamp,
            final(self).clock == old(self).clock,
            final(self).spec_first_free() == Some(slot_idx),
            final(self).spec_next_unallocated() == old(self).spec_next_unallocated(),
    {
        let head = self.first_free;
        self.table.set(slot_idx as usize, Slot::Free { next_free: head });
        self.first_free = Some(slot_idx);
    }
    /// Frees capability `handle` and, first, every capability derived from it: its
    /// children's subtrees, newest child first, each in post-order (`subtree` of `s0`, the
    /// table as it was before the revocation began, whose entries below `handle` are still
    /// in place).
    fn raw_revoke(&mut self, handle: u32, Ghost(s0): Ghost<CapTableManager>)
        requires
            old(self).shape_ok(),
            s0.wf(),
            valid_handle(handle as int),
            s0.occupied(handle as int),
            old(self).kids == s0.kids,
            old(self).stamp == s0.stamp,
            old(self).clock == s0.clock,
            forall|x: u32| #[trigger] revoked_slots(s0, handle as int).contains(x) ==> old(self).table@[x as int] == s0.table@[x as int],
        ensures
            final(self).shape_ok(),
            final(self).table@ == freed(old(self).table@, old(self).first_free, revoked_slots(s0, handle as int)),
            final(self).first_free == head_after(old(self).first_free, revoked_slots(s0, handle as int)),
            final(self).next_unallocated == old(self).next_unallocated,
            final(self).kids == old(self).kids,
            final(self).stamp == old(self).stamp,
            final(self).clock == old(self).clock,
        decreases s0.clock@ - s0.stamp@[handle as int],
    {
        let ghost h = handle as int;
        let ghost t0 = s0.table@;
        let ghost k = s0.kids@;
        let ghost st = s0.stamp@;
        let ghost ck = s0.clock@;
        let ghost kh = k[h];
        let ghost t_e = self.table@;
        let ghost ff_e = self.first_free;
        let ghost nu = self.next_unallocated;
        proof {
            lemma_subtree_has_root(k, st, ck, h);
            lemma_subtree_in_range(t0, k, st, ck, h);
            assert(node_ok(t0, k, st, ck, h));
            assert(revoked_slots(s0, h).contains(handle));
        }
        if let Slot::Occupied(cap) = self.table[handle as usize] {
            let mut curr_child = cap.first_child;
            let ghost mut j: int = 0;
            loop
                invariant_except_break
                    curr_child == (if j < kh.len() { Some(kh[j]) } else { None }),
                invariant
                    0 <= j <= kh.len(),
                    self.shape_ok(),
                    self.kids == s0.kids,
                    self.stamp == s0.stamp,
                    self.clock == s0.clock,
                    self.next_unallocated == nu,
                    self.table@ == freed(t_e, ff_e, kids_post(k, st, ck, h, j)),
                    self.first_free == head_after(ff_e, kids_post(k, st, ck, h, j)),
                    s0.wf(),
                    valid_handle(h),
                    s0.occupied(h),
                    h == handle as int,
                    t0 == s0.table@,
                    k == s0.kids@,
                    st == s0.stamp@,
                    ck == s0.clock@,
                    kh == k[h],
                    t_e.len() == MAX_CAPS,
                    forall|x: u32| #[trigger] revoked_slots(s0, h).contains(x) ==> t_e[x as int] == t0[x as int],
                ensures
                    j == kh.len(),
                decreases kh.len() - j,
            {
                match curr_child {
                    None => break,
                    Some(child_idx) => {
                        let ghost c = child_idx as int;
                        let ghost kp = kids_post(k, st, ck, h, j);
                        proof {
                            assert(child_ok(t0, k, st, h, j));
                            assert(node_ok(t0, k, st, ck, c));
                            assert(newer(st, ck, h, c));
                            lemma_subtree_has_root(k, st, ck, c);
                            lemma_subtree_in_range(t0, k, st, ck, c);
                            lemma_subtree_in_range(t0, k, st, ck, h);
                            // slots freed so far are in the subtrees of earlier children
                            assert forall|i: int| 0 <= i < kp.len() implies #[trigger] kp[i] < t_e.len() by {
                                assert(kp.contains(kp[i]));
                                let w = lemma_kids_post_from(k, st, ck, h, j, kp[i]);
                                lemma_child_subtree_within(k, st, ck, h, w, kp[i]);
                            }
                            assert forall|x: u32| #[trigger] revoked_slots(s0, c).contains(x) implies self.table@[x as int] == t0[x as int] by {
                                if kp.contains(x) {
                                    let w = lemma_kids_post_from(k, st, ck, h, j, x);
                                    lemma_siblings_disjoint(t0, k, st, ck, h, w, j, x);
                                }
                                lemma_freed_other(t_e, ff_e, kp, x as int);
                                lemma_child_subtree_within(k, st, ck, h, j, x);
                                assert(revoked_slots(s0, h).contains(x));
                            }
                            assert(revoked_slots(s0, c).contains(child_idx));
                        }
                        match self.table[child_idx as usize] {
                            Slot::Occupied(child_cap) => {
                                curr_child = child_cap.next_sibling;
                                self.raw_revoke(child_idx, Ghost(s0));
                                proof {
                                    lemma_freed_concat(t_e, ff_e, kp, revoked_slots(s0, c));
                                    assert(kids_post(k, st, ck, h, j + 1) == kp + revoked_slots(s0, c));
                                    j = j + 1;
                                }
                            },
                            _ => break,
                        }
                    },
                }
            }
            let ghost kp = kids_post(k, st, ck, h, kh.len() as int);
            proof {
                assert(!kp.contains(handle)) by {
                    if kp.contains(handle) {
                        let w = lemma_kids_post_from(k, st, ck, h, kh.len() as int, handle);
                        lemma_below_child_not_root(t0, k, st, ck, h, w, handle);
                    }
                }
                assert forall|i: int| 0 <= i < kp.len() implies #[trigger] kp[i] < t_e.len() by {
                    assert(kp.contains(kp[i]));
                    let w = lemma_kids_post_from(k, st, ck, h, kh.len() as int, kp[i]);
                    lemma_child_subtree_within(k, st, ck, h, w, kp[i]);
                }
                lemma_freed_other(t_e, ff_e, kp, h);
            }
            self.free_slot(handle);
            proof {
                let sub = revoked_slots(s0, h);
                assert(sub.drop_last() =~= kp);
            }
        }
    }

    /// Makes the child of `p` just before `handle` in `p`'s sibling chain link to `next`,
    /// skipping `handle` (which is not `p`'s first child).
    fn relink_before(&mut self, p: u32, handle: u32, next: Option<u32>)
        requires
            old(self).wf(),
            valid_handle(handle as int),
            old(self).occupied(handle as int),
            old(self).cap(handle as int).parent == Some(p),
            old(self).cap(p as int).first_child != Some(handle),
            next == old(self).cap(handle as int).next_sibling,
        ensures
            final(self).shape_ok(),
            final(self).table@ == unlink(old(self).table@, old(self).kids@, handle as int),
            final(self).first_free == old(self).first_free,
            final(self).next_unallocated == old(self).next_unallocated,
            final(self).kids == old(self).kids,
            final(self).stamp == old(self).stamp,
            final(self).clock == old(self).clock,
    {
        let ghost s0 = *self;
        let ghost t0 = self.table@;
        let ghost ks = self.kids@[p as int];
        let ghost idx = ks.index_of(handle);
        proof {
            assert(node_ok(t0, self.kids@, self.stamp@, self.clock@, handle as int));
            assert(ks.contains(handle));
            assert(node_ok(t0, self.kids@, self.stamp@, self.clock@, p as int));
            assert(idx != 0);
        }
        let mut prev = match self.table[p as usize] {
            Slot::Occupied(pc) => pc.first_child,
            Slot::Free { .. } => None,
        };
        let ghost mut j: int = 0;
        loop
            invariant_except_break
                0 <= j < idx,
                prev == Some(ks[j]),
                *self == s0,
            invariant
                s0.wf(),
                t0 == s0.table@,
                ks == s0.kids@[p as int],
                idx == ks.index_of(handle),
                0 < idx < ks.len(),
                ks[idx] == handle,
                ks.no_duplicates(),
                valid_handle(p as int),
                s0.occupied(p as int),
                forall|i: int| 0 <= i < ks.len() ==> #[trigger] child_ok(t0, s0.kids@, s0.stamp@, p as int, i),
                next == s0.cap(handle as int).next_sibling,
                s0.cap(handle as int).parent == Some(p),
            ensures
                self.shape_ok(),
                self.table@ == unlink(t0, s0.kids@, handle as int),
                self.first_free == s0.first_free,
                self.next_unallocated == s0.next_unallocated,
                self.kids == s0.kids,
                self.stamp == s0.stamp,
                self.clock == s0.clock,
            decreases idx - j,
        {
            let prev_idx = match prev {
                Some(i) => i,
                None => break,
            };
            proof {
                assert(child_ok(t0, s0.kids@, s0.stamp@, p as int, j));
                assert(child_ok(t0, s0.kids@, s0.stamp@, p as int, j + 1));
            }
            match self.table[prev_idx as usize] {
                Slot::Occupied(prev_cap) => {
                    let hit = match prev_cap.next_sibling {
                        Some(n) => n == handle,
                        None => false,
                    };
                    if hit {
                        proof {
                            assert(j + 1 == idx);
                        }
                        self.table.set(prev_idx as usize, Slot::Occupied(MemCap { next_sibling: next, ..prev_cap }));
                        break;
                    }
                    prev = prev_cap.next_sibling;
                    proof {
                        j = j + 1;
                    }
                },
                Slot::Free { .. } => break,
            }
        }
    }
}

/// `alloc_slot` took `before` to `after` and answered `res` (no slot is written): the head
/// of the free list when that slot is free, which then leaves the list; else the first
/// never-used slot; else none, and nothing changes.
pub open spec fn slot_picked(before: CapTableManager, after: CapTableManager, res: Option<u32>) -> bool {
    &&& after.spec_table() == before.spec_table()
    &&& match before.spec_first_free() {
        Some(f) if before.spec_table()[f as int] is Free => {
            &&& res == Some(f)
            &&& after.spec_first_free() == before.spec_table()[f as int]->next_free
            &&& after.spec_next_unallocated() == before.spec_next_unallocated()
        },
        _ => if before.spec_next_unallocated() < MAX_CAPS {
            &&& res == Some(before.spec_next_unallocated() as u32)
            &&& after.spec_first_free() == before.spec_first_free()
            &&& after.spec_next_unallocated() == before.spec_next_unallocated() + 1
        } else {
            &&& res is None
            &&& after == before
        },
    }
}

/// The capability that `derive` makes: `size` bytes at `offset` into the parent's range,
/// with `rights`, a child of `parent` put in front of its existing children.
pub open spec fn derived_cap(pc: MemCap, parent: u32, offset: u64, size: u64, rights: CapRights) -> MemCap {
    MemCap {
        base: (pc.base + offset) as u64,
        size,
        rights,
        parent: Some(parent),
        first_child: None,
        next_sibling: pc.first_child,
    }
}

/// Whether `derive(parent, offset, size, rights)` is allowed on `m`: the parent slot is
/// usable and occupied, the parent has the grant right and every requested right, and the
/// requested range lies within the parent's (`offset + size` not overflowing).
pub open spec fn derive_allowed(m: CapTableManager, parent: u32, offset: u64, size: u64, rights: CapRights) -> bool {
    &&& valid_handle(parent as int)
    &&& m.occupied(parent as int)
    &&& rights_contain(m.cap(parent as int).rights.0, 8)
    &&& rights_contain(m.cap(parent as int).rights.0, rights.0)
    &&& offset + size <= u64::MAX
    &&& offset + size <= m.cap(parent as int).size
}

/// Whether `alloc_slot` would find a slot: the head of the free list is free, or the table
/// has slots it never used.
pub open spec fn slot_available(m: CapTableManager) -> bool {
    match m.spec_first_free() {
        Some(f) if m.spec_table()[f as int] is Free => true,
        _ => m.spec_next_unallocated() < MAX_CAPS,
    }
}

/// Whether `check(handle, addr, len, _)` can compute the end of the capability's range: it
/// does so for an occupied slot once the requested range fits and starts at or after the
/// capability's base.
pub open spec fn check_fits(m: CapTableManager, handle: u32, addr: u64, len: u64) -> bool {
    (handle < MAX_CAPS && m.occupied(handle as int) && addr + len <= u64::MAX && addr >= m.cap(handle as int).base)
        ==> m.cap(handle as int).base + m.cap(handle as int).size <= u64::MAX
}

/// Whether `check(handle, addr, len, req)` grants access on `m`: the slot holds a
/// capability whose range covers `addr..addr + len` (which must not overflow) and whose
/// rights include `req`.
pub open spec fn access_ok(m: CapTableManager, handle: u32, addr: u64, len: u64, req: CapRights) -> bool {
    &&& handle < MAX_CAPS
    &&& m.occupied(handle as int)
    &&& addr + len <= u64::MAX
    &&& addr >= m.cap(handle as int).base
    &&& addr + len <= m.cap(handle as int).base + m.cap(handle as int).size
    &&& rights_contain(m.cap(handle as int).rights.0, req.0)
}

/// Creates a root capability for `size` bytes at `base` in a slot picked as `alloc_slot`
/// picks; `None` when the table is full.
pub fn mint(mgr: &mut CapTableManager, base: u64, size: u64, rights: CapRights) -> (res: Option<u32>)
    requires
        old(mgr).wf(),
    ensures
        final(mgr).wf(),
        res matches Some(i) ==> valid_handle(i as int) && !old(mgr).occupied(i as int),
        exists|mid: CapTableManager| {
            &&& #[trigger] slot_picked(*old(mgr), mid, res)
            &&& res is None ==> *final(mgr) == mid
            &&& res matches Some(i) ==> {
                &&& final(mgr).spec_table() == mid.spec_table().update(i as int, Slot::Occupied(MemCap {
                    base,
                    size,
                    rights,
                    parent: None,
                    first_child: None,
                    next_sibling: None,
                }))
                &&& final(mgr).spec_first_free() == mid.spec_first_free()
                &&& final(mgr).spec_next_unallocated() == mid.spec_next_unallocated()
            }
        },
{
    let slot = match mgr.alloc_slot() {
        Some(s) => s,
        None => return None,
    };
    let ghost t0 = mgr.table@;
    let cap = MemCap { base, size, rights, parent: None, first_child: None, next_sibling: None };
    mgr.table.set(slot as usize, Slot::Occupied(cap));
    proof {
        lemma_new_root_keeps_tree(t0, mgr.kids@, mgr.stamp@, mgr.clock@, slot as int, cap);
    }
    mgr.kids = Ghost(mgr.kids@.insert(slot as int, Seq::empty()));
    mgr.stamp = Ghost(mgr.stamp@.insert(slot as int, mgr.clock@));
    mgr.clock = Ghost(mgr.clock@ + 1);
    Some(slot)
}

/// Putting a new root capability (no parent, no child, no sibling) in a free slot keeps the
/// derivation tree, with the new capability stamped with the clock.
proof fn lemma_new_root_keeps_tree(t: Seq<Slot>, k: Map<int, Seq<u32>>, st: Map<int, nat>, clock: nat, slot: int, cap: MemCap)
    requires
        tree_ok(t, k, st, clock),
        valid_handle(slot),
        !(t[slot] is Occupied),
        cap.parent is None,
        cap.first_child is None,
        cap.next_sibling is None,
    ensures
        tree_ok(t.update(slot, Slot::Occupied(cap)), k.insert(slot, Seq::empty()), st.insert(slot, clock), clock + 1),
{
    let t1 = t.update(slot, Slot::Occupied(cap));
    let k1 = k.insert(slot, Seq::<u32>::empty());
    let st1 = st.insert(slot, clock);
    assert forall|i: int| 0 <= i < MAX_CAPS && #[trigger] t1[i] is Occupied implies node_ok(t1, k1, st1, clock + 1, i) by {
        if i != slot {
            assert(node_ok(t, k, st, clock, i));
            assert forall|j: int| 0 <= j < k1[i].len() implies #[trigger] child_ok(t1, k1, st1, i, j) by {
                assert(child_ok(t, k, st, i, j));
            }
        }
    }
}

/// Derives from capability `parent` a child capability for `size` bytes at `offset` into the
/// parent's range with `new_rights` (see `derive_allowed`); the child becomes the parent's
/// first child, ahead of the earlier ones. `None` when not allowed or the table is full.
pub fn derive(mgr: &mut CapTableManager, parent: u32, offset: u64, size: u64, new_rights: CapRights) -> (res: Option<u32>)
    requires
        old(mgr).wf(),
        derive_allowed(*old(mgr), parent, offset, size, new_rights) && slot_available(*old(mgr))
            ==> old(mgr).cap(parent as int).base + offset <= u64::MAX,
    ensures
        final(mgr).wf(),
        !derive_allowed(*old(mgr), parent, offset, size, new_rights) ==> res is None && *final(mgr) == *old(mgr),
        res matches Some(c) ==> valid_handle(c as int) && !old(mgr).occupied(c as int),
        derive_allowed(*old(mgr), parent, offset, size, new_rights) ==> exists|mid: CapTableManager| {
            &&& #[trigger] slot_picked(*old(mgr), mid, res)
            &&& res is None ==> *final(mgr) == mid
            &&& res matches Some(c) ==> {
                &&& c != parent
                &&& final(mgr).spec_table() == mid.spec_table().update(
                    parent as int,
                    Slot::Occupied(MemCap { first_child: Some(c), ..old(mgr).cap(parent as int) }),
                ).update(c as int, Slot::Occupied(derived_cap(old(mgr).cap(parent as int), parent, offset, size, new_rights)))
                &&& final(mgr).spec_first_free() == mid.spec_first_free()
                &&& final(mgr).spec_next_unallocated() == mid.spec_next_unallocated()
            }
        },
{
    if parent as usize >= MAX_CAPS || parent == 0 {
        return None;
    }
    let parent_cap = match mgr.table[parent as usize] {
        Slot::Occupied(cap) => cap,
        _ => return None,
    };
    if !parent_cap.rights.contains(CapRights::grant()) || !parent_cap.rights.contains(new_rights) {
        return None;
    }
    let end = match offset.checked_add(size) {
        Some(e) => e,
        None => return None,
    };
    if end > parent_cap.size {
        return None;
    }
    let ghost before = *mgr;
    let child_slot = match mgr.alloc_slot() {
        Some(s) => s,
        None => return None,
    };
    let ghost mid = *mgr;
    proof {
        assert(child_slot != parent) by {
            if child_slot == parent {
                assert(before.spec_table()[parent as int] is Occupied);
            }
        }
        assert(!(mid.spec_table()[child_slot as int] is Occupied));
    }
    let old_first_child = parent_cap.first_child;
    let ghost t0 = mgr.table@;
    mgr.table.set(parent as usize, Slot::Occupied(MemCap { first_child: Some(child_slot), ..parent_cap }));
    let child_cap = MemCap {
        base: parent_cap.base + offset,
        size,
        rights: new_rights,
        parent: Some(parent),
        first_child: None,
        next_sibling: old_first_child,
    };
    mgr.table.set(child_slot as usize, Slot::Occupied(child_cap));
    proof {
        lemma_new_child_keeps_tree(t0, mgr.kids@, mgr.stamp@, mgr.clock@, parent as int, child_slot, child_cap);
    }
    mgr.kids = Ghost(mgr.kids@.insert(parent as int, seq![child_slot] + mgr.kids@[parent as int]).insert(child_slot as int, Seq::empty()));
    mgr.stamp = Ghost(mgr.stamp@.insert(child_slot as int, mgr.clock@));
    mgr.clock = Ghost(mgr.clock@ + 1);
    Some(child_slot)
}

/// Putting a new childless capability in a free slot `c` as the first child of capability
/// `p` (linking to `p`'s former first child) keeps the derivation tree, with the new
/// capability stamped with the clock.
proof fn lemma_new_child_keeps_tree(t: Seq<Slot>, k: Map<int, Seq<u32>>, st: Map<int, nat>, clock: nat, p: int, c: u32, cap: MemCap)
    requires
        tree_ok(t, k, st, clock),
        valid_handle(p),
        t[p] is Occupied,
        valid_handle(c as int),
        !(t[c as int] is Occupied),
        cap.parent == Some(p as u32),
        cap.first_child is None,
        cap.next_sibling == t[p]->Occupied_0.first_child,
    ensures
        tree_ok(
            t.update(p, Slot::Occupied(MemCap { first_child: Some(c), ..t[p]->Occupied_0 })).update(c as int, Slot::Occupied(cap)),
            k.insert(p, seq![c] + k[p]).insert(c as int, Seq::empty()),
            st.insert(c as int, clock),
            clock + 1,
        ),
{
    let t1 = t.update(p, Slot::Occupied(MemCap { first_child: Some(c), ..t[p]->Occupied_0 })).update(c as int, Slot::Occupied(cap));
    let k1 = k.insert(p, seq![c] + k[p]).insert(c as int, Seq::<u32>::empty());
    let st1 = st.insert(c as int, clock);
    assert(node_ok(t, k, st, clock, p));
    assert(c as int != p);
    assert(!k[p].contains(c)) by {
        if k[p].contains(c) {
            let j = choose|j: int| 0 <= j < k[p].len() && k[p][j] == c;
            assert(child_ok(t, k, st, p, j));
        }
    }
    assert(k1[p] =~= seq![c] + k[p]);
    assert forall|i: int| 0 <= i < MAX_CAPS && #[trigger] t1[i] is Occupied implies node_ok(t1, k1, st1, clock + 1, i) by {
        if i == p {
            assert forall|j: int| 0 <= j < k1[i].len() implies #[trigger] child_ok(t1, k1, st1, i, j) by {
                if j > 0 {
                    assert(child_ok(t, k, st, p, j - 1));
                    assert(k1[p][j] == k[p][j - 1]);
                }
            }
            assert(k1[p].no_duplicates()) by {
                assert forall|a: int, b: int| 0 <= a < k1[p].len() && 0 <= b < k1[p].len() && a != b implies k1[p][a] != k1[p][b] by {
                    if a > 0 && b > 0 {
                        assert(k1[p][a] == k[p][a - 1]);
                        assert(k1[p][b] == k[p][b - 1]);
                    } else if a == 0 {
                        assert(k[p].contains(k1[p][b]) ==> k1[p][b] != c);
                        assert(k1[p][b] == k[p][b - 1]);
                    } else {
                        assert(k1[p][a] == k[p][a - 1]);
                    }
                }
            }
            if let Some(q) = t[p]->Occupied_0.parent {
                assert(k1[q as int].contains(p as u32)) by {
                    assert(q as int != c as int);
                    if q as int != p {
                        assert(k1[q as int] == k[q as int]);
                    } else {
                        let w = choose|w: int| 0 <= w < k[p].len() && k[p][w] == p as u32;
                        assert(k1[p][w + 1] == p as u32);
                    }
                }
            }
        } else if i != c as int {
            assert(node_ok(t, k, st, clock, i));
            assert forall|j: int| 0 <= j < k1[i].len() implies #[trigger] child_ok(t1, k1, st1, i, j) by {
                assert(child_ok(t, k, st, i, j));
            }
            if let Some(q) = t[i]->Occupied_0.parent {
                if q as int == p {
                    let w = choose|w: int| 0 <= w < k[p].len() && k[p][w] == i as u32;
                    assert(k1[p][w + 1] == i as u32);
                }
            }
        } else {
            assert(k1[p][0] == c);
        }
    }
}

/// The slots that `revoke(h)` frees, in the order it frees them: `h`'s subtree in the
/// derivation tree, in post-order.
pub open spec fn revoked_slots(m: CapTableManager, h: int) -> Seq<u32> {
    subtree(m.spec_kids(), m.spec_stamp(), m.spec_clock(), h)
}

/// The table of `m` once capability `h` leaves its parent's child chain (see `unlink`).
pub open spec fn unlinked(m: CapTableManager, h: int) -> Seq<Slot> {
    unlink(m.spec_table(), m.spec_kids(), h)
}

/// Revokes capability `handle` and every capability derived from it, directly or not:
/// `handle` leaves its parent's child chain, then its subtree is freed in post-order (see
/// `revoked_slots`), each slot pushed on the free list. Nothing happens for slot 0, a slot
/// past the table or a free slot.
pub fn revoke(mgr: &mut CapTableManager, handle: u32)
    requires
        old(mgr).wf(),
    ensures
        final(mgr).wf(),
        !(valid_handle(handle as int) && old(mgr).occupied(handle as int)) ==> *final(mgr) == *old(mgr),
        valid_handle(handle as int) && old(mgr).occupied(handle as int) ==> {
            &&& final(mgr).spec_table() == freed(unlinked(*old(mgr), handle as int), old(mgr).spec_first_free(), revoked_slots(*old(mgr), handle as int))
            &&& final(mgr).spec_first_free() == Some(handle)
            &&& final(mgr).spec_next_unallocated() == old(mgr).spec_next_unallocated()
            &&& final(mgr).spec_kids() == kids_without(old(mgr).spec_table(), old(mgr).spec_kids(), handle as int)
        },
{
    if handle as usize >= MAX_CAPS || handle == 0 {
        return;
    }
    let cap = match mgr.table[handle as usize] {
        Slot::Occupied(c) => c,
        Slot::Free { .. } => return,
    };
    let ghost s0 = *mgr;
    let ghost h = handle as int;
    let ghost t0 = s0.table@;
    let ghost k = s0.kids@;
    let ghost st = s0.stamp@;
    let ghost ck = s0.clock@;
    let ghost m = lemma_unlink_shape(t0, k, st, ck, h);
    proof {
        assert(node_ok(t0, k, st, ck, h));
        lemma_subtree_in_range(t0, k, st, ck, h);
    }
    if let Some(p_idx) = cap.parent {
        if let Slot::Occupied(parent_cap) = mgr.table[p_idx as usize] {
            let first_is_h = match parent_cap.first_child {
                Some(f) => f == handle,
                None => false,
            };
            if first_is_h {
                proof {
                    let ks = k[p_idx as int];
                    assert(node_ok(t0, k, st, ck, p_idx as int));
                    assert(ks.contains(handle));
                    assert(ks.index_of(handle) == 0);
                }
                mgr.table.set(p_idx as usize, Slot::Occupied(MemCap { first_child: cap.next_sibling, ..parent_cap }));
            } else {
                mgr.relink_before(p_idx, handle, cap.next_sibling);
            }
        }
    }
    proof {
        assert(mgr.table@ == unlink(t0, k, h));
        assert forall|x: u32| #[trigger] revoked_slots(s0, h).contains(x) implies mgr.table@[x as int] == t0[x as int] by {
            lemma_subtree_below(t0, k, st, ck, h, x);
        }
    }
    mgr.raw_revoke(handle, Ghost(s0));
    proof {
        lemma_revoke_keeps_tree(t0, k, st, ck, s0.first_free, h);
        lemma_subtree_has_root(k, st, ck, h);
    }
    mgr.kids = Ghost(kids_without(t0, k, h));
}

/// Revoking a capability frees exactly it and the capabilities derived from it, directly or
/// not: afterwards a slot holds a capability if and only if it held one before that does not
/// descend from the revoked one. The capabilities that remain keep their ranges and rights,
/// so each grants exactly what it granted before, and the revoked ones grant nothing.
pub proof fn law_revoke_frees_exactly_the_subtree(
    m0: CapTableManager,
    m1: CapTableManager,
    h: u32,
    x: u32,
    addr: u64,
    len: u64,
    req: CapRights,
)
    requires
        m0.wf(),
        valid_handle(h as int),
        m0.occupied(h as int),
        x < MAX_CAPS,
        m1.spec_table() == freed(unlinked(m0, h as int), m0.spec_first_free(), revoked_slots(m0, h as int)),
    ensures
        m1.occupied(x as int) <==> m0.occupied(x as int) && !descends(m0.spec_table(), x as int, h as int),
        m1.occupied(x as int) ==> {
            &&& m1.cap(x as int).base == m0.cap(x as int).base
            &&& m1.cap(x as int).size == m0.cap(x as int).size
            &&& m1.cap(x as int).rights == m0.cap(x as int).rights
        },
        descends(m0.spec_table(), x as int, h as int) ==> !access_ok(m1, x, addr, len, req),
        !descends(m0.spec_table(), x as int, h as int) ==> access_ok(m1, x, addr, len, req) == access_ok(m0, x, addr, len, req),
{
    let t0 = m0.spec_table();
    let k = m0.spec_kids();
    let st = m0.spec_stamp();
    let ck = m0.spec_clock();
    let sub = revoked_slots(m0, h as int);
    let tu = unlinked(m0, h as int);
    let xi = x as int;
    lemma_subtree_in_range(t0, k, st, ck, h as int);
    let m = lemma_unlink_shape(t0, k, st, ck, h as int);
    if sub.contains(x) {
        let n = lemma_subtree_below(t0, k, st, ck, h as int, x);
        assert(descends(t0, xi, h as int));
        lemma_freed_in(tu, m0.spec_first_free(), sub, xi);
    } else {
        lemma_freed_other(tu, m0.spec_first_free(), sub, xi);
        if descends(t0, xi, h as int) {
            let n = choose|n: nat| #[trigger] ancestor(t0, xi, n) == Some(h as int);
            if t0[xi] is Occupied {
                lemma_descendant_in_subtree(t0, k, st, ck, xi, n, h as int);
            } else {
                if n > 0 {
                    lemma_ancestor_split(t0, xi, 1, (n - 1) as nat);
                    lemma_ancestor_one(t0, xi);
                }
                lemma_subtree_has_root(k, st, ck, h as int);
            }
        }
    }
}

/// Whether capability `handle` grants `req` on `addr..addr + len` (see `access_ok`).
pub fn check(mgr: &CapTableManager, handle: u32, addr: u64, len: u64, req: CapRights) -> (ok: bool)
    requires
        mgr.wf(),
        check_fits(*mgr, handle, addr, len),
    ensures
        ok == access_ok(*mgr, handle, addr, len, req),
{
    if handle as usize >= MAX_CAPS {
        return false;
    }
    if let Slot::Occupied(cap) = mgr.table[handle as usize] {
        if let Some(requested_end) = addr.checked_add(len) {
            return addr >= cap.base && requested_end <= (cap.base + cap.size) && cap.rights.contains(req);
        }
    }
    false
}

/// The subset relation on rights is transitive.
proof fn lemma_rights_trans(a: u8, b: u8, c: u8)
    requires
        rights_contain(a, b),
        rights_contain(b, c),
    ensures
        rights_contain(a, c),
{
    assert(a & b == b && b & c == c ==> a & c == c) by (bit_vector);
}

/// A capability made by `mint` grants its rights over its whole range.
pub proof fn law_mint_grants(m0: CapTableManager, m1: CapTableManager, base: u64, size: u64, rights: CapRights, slot: u32)
    requires
        base + size <= u64::MAX,
        exists|mid: CapTableManager| {
            &&& #[trigger] slot_picked(m0, mid, Some(slot))
            &&& m1.spec_table() == mid.spec_table().update(slot as int, Slot::Occupied(MemCap {
                base,
                size,
                rights,
                parent: None,
                first_child: None,
                next_sibling: None,
            }))
        },
        m0.wf(),
    ensures
        access_ok(m1, slot, base, size, rights),
{
    let mid = choose|mid: CapTableManager| {
        &&& #[trigger] slot_picked(m0, mid, Some(slot))
        &&& m1.spec_table() == mid.spec_table().update(slot as int, Slot::Occupied(MemCap {
            base,
            size,
            rights,
            parent: None,
            first_child: None,
            next_sibling: None,
        }))
    };
    assert(rights.0 & rights.0 == rights.0) by (bit_vector);
    assert(slot < MAX_CAPS);
}

/// Derivation only narrows: a derived capability's range lies within its parent's and its
/// rights are among the parent's, so every access the child grants, the parent grants too.
/// The child descends from the parent, so revoking the parent revokes the child.
pub proof fn law_derive_narrows(
    m0: CapTableManager,
    m1: CapTableManager,
    parent: u32,
    offset: u64,
    size: u64,
    rights: CapRights,
    child: u32,
    addr: u64,
    len: u64,
    req: CapRights,
)
    requires
        m0.wf(),
        derive_allowed(m0, parent, offset, size, rights),
        m0.cap(parent as int).base + offset <= u64::MAX,
        exists|mid: CapTableManager| {
            &&& #[trigger] slot_picked(m0, mid, Some(child))
            &&& child != parent
            &&& m1.spec_table() == mid.spec_table().update(
                parent as int,
                Slot::Occupied(MemCap { first_child: Some(child), ..m0.cap(parent as int) }),
            ).update(child as int, Slot::Occupied(derived_cap(m0.cap(parent as int), parent, offset, size, rights)))
        },
    ensures
        m1.cap(child as int).base >= m1.cap(parent as int).base,
        m1.cap(child as int).base + m1.cap(child as int).size <= m1.cap(parent as int).base + m1.cap(parent as int).size,
        rights_contain(m1.cap(parent as int).rights.0, m1.cap(child as int).rights.0),
        access_ok(m1, child, addr, len, req) ==> access_ok(m1, parent, addr, len, req),
        descends(m1.spec_table(), child as int, parent as int),
{
    lemma_ancestor_one(m1.spec_table(), child as int);
    let mid = choose|mid: CapTableManager| {
        &&& #[trigger] slot_picked(m0, mid, Some(child))
        &&& child != parent
        &&& m1.spec_table() == mid.spec_table().update(
            parent as int,
            Slot::Occupied(MemCap { first_child: Some(child), ..m0.cap(parent as int) }),
        ).update(child as int, Slot::Occupied(derived_cap(m0.cap(parent as int), parent, offset, size, rights)))
    };
    if access_ok(m1, child, addr, len, req) {
        lemma_rights_trans(m1.cap(parent as int).rights.0, rights.0, req.0);
    }
}

} // verus!
