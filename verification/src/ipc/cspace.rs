use vstd::prelude::*;

verus! {

/// The number of slots of the capability space; slot 0 is never used.
pub const CSPACE_SIZE: usize = 65536;

#[derive(Clone, Copy, PartialEq, Eq, Debug, Structural)]
pub enum CapKind {
    Null,
    Endpoint,
    Memory,
    Irq,
    Thread,
    Notification,
}

#[derive(Clone, Copy, Debug)]
pub struct Capability {
    pub kind: CapKind,
    pub object: u64,
    pub badge: u32,
    pub rights: u8,
}

/// A slot of the capability space: free (and then a link of the free list) or holding a capability.
#[derive(Clone, Copy, Debug)]
pub enum Slot {
    Free { next_free: Option<u32> },
    Occupied(Capability),
}

impl Default for Slot {
    fn default() -> (s: Self)
        ensures
            s == (Slot::Free { next_free: None }),
    {
        Slot::Free { next_free: None }
    }
}

/// Whether `i` names a usable slot: inside the table and not slot 0.
pub open spec fn valid_index(i: int) -> bool {
    1 <= i < CSPACE_SIZE
}

/// The capability space: its slots, the head of the list of freed slots, and the first
/// slot that was never handed out.
pub struct CSpaceManager {
    slots: Vec<Slot>,
    first_free: Option<u32>,
    next_unallocated: usize,
}

impl CSpaceManager {
    pub closed spec fn spec_slots(&self) -> Seq<Slot> {
        self.slots@
    }

    pub closed spec fn spec_first_free(&self) -> Option<u32> {
        self.first_free
    }

    pub closed spec fn spec_next_unallocated(&self) -> nat {
        self.next_unallocated as nat
    }

    /// The table's shape: its size, and every link (the head and each free slot's next)
    /// names a usable slot.
    pub closed spec fn wf(&self) -> bool {
        &&& self.slots@.len() == CSPACE_SIZE
        &&& 1 <= self.next_unallocated <= CSPACE_SIZE
        &&& (self.first_free matches Some(f) ==> valid_index(f as int))
        &&& forall|i: int|
            0 <= i < CSPACE_SIZE ==> (#[trigger] self.slots@[i] matches Slot::Free {
                next_free: Some(n),
            } ==> valid_index(n as int))
    }

    /// Whether slot `i` holds a capability.
    pub open spec fn occupied(&self, i: int) -> bool {
        self.spec_slots()[i] is Occupied
    }

    /// What `lookup` gives back for `cptr`.
    pub open spec fn spec_lookup(&self, cptr: u32) -> Option<Capability> {
        if valid_index(cptr as int) && self.occupied(cptr as int) {
            Some(self.spec_slots()[cptr as int]->Occupied_0)
        } else {
            None
        }
    }

    /// Every slot at or past the never-used mark is free, and the free list only links
    /// slots below that mark.
    pub open spec fn tail_untouched(&self) -> bool {
        &&& forall|i: int|
            self.spec_next_unallocated() <= i < CSPACE_SIZE ==> !#[trigger] self.occupied(i)
        &&& (self.spec_first_free() matches Some(f) ==> f < self.spec_next_unallocated())
        &&& forall|i: int|
            0 <= i < self.spec_next_unallocated() ==> (#[trigger] self.spec_slots()[i] matches Slot::Free {
                next_free: Some(n),
            } ==> n < self.spec_next_unallocated())
    }

    /// An empty capability space.
    pub fn new() -> (cs: Self)
        ensures
            cs.wf(),
            cs.spec_first_free() is None,
            cs.spec_next_unallocated() == 1,
            forall|i: int|
                0 <= i < CSPACE_SIZE ==> #[trigger] cs.spec_slots()[i] == (Slot::Free {
                    next_free: None,
                }),
    {
        let mut slots: Vec<Slot> = Vec::new();
        let mut k: usize = 0;
        while k < CSPACE_SIZE
            invariant
                k <= CSPACE_SIZE,
                slots@.len() == k,
                forall|i: int| 0 <= i < k ==> #[trigger] slots@[i] == (Slot::Free { next_free: None }),
            decreases CSPACE_SIZE - k,
        {
            slots.push(Slot::Free { next_free: None });
            k = k + 1;
        }
        CSpaceManager { slots, first_free: None, next_unallocated: 1 }
    }
}

/// `install(slot, cap)` took `before` to `after` and answered `ok`: it succeeds exactly on a
/// usable, free slot and a capability that is not null, and then fills that slot; the free
/// list and the never-used mark are not touched.
pub open spec fn installed(
    before: CSpaceManager,
    after: CSpaceManager,
    slot: u32,
    cap: Capability,
    ok: bool,
) -> bool {
    &&& ok == (valid_index(slot as int) && cap.kind != CapKind::Null && !before.occupied(
        slot as int,
    ))
    &&& ok ==> after.spec_slots() == before.spec_slots().update(slot as int, Slot::Occupied(cap))
    &&& !ok ==> after.spec_slots() == before.spec_slots()
    &&& after.spec_first_free() == before.spec_first_free()
    &&& after.spec_next_unallocated() == before.spec_next_unallocated()
}

/// `alloc_cap(cap)` took `before` to `after` and answered `res`: a null capability is refused;
/// otherwise the head of the free list is taken if there is one (refused when that slot is
/// not free), else the first never-used slot (refused when none is left); the chosen slot
/// then holds `cap`. A refusal changes nothing.
pub open spec fn allocated(
    before: CSpaceManager,
    after: CSpaceManager,
    cap: Capability,
    res: Option<u32>,
) -> bool {
    &&& cap.kind == CapKind::Null ==> res is None
    &&& cap.kind != CapKind::Null ==> match before.spec_first_free() {
        Some(f) => match before.spec_slots()[f as int] {
            Slot::Free { next_free } => {
                &&& res == Some(f)
                &&& after.spec_first_free() == next_free
                &&& after.spec_next_unallocated() == before.spec_next_unallocated()
            },
            Slot::Occupied(_) => res is None,
        },
        None => if before.spec_next_unallocated() < CSPACE_SIZE {
            &&& res == Some(before.spec_next_unallocated() as u32)
            &&& after.spec_first_free() is None
            &&& after.spec_next_unallocated() == before.spec_next_unallocated() + 1
        } else {
            res is None
        },
    }
    &&& res matches Some(i) ==> after.spec_slots() == before.spec_slots().update(
        i as int,
        Slot::Occupied(cap),
    )
    &&& res is None ==> after == before
}

/// `delete(cptr)` took `before` to `after`: a usable, occupied slot is freed and becomes the
/// head of the free list; any other `cptr` changes nothing.
pub open spec fn deleted(before: CSpaceManager, after: CSpaceManager, cptr: u32) -> bool {
    &&& after.spec_next_unallocated() == before.spec_next_unallocated()
    &&& (valid_index(cptr as int) && before.occupied(cptr as int)) ==> {
        &&& after.spec_slots() == before.spec_slots().update(
            cptr as int,
            Slot::Free { next_free: before.spec_first_free() },
        )
        &&& after.spec_first_free() == Some(cptr)
    }
    &&& !(valid_index(cptr as int) && before.occupied(cptr as int)) ==> after == before
}

/// Sets up the capability space; there is nothing to do beyond `CSpaceManager::new`.
pub fn init() {
}

/// Puts `cap` into the free slot `slot` (see `installed`).
pub fn install(cs: &mut CSpaceManager, slot: u32, cap: Capability) -> (ok: bool)
    requires
        old(cs).wf(),
    ensures
        final(cs).wf(),
        installed(*old(cs), *final(cs), slot, cap, ok),
{
    if slot as usize >= CSPACE_SIZE || slot == 0 {
        return false;
    }
    if cap.kind == CapKind::Null {
        return false;
    }
    let s = cs.slots[slot as usize];
    match s {
        Slot::Free { .. } => {
            cs.slots.set(slot as usize, Slot::Occupied(cap));
            true
        },
        Slot::Occupied(_) => false,
    }
}

/// Puts `cap` into a slot chosen by the manager and returns that slot (see `allocated`).
pub fn alloc_cap(cs: &mut CSpaceManager, cap: Capability) -> (res: Option<u32>)
    requires
        old(cs).wf(),
    ensures
        final(cs).wf(),
        allocated(*old(cs), *final(cs), cap, res),
{
    if cap.kind == CapKind::Null {
        return None;
    }
    let slot_idx: u32;
    match cs.first_free {
        Some(free_idx) => {
            match cs.slots[free_idx as usize] {
                Slot::Free { next_free } => {
                    cs.first_free = next_free;
                    slot_idx = free_idx;
                },
                Slot::Occupied(_) => {
                    return None;
                },
            }
        },
        None => {
            if cs.next_unallocated < CSPACE_SIZE {
                slot_idx = cs.next_unallocated as u32;
                cs.next_unallocated = cs.next_unallocated + 1;
            } else {
                return None;
            }
        },
    }
    cs.slots.set(slot_idx as usize, Slot::Occupied(cap));
    Some(slot_idx)
}

/// The capability in slot `cptr`, if that slot is usable and occupied.
pub fn lookup(cs: &CSpaceManager, cptr: u32) -> (res: Option<Capability>)
    requires
        cs.wf(),
    ensures
        res == cs.spec_lookup(cptr),
{
    if cptr as usize >= CSPACE_SIZE || cptr == 0 {
        return None;
    }
    match cs.slots[cptr as usize] {
        Slot::Occupied(cap) => Some(cap),
        Slot::Free { .. } => None,
    }
}

/// Frees slot `cptr` if it is usable and occupied (see `deleted`).
pub fn delete(cs: &mut CSpaceManager, cptr: u32)
    requires
        old(cs).wf(),
    ensures
        final(cs).wf(),
        deleted(*old(cs), *final(cs), cptr),
{
    if cptr as usize >= CSPACE_SIZE || cptr == 0 {
        return;
    }
    if let Slot::Occupied(_) = cs.slots[cptr as usize] {
        let head = cs.first_free;
        cs.slots.set(cptr as usize, Slot::Free { next_free: head });
        cs.first_free = Some(cptr);
    }
}

/// A successful `install` makes `lookup` of that slot give back the installed capability,
/// and leaves what every other slot looks up to unchanged.
pub proof fn law_lookup_after_install(
    before: CSpaceManager,
    after: CSpaceManager,
    slot: u32,
    cap: Capability,
    other: u32,
)
    requires
        before.wf(),
        installed(before, after, slot, cap, true),
    ensures
        after.spec_lookup(slot) == Some(cap),
        other != slot ==> after.spec_lookup(other) == before.spec_lookup(other),
{
}

/// The slot that `alloc_cap` hands out is usable, and `lookup` of it gives back the
/// capability; every other slot looks up as before.
pub proof fn law_lookup_after_alloc(
    before: CSpaceManager,
    after: CSpaceManager,
    cap: Capability,
    slot: u32,
    other: u32,
)
    requires
        before.wf(),
        after.wf(),
        allocated(before, after, cap, Some(slot)),
    ensures
        valid_index(slot as int),
        after.spec_lookup(slot) == Some(cap),
        other != slot ==> after.spec_lookup(other) == before.spec_lookup(other),
{
}

/// After `delete`, the slot looks up to nothing; every other slot looks up as before.
pub proof fn law_lookup_after_delete(
    before: CSpaceManager,
    after: CSpaceManager,
    cptr: u32,
    other: u32,
)
    requires
        before.wf(),
        deleted(before, after, cptr),
    ensures
        after.spec_lookup(cptr) is None,
        other != cptr ==> after.spec_lookup(other) == before.spec_lookup(other),
{
}

/// Freed slots are reused last-in, first-out: after deleting an occupied slot, the next
/// allocation of a non-null capability gets that very slot, and the free list is back to
/// what it was before the delete.
pub proof fn law_delete_then_alloc_reuses_slot(
    s0: CSpaceManager,
    s1: CSpaceManager,
    s2: CSpaceManager,
    cptr: u32,
    cap: Capability,
    res: Option<u32>,
)
    requires
        s0.wf(),
        valid_index(cptr as int),
        s0.occupied(cptr as int),
        deleted(s0, s1, cptr),
        cap.kind != CapKind::Null,
        allocated(s1, s2, cap, res),
    ensures
        res == Some(cptr),
        s2.spec_first_free() == s0.spec_first_free(),
        s2.spec_next_unallocated() == s0.spec_next_unallocated(),
        s2.spec_lookup(cptr) == Some(cap),
{
}

/// On a table whose slots at or past the never-used mark are all free, `alloc_cap` only
/// ever hands out a slot that was free, and the table keeps that property.
pub proof fn law_alloc_takes_a_free_slot(
    before: CSpaceManager,
    after: CSpaceManager,
    cap: Capability,
    slot: u32,
)
    requires
        before.wf(),
        before.tail_untouched(),
        allocated(before, after, cap, Some(slot)),
    ensures
        !before.occupied(slot as int),
        after.tail_untouched(),
{
    assert(slot < after.spec_next_unallocated());
    assert forall|i: int|
        after.spec_next_unallocated() <= i < CSPACE_SIZE implies !#[trigger] after.occupied(i) by {
        assert(after.spec_slots()[i] == before.spec_slots()[i]);
        assert(!before.occupied(i));
    }
    assert forall|i: int|
        0 <= i < after.spec_next_unallocated() implies (#[trigger] after.spec_slots()[i] matches Slot::Free {
            next_free: Some(n),
        } ==> n < after.spec_next_unallocated()) by {
        if i != slot {
            assert(after.spec_slots()[i] == before.spec_slots()[i]);
            if i >= before.spec_next_unallocated() {
                assert(!before.occupied(i));
            }
        }
    }
}

/// `delete` keeps the slots at or past the never-used mark free.
pub proof fn law_delete_keeps_tail_untouched(before: CSpaceManager, after: CSpaceManager, cptr: u32)
    requires
        before.wf(),
        before.tail_untouched(),
        deleted(before, after, cptr),
    ensures
        after.tail_untouched(),
{
    if valid_index(cptr as int) && before.occupied(cptr as int) {
        assert(cptr < before.spec_next_unallocated());
        assert forall|i: int|
            after.spec_next_unallocated() <= i < CSPACE_SIZE implies !#[trigger] after.occupied(i) by {
            assert(after.spec_slots()[i] == before.spec_slots()[i]);
            assert(!before.occupied(i));
        }
        assert forall|i: int|
            0 <= i < after.spec_next_unallocated() implies (#[trigger] after.spec_slots()[i] matches Slot::Free {
                next_free: Some(n),
            } ==> n < after.spec_next_unallocated()) by {
            if i != cptr {
                assert(after.spec_slots()[i] == before.spec_slots()[i]);
            }
        }
    }
}

/// A fresh capability space holds nothing, and its never-used tail is free.
pub proof fn law_new_is_empty(cs: CSpaceManager, cptr: u32)
    requires
        cs.spec_first_free() is None,
        cs.spec_next_unallocated() == 1,
        forall|i: int| 0 <= i < CSPACE_SIZE ==> #[trigger] cs.spec_slots()[i] == (Slot::Free { next_free: None }),
    ensures
        cs.spec_lookup(cptr) is None,
        cs.tail_untouched(),
{
    if valid_index(cptr as int) {
        assert(cs.spec_slots()[cptr as int] == (Slot::Free { next_free: None }));
    }
    assert forall|i: int|
        cs.spec_next_unallocated() <= i < CSPACE_SIZE implies !#[trigger] cs.occupied(i) by {
        assert(cs.spec_slots()[i] == (Slot::Free { next_free: None }));
    }
    assert forall|i: int|
        0 <= i < cs.spec_next_unallocated() implies (#[trigger] cs.spec_slots()[i] matches Slot::Free {
            next_free: Some(n),
        } ==> n < cs.spec_next_unallocated()) by {
        assert(cs.spec_slots()[i] == (Slot::Free { next_free: None }));
    }
}

/// One call on a capability space, with its outcome.
#[derive(Clone, Copy, Debug)]
pub enum CSpaceCall {
    Install { slot: u32, cap: Capability, ok: bool },
    Alloc { cap: Capability, res: Option<u32> },
    Delete { cptr: u32 },
}

/// `call` took `before` to `after`, as its function's contract says.
pub open spec fn cspace_step(before: CSpaceManager, after: CSpaceManager, call: CSpaceCall) -> bool {
    &&& after.wf()
    &&& match call {
        CSpaceCall::Install { slot, cap, ok } => installed(before, after, slot, cap, ok),
        CSpaceCall::Alloc { cap, res } => allocated(before, after, cap, res),
        CSpaceCall::Delete { cptr } => deleted(before, after, cptr),
    }
}

/// What `cptr` holds after `calls` on a fresh space: the capability of the last successful
/// install into it or allocation that handed it out, unless a delete of it came later;
/// nothing when no such call was made.
pub open spec fn history_lookup(calls: Seq<CSpaceCall>, cptr: u32) -> Option<Capability>
    decreases calls.len(),
{
    if calls.len() == 0 {
        None
    } else {
        match calls.last() {
            CSpaceCall::Install { slot, cap, ok } if ok && slot == cptr => Some(cap),
            CSpaceCall::Alloc { cap, res } if res == Some(cptr) => Some(cap),
            CSpaceCall::Delete { cptr: c } if c == cptr => None,
            _ => history_lookup(calls.drop_last(), cptr),
        }
    }
}

/// What a slot looks up to depends only on the calls made: after any sequence of installs,
/// allocations and deletes on a fresh space, `lookup(cptr)` gives the capability of the last
/// successful install into `cptr` or allocation that handed out `cptr`, unless `cptr` was
/// deleted after it, and nothing otherwise (so slot 0 and slots never used give nothing).
pub proof fn law_lookup_follows_history(states: Seq<CSpaceManager>, calls: Seq<CSpaceCall>, cptr: u32)
    requires
        states.len() == calls.len() + 1,
        states[0].wf(),
        states[0].spec_first_free() is None,
        states[0].spec_next_unallocated() == 1,
        forall|i: int| 0 <= i < CSPACE_SIZE ==> #[trigger] states[0].spec_slots()[i] == (Slot::Free { next_free: None }),
        forall|k: int| 0 <= k < calls.len() ==> #[trigger] cspace_step(states[k], states[k + 1], calls[k]),
    ensures
        states.last().spec_lookup(cptr) == history_lookup(calls, cptr),
    decreases calls.len(),
{
    if calls.len() == 0 {
        law_new_is_empty(states[0], cptr);
    } else {
        let n = calls.len() - 1;
        let ps = states.drop_last();
        let pc = calls.drop_last();
        assert forall|k: int| 0 <= k < pc.len() implies #[trigger] cspace_step(ps[k], ps[k + 1], pc[k]) by {
            assert(cspace_step(states[k], states[k + 1], calls[k]));
        }
        law_lookup_follows_history(ps, pc, cptr);
        let b = states[n];
        let a = states[n + 1];
        assert(cspace_step(b, a, calls[n]));
        assert(b.wf()) by {
            if n == 0 {
            } else {
                let k = n - 1;
                assert(cspace_step(states[k], states[k + 1], calls[k]));
            }
        }
        match calls[n] {
            CSpaceCall::Install { slot, cap, ok } => {
                if ok {
                    law_lookup_after_install(b, a, slot, cap, cptr);
                }
            },
            CSpaceCall::Alloc { cap, res } => {
                if let Some(s) = res {
                    law_lookup_after_alloc(b, a, cap, s, cptr);
                }
            },
            CSpaceCall::Delete { cptr: c } => {
                law_lookup_after_delete(b, a, c, cptr);
            },
        }
    }
}

} // verus!
