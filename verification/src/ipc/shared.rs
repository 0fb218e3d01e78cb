use vstd::prelude::*;
use vstd::arithmetic::power2::pow2;
use crate::mem::caps::{check_fits, CapTableManager, CapRights, access_ok, check};

verus! {

#[derive(Clone, Copy, Debug, PartialEq, Eq, Structural)]
pub enum RingError {
    QueueFull,
    QueueEmpty,
}

/// Whether `c` is a power of two.
pub open spec fn is_pow2(c: u64) -> bool {
    exists|e: nat| e < 64 && c == pow2(e)
}

/// Decides whether `c` is a power of two.
pub fn is_power_of_two(c: u64) -> (r: bool)
    ensures
        r == is_pow2(c),
{
    let mut p: u64 = 1;
    let mut e: u32 = 0;
    proof {
        vstd::arithmetic::power2::lemma2_to64();
    }
    while e < 64
        invariant
            e <= 64,
            e < 64 ==> p == pow2(e as nat),
            forall|k: nat| k < e ==> pow2(k) != c,
        decreases 64 - e,
    {
        if p == c {
            return true;
        }
        proof {
            if e + 1 < 64 {
                vstd::arithmetic::power2::lemma_pow2_unfold((e + 1) as nat);
                vstd::bits::lemma_u64_pow2_no_overflow((e + 1) as nat);
            }
        }
        if e < 63 {
            p = p * 2;
        }
        e = e + 1;
    }
    false
}

/// The byte offset of the slot that counter value `k` uses.
pub open spec fn slot_offset(k: int, capacity: int, slot_size: int) -> int {
    (k % capacity) * slot_size
}

proof fn lemma_mask_is_mod(h: u64, c: u64)
    requires
        is_pow2(c),
    ensures
        c > 0,
        h & ((c - 1) as u64) == h % c,
{
    let e = choose|e: nat| e < 64 && c == pow2(e);
    vstd::bits::lemma_u64_low_bits_mask_is_mod(h, e);
    vstd::arithmetic::power2::lemma_pow2_pos(e);
}

/// Slots of different indices below the capacity do not overlap.
proof fn lemma_slots_apart(a: int, b: int, s: int)
    requires
        0 <= a < b,
        0 <= s,
    ensures
        a * s + s <= b * s,
{
    assert(a * s + s <= b * s) by (nonlinear_arith) requires a < b, s >= 0;
}

/// A single-producer, single-consumer ring of fixed-size messages set up at physical
/// address `base`: `head` counts the messages ever written, `tail` those ever read, and
/// message `k` lives in slot `k mod capacity` of `data`.
pub struct SharedRing {
    pub base: u64,
    pub head: u64,
    pub tail: u64,
    pub capacity: u64,
    pub slot_size: u32,
    pub data: Vec<u8>,
}

impl SharedRing {
    /// The capacity is a power of two, the data area holds exactly `capacity` slots, and
    /// between zero and `capacity` messages are waiting.
    pub closed spec fn wf(&self) -> bool {
        &&& is_pow2(self.capacity)
        &&& self.data@.len() == self.capacity * self.slot_size
        &&& self.tail <= self.head
        &&& self.head - self.tail <= self.capacity
    }

    /// The message that counter value `k` names.
    pub closed spec fn message(&self, k: int) -> Seq<u8> {
        let o = slot_offset(k, self.capacity as int, self.slot_size as int);
        self.data@.subrange(o, o + self.slot_size)
    }

    /// The waiting messages, oldest first.
    pub closed spec fn view(&self) -> Seq<Seq<u8>> {
        Seq::new((self.head - self.tail) as nat, |i: int| self.message(self.tail + i))
    }

    pub proof fn lemma_slot_in_bounds(&self, k: int)
        requires
            self.wf(),
            0 <= k,
        ensures
            0 <= slot_offset(k, self.capacity as int, self.slot_size as int),
            slot_offset(k, self.capacity as int, self.slot_size as int) + self.slot_size <= self.data@.len(),
    {
        let c = self.capacity as int;
        let s = self.slot_size as int;
        lemma_mask_is_mod(0, self.capacity);
        let a = k % c;
        vstd::arithmetic::div_mod::lemma_mod_pos_bound(k, c);
        assert(0 <= a < c);
        lemma_slots_apart(a, c, s);
        assert(0 <= a * s) by (nonlinear_arith) requires a >= 0, s >= 0;
    }

    /// An empty ring at `base` of `capacity` slots of `slot_size` bytes, its data area zeroed.
    pub fn new(base: u64, capacity: u64, slot_size: u32) -> (r: Self)
        requires
            is_pow2(capacity),
            capacity * slot_size <= usize::MAX,
        ensures
            r.wf(),
            r@ == Seq::<Seq<u8>>::empty(),
            r.capacity == capacity && r.slot_size == slot_size,
            r.head == 0 && r.tail == 0,
            r.base == base,
    {
        let n: usize = (capacity * slot_size as u64) as usize;
        let mut data: Vec<u8> = Vec::new();
        let mut k: usize = 0;
        while k < n
            invariant
                k <= n,
                data@.len() == k,
            decreases n - k,
        {
            data.push(0);
            k = k + 1;
        }
        let r = SharedRing { base, head: 0, tail: 0, capacity, slot_size, data };
        assert(r@ =~= Seq::<Seq<u8>>::empty());
        r
    }

    /// Writes the first `slot_size` bytes of `src` as a new message; refused when
    /// `capacity` messages are waiting.
    pub fn enqueue(&mut self, src: &[u8]) -> (res: Result<(), RingError>)
        requires
            old(self).wf(),
            src@.len() >= old(self).slot_size,
            old(self).head < u64::MAX,
        ensures
            final(self).wf(),
            final(self).capacity == old(self).capacity && final(self).slot_size == old(self).slot_size,
            old(self)@.len() >= old(self).capacity ==> res == Err::<(), RingError>(RingError::QueueFull) && final(self)@ == old(self)@
                && final(self).head == old(self).head && final(self).tail == old(self).tail,
            old(self)@.len() < old(self).capacity ==> res == Ok::<(), RingError>(())
                && final(self)@ == old(self)@.push(src@.subrange(0, old(self).slot_size as int))
                && final(self).head == old(self).head + 1 && final(self).tail == old(self).tail,
            ring_step(old(self)@, final(self)@, (true, src@.subrange(0, old(self).slot_size as int), res is Ok), old(self).capacity as nat),
    {
        let h = self.head;
        let t = self.tail;
        if h - t >= self.capacity {
            return Err(RingError::QueueFull);
        }
        let ghost old_data = self.data@;
        let ghost before = *self;
        let ghost c = self.capacity as int;
        let ghost s = self.slot_size as int;
        let _len = self.data.len();
        proof {
            lemma_mask_is_mod(h, self.capacity);
            self.lemma_slot_in_bounds(h as int);
        }
        let offset = ((h & (self.capacity - 1)) * self.slot_size as u64) as usize;
        let n = self.slot_size as usize;
        let mut j: usize = 0;
        while j < n
            invariant
                j <= n,
                n == s,
                offset == slot_offset(h as int, c, s),
                offset + n <= old_data.len(),
                offset + n <= usize::MAX,
                self.head == before.head && self.tail == before.tail,
                self.capacity == before.capacity && self.slot_size == before.slot_size,
                self.data@.len() == old_data.len(),
                src@.len() >= n,
                forall|x: int| 0 <= x < old_data.len() ==> #[trigger] self.data@[x] == (if offset <= x < offset + j { src@[x - offset] } else { old_data[x] }),
            decreases n - j,
        {
            self.data.set(offset + j, src[j]);
            j = j + 1;
        }
        self.head = h + 1;
        proof {
            assert(self.wf());
            let target = before@.push(src@.subrange(0, s));
            let hh = h as int;
            assert forall|i: int| 0 <= i < self@.len() implies #[trigger] self@[i] == target[i] by {
                let k = t + i;
                let o = slot_offset(k, c, s);
                self.lemma_slot_in_bounds(k);
                if i < before@.len() {
                    assert(k % c != hh % c) by {
                        vstd::arithmetic::div_mod::lemma_fundamental_div_mod(k, c);
                        vstd::arithmetic::div_mod::lemma_fundamental_div_mod(hh, c);
                        if k % c == hh % c {
                            assert((hh - k) == c * (hh / c - k / c)) by (nonlinear_arith)
                                requires hh == c * (hh / c) + hh % c, k == c * (k / c) + k % c, k % c == hh % c;
                            assert(0 < hh - k < c);
                            assert(false) by (nonlinear_arith)
                                requires 0 < hh - k < c, hh - k == c * (hh / c - k / c), c > 0;
                        }
                    }
                    if k % c < hh % c {
                        lemma_slots_apart(k % c, hh % c, s);
                    } else {
                        lemma_slots_apart(hh % c, k % c, s);
                    }
                    assert(self.message(k) =~= before.message(k));
                } else {
                    assert(self.message(k) =~= src@.subrange(0, s));
                }
            }
            assert(self@ =~= target);
        }
        Ok(())
    }

    /// Reads the oldest message into the first `slot_size` bytes of `dest`; refused when no
    /// message is waiting.
    pub fn dequeue(&mut self, dest: &mut Vec<u8>) -> (res: Result<(), RingError>)
        requires
            old(self).wf(),
            old(dest)@.len() >= old(self).slot_size,
        ensures
            final(self).wf(),
            final(self).capacity == old(self).capacity && final(self).slot_size == old(self).slot_size,
            final(dest)@.len() == old(dest)@.len(),
            old(self)@.len() == 0 ==> res == Err::<(), RingError>(RingError::QueueEmpty) && final(self)@ == old(self)@
                && final(dest)@ == old(dest)@ && final(self).head == old(self).head && final(self).tail == old(self).tail,
            old(self)@.len() > 0 ==> res == Ok::<(), RingError>(())
                && final(self)@ == old(self)@.drop_first()
                && final(dest)@ == old(self)@[0] + old(dest)@.subrange(old(self).slot_size as int, old(dest)@.len() as int)
                && final(self).head == old(self).head && final(self).tail == old(self).tail + 1,
            ring_step(old(self)@, final(self)@, (false, final(dest)@.subrange(0, old(self).slot_size as int), res is Ok), old(self).capacity as nat),
    {
        let h = self.head;
        let t = self.tail;
        if h == t {
            return Err(RingError::QueueEmpty);
        }
        let ghost before = *self;
        let ghost old_dest = dest@;
        let ghost c = self.capacity as int;
        let ghost s = self.slot_size as int;
        let _len = self.data.len();
        proof {
            lemma_mask_is_mod(t, self.capacity);
            self.lemma_slot_in_bounds(t as int);
        }
        let offset = ((t & (self.capacity - 1)) * self.slot_size as u64) as usize;
        let n = self.slot_size as usize;
        let mut j: usize = 0;
        while j < n
            invariant
                j <= n,
                n == s,
                offset == slot_offset(t as int, c, s),
                offset + n <= self.data@.len(),
                offset + n <= usize::MAX,
                self.head == before.head && self.tail == before.tail,
                self.capacity == before.capacity && self.slot_size == before.slot_size,
                self.data@ == before.data@,
                dest@.len() == old_dest.len(),
                old_dest.len() >= n,
                forall|x: int| 0 <= x < old_dest.len() ==> #[trigger] dest@[x] == (if x < j { self.data@[offset + x] } else { old_dest[x] }),
            decreases n - j,
        {
            let b = self.data[offset + j];
            dest.set(j, b);
            j = j + 1;
        }
        self.tail = t + 1;
        proof {
            assert(self@ =~= before@.drop_first());
            assert(before@[0] == before.message(t as int));
            assert(dest@ =~= before@[0] + old_dest.subrange(s, old_dest.len() as int));
            assert(dest@.subrange(0, s) =~= before@[0]);
        }
        Ok(())
    }
}

/// The size of a ring: a 192-byte header and `capacity` slots of `slot_size` bytes.
pub open spec fn ring_size(capacity: u64, slot_size: u32) -> int {
    192 + capacity * slot_size
}

/// Sets up a ring of `capacity` slots of `slot_size` bytes at `base_phys`: the capacity must
/// be a power of two and memory capability `cap_handle` must grant reading and writing over
/// the whole ring. The ring starts empty.
pub fn create_ring(caps: &CapTableManager, cap_handle: u32, base_phys: u64, capacity: u64, slot_size: u32) -> (res: Option<SharedRing>)
    requires
        caps.wf(),
        ring_size(capacity, slot_size) <= u64::MAX,
        capacity * slot_size <= usize::MAX,
        is_pow2(capacity) ==> check_fits(*caps, cap_handle, base_phys, ring_size(capacity, slot_size) as u64),
    ensures
        res is Some <==> is_pow2(capacity) && access_ok(*caps, cap_handle, base_phys, ring_size(capacity, slot_size) as u64, CapRights(3)),
        res matches Some(r) ==> r.wf() && r@ == Seq::<Seq<u8>>::empty() && r.capacity == capacity && r.slot_size == slot_size
            && r.head == 0 && r.tail == 0 && r.base == base_phys,
{
    if !is_power_of_two(capacity) {
        return None;
    }
    let size = 192 + capacity * slot_size as u64;
    let rw = CapRights::read().union(CapRights::write());
    proof {
        assert(1u8 | 2u8 == 3u8) by (bit_vector);
    }
    if !check(caps, cap_handle, base_phys, size, rw) {
        return None;
    }
    Some(SharedRing::new(base_phys, capacity, slot_size))
}

/// Messages leave a ring in the order they entered: after a message is queued behind
/// `waiting`, the waiting messages still come first, in their order, and the new one comes
/// right after them; taking the front message off keeps the order of the rest.
pub proof fn law_fifo(waiting: Seq<Seq<u8>>, m: Seq<u8>)
    ensures
        forall|k: int| 0 <= k < waiting.len() ==> #[trigger] waiting.push(m)[k] == waiting[k],
        waiting.push(m)[waiting.len() as int] == m,
        waiting.len() > 0 ==> waiting.push(m).drop_first() == waiting.drop_first().push(m),
{
    if waiting.len() > 0 {
        assert(waiting.push(m).drop_first() =~= waiting.drop_first().push(m));
    }
}

/// One call on a ring's waiting messages, with its outcome: whether it was an `enqueue`,
/// the message it put in or (for a `dequeue`) the one it gave, and whether it succeeded. An
/// enqueue succeeds and appends its message exactly when fewer than `cap` messages wait; a
/// dequeue succeeds and gives the oldest exactly when one waits; a failed call changes
/// nothing.
pub open spec fn ring_step(q: Seq<Seq<u8>>, q2: Seq<Seq<u8>>, call: (bool, Seq<u8>, bool), cap: nat) -> bool {
    if call.0 {
        if q.len() < cap { call.2 && q2 == q.push(call.1) } else { !call.2 && q2 == q }
    } else {
        if q.len() > 0 { call.2 && call.1 == q[0] && q2 == q.drop_first() } else { !call.2 && q2 == q }
    }
}

/// The messages the successful enqueues of `calls` put in, in order.
pub open spec fn ring_taken(calls: Seq<(bool, Seq<u8>, bool)>) -> Seq<Seq<u8>>
    decreases calls.len(),
{
    if calls.len() == 0 {
        Seq::empty()
    } else if calls.last().0 && calls.last().2 {
        ring_taken(calls.drop_last()).push(calls.last().1)
    } else {
        ring_taken(calls.drop_last())
    }
}

/// The messages the successful dequeues of `calls` gave, in order.
pub open spec fn ring_given(calls: Seq<(bool, Seq<u8>, bool)>) -> Seq<Seq<u8>>
    decreases calls.len(),
{
    if calls.len() == 0 {
        Seq::empty()
    } else if !calls.last().0 && calls.last().2 {
        ring_given(calls.drop_last()).push(calls.last().1)
    } else {
        ring_given(calls.drop_last())
    }
}

/// A ring is first in, first out over any history of calls: what the successful dequeues
/// gave, followed by what still waits, is what waited at the start followed by what the
/// successful enqueues put in. So on a ring that starts empty, the `k`-th successful dequeue
/// gives the message of the `k`-th successful enqueue.
pub proof fn law_ring_history(qs: Seq<Seq<Seq<u8>>>, calls: Seq<(bool, Seq<u8>, bool)>, cap: nat)
    requires
        qs.len() == calls.len() + 1,
        forall|k: int| 0 <= k < calls.len() ==> #[trigger] ring_step(qs[k], qs[k + 1], calls[k], cap),
    ensures
        ring_given(calls) + qs.last() == qs[0] + ring_taken(calls),
        qs[0].len() == 0 ==> forall|k: int| 0 <= k < ring_given(calls).len() ==> #[trigger] ring_given(calls)[k] == ring_taken(calls)[k],
    decreases calls.len(),
{
    if calls.len() > 0 {
        let n = calls.len() - 1;
        let ps = qs.drop_last();
        let pc = calls.drop_last();
        assert forall|k: int| 0 <= k < pc.len() implies #[trigger] ring_step(ps[k], ps[k + 1], pc[k], cap) by {
            assert(ring_step(qs[k], qs[k + 1], calls[k], cap));
        }
        law_ring_history(ps, pc, cap);
        assert(ring_step(qs[n], qs[n + 1], calls[n], cap));
        let g = ring_given(pc);
        let t = ring_taken(pc);
        let c = calls[n];
        assert(g + qs[n] == qs[0] + t);
        if c.0 && c.2 {
            assert(ring_given(calls) + qs.last() =~= (g + qs[n]).push(c.1));
            assert(qs[0] + ring_taken(calls) =~= (qs[0] + t).push(c.1));
        } else if !c.0 && c.2 {
            assert(qs[n] =~= seq![c.1] + qs[n + 1]);
            assert(ring_given(calls) + qs.last() =~= g + qs[n]);
        } else {
            assert(ring_given(calls) == g);
            assert(ring_taken(calls) == t);
        }
    }
    if qs[0].len() == 0 {
        assert forall|k: int| 0 <= k < ring_given(calls).len() implies #[trigger] ring_given(calls)[k] == ring_taken(calls)[k] by {
            assert((ring_given(calls) + qs.last())[k] == ring_given(calls)[k]);
            assert(qs[0] + ring_taken(calls) =~= ring_taken(calls));
        }
    }
}

} // verus!
