use vstd::prelude::*;
use crate::mem::pmm::{Pmm, PAGE_SIZE, frame_taken};
use crate::usr::drivers::nvme::dma::DmaBuffer;

verus! {

pub const SQ_ENTRY_SIZE: usize = 64;
pub const CQ_ENTRY_SIZE: usize = 16;
pub const QUEUE_DEPTH: usize = 64;

/// A submission queue entry.
#[derive(Clone, Copy, Debug)]
pub struct SqEntry {
    pub cdw0: u32,
    pub nsid: u32,
    pub cdw2: u32,
    pub cdw3: u32,
    pub mptr: u64,
    pub dptr: [u64; 2],
    pub cdw10: u32,
    pub cdw11: u32,
    pub cdw12: u32,
    pub cdw13: u32,
    pub cdw14: u32,
    pub cdw15: u32,
}

/// A completion queue entry.
#[derive(Clone, Copy, Debug)]
pub struct CqEntry {
    pub dw0: u32,
    pub dw1: u32,
    pub sqhd: u16,
    pub sqid: u16,
    pub cid: u16,
    pub sf: u16,
}

pub struct SubmissionQueue {
    pub buf: DmaBuffer,
    pub tail: u16,
    pub id: u16,
    pub db: usize,
}

pub struct CompletionQueue {
    pub buf: DmaBuffer,
    pub head: u16,
    pub phase: u8,
    pub id: u16,
    pub db: usize,
}

impl SubmissionQueue {
    /// A queue on a fresh one-page buffer, its tail at 0; `None` when no frame is free.
    pub fn new(pmm: &mut Pmm, id: u16, db: usize) -> (res: Option<Self>)
        requires
            old(pmm).wf(),
        ensures
            final(pmm).wf(),
            frame_taken(*old(pmm), *final(pmm), match res { Some(q) => Some(q.buf.phys), None => None }),
            res matches Some(q) ==> q.tail == 0 && q.id == id && q.db == db && q.buf.virt == q.buf.phys && q.buf.size == PAGE_SIZE,
    {
        match DmaBuffer::allocate(pmm, 1) {
            Some(buf) => Some(SubmissionQueue { buf, tail: 0, id, db }),
            None => None,
        }
    }

    /// Takes the next submission slot: gives the address where the command goes and the new
    /// tail to write to the doorbell; the tail wraps after `QUEUE_DEPTH` entries.
    pub fn submit_slot(&mut self) -> (res: (usize, u32))
        requires
            old(self).tail < QUEUE_DEPTH,
            old(self).buf.virt + QUEUE_DEPTH * SQ_ENTRY_SIZE <= usize::MAX,
        ensures
            res.0 == old(self).buf.virt + old(self).tail * SQ_ENTRY_SIZE,
            final(self).tail == (old(self).tail + 1) % (QUEUE_DEPTH as int),
            res.1 == final(self).tail,
            final(self).buf == old(self).buf,
            final(self).id == old(self).id,
            final(self).db == old(self).db,
    {
        let slot = self.buf.virt + self.tail as usize * SQ_ENTRY_SIZE;
        self.tail = (self.tail + 1) % QUEUE_DEPTH as u16;
        (slot, self.tail as u32)
    }
}

impl CompletionQueue {
    /// A queue on a fresh one-page buffer, its head at 0 and expecting phase 1; `None` when
    /// no frame is free.
    pub fn new(pmm: &mut Pmm, id: u16, db: usize) -> (res: Option<Self>)
        requires
            old(pmm).wf(),
        ensures
            final(pmm).wf(),
            frame_taken(*old(pmm), *final(pmm), match res { Some(q) => Some(q.buf.phys), None => None }),
            res matches Some(q) ==> q.head == 0 && q.phase == 1 && q.id == id && q.db == db && q.buf.virt == q.buf.phys && q.buf.size == PAGE_SIZE,
    {
        match DmaBuffer::allocate(pmm, 1) {
            Some(buf) => Some(CompletionQueue { buf, head: 0, phase: 1, id, db }),
            None => None,
        }
    }

    /// The address of the entry at the head.
    pub fn head_address(&self) -> (a: usize)
        requires
            self.head < QUEUE_DEPTH,
            self.buf.virt + QUEUE_DEPTH * CQ_ENTRY_SIZE <= usize::MAX,
        ensures
            a == self.buf.virt + self.head * CQ_ENTRY_SIZE,
    {
        self.buf.virt + self.head as usize * CQ_ENTRY_SIZE
    }

    /// Looks at the entry `e` read at the head: when its phase bit is not the expected one
    /// it is not new and nothing changes (`None`); otherwise the head moves on (wrapping
    /// after `QUEUE_DEPTH` entries, when the expected phase flips) and the new head, to be
    /// written to the doorbell, is returned.
    pub fn poll_step(&mut self, e: &CqEntry) -> (res: Option<u32>)
        requires
            old(self).head < QUEUE_DEPTH,
            old(self).phase <= 1,
        ensures
            final(self).buf == old(self).buf && final(self).id == old(self).id && final(self).db == old(self).db,
            e.sf % 2 != old(self).phase ==> res is None && final(self).head == old(self).head && final(self).phase == old(self).phase,
            e.sf % 2 == old(self).phase ==> {
                &&& final(self).head == (old(self).head + 1) % (QUEUE_DEPTH as int)
                &&& final(self).phase == (if final(self).head == 0 { 1 - old(self).phase } else { old(self).phase as int })
                &&& res == Some(final(self).head as u32)
            },
            final(self).head < QUEUE_DEPTH,
            final(self).phase <= 1,
    {
        let sf = e.sf;
        proof {
            assert(sf & 1 == sf % 2) by (bit_vector);
        }
        if (sf & 1) != self.phase as u16 {
            return None;
        }
        self.head = (self.head + 1) % QUEUE_DEPTH as u16;
        if self.head == 0 {
            let p = self.phase;
            proof {
                assert(p <= 1 ==> p ^ 1 == 1 - p) by (bit_vector);
            }
            self.phase = p ^ 1;
        }
        Some(self.head as u32)
    }
}

} // verus!
