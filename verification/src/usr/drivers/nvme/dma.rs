use vstd::prelude::*;
use crate::mem::pmm::{Pmm, PAGE_SIZE, HUGE_SIZE, MAX_FRAMES, frame_taken, huge_taken, frame_returned};

verus! {

/// A buffer for device DMA: its physical and virtual address (identity mapped) and size.
pub struct DmaBuffer {
    pub phys: usize,
    pub virt: usize,
    pub size: usize,
}

impl DmaBuffer {
    /// A buffer of `pages` pages: one frame for one page, a 2 MiB frame for 512 pages, and
    /// otherwise a single frame whose size is recorded as `pages` pages. `None` when the
    /// frame allocator has nothing to give.
    pub fn allocate(pmm: &mut Pmm, pages: usize) -> (res: Option<Self>)
        requires
            old(pmm).wf(),
            pages * PAGE_SIZE <= usize::MAX,
        ensures
            final(pmm).wf(),
            pages == 512 ==> huge_taken(*old(pmm), *final(pmm), match res { Some(b) => Some(b.phys), None => None }),
            pages != 512 ==> frame_taken(*old(pmm), *final(pmm), match res { Some(b) => Some(b.phys), None => None }),
            res matches Some(b) ==> b.virt == b.phys && b.size == (if pages == 512 { HUGE_SIZE as int } else { pages * PAGE_SIZE }),
    {
        if pages == 512 {
            match pmm.alloc_huge() {
                Some(phys) => Some(DmaBuffer { phys, virt: phys, size: HUGE_SIZE }),
                None => None,
            }
        } else {
            match pmm.alloc_frame() {
                Some(phys) => Some(DmaBuffer { phys, virt: phys, size: pages * PAGE_SIZE }),
                None => None,
            }
        }
    }

    /// Gives the buffer's first frame back to the frame allocator.
    pub fn free(self, pmm: &mut Pmm)
        requires
            old(pmm).wf(),
            self.phys / PAGE_SIZE < MAX_FRAMES,
            old(pmm).spec_free_frames() < usize::MAX,
        ensures
            final(pmm).wf(),
            frame_returned(*old(pmm), *final(pmm), self.phys),
    {
        pmm.free_frame(self.phys);
    }
}

} // verus!
