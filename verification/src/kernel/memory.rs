//! Handing out physical frames from the boot memory map.
use vstd::prelude::*;

verus! {

pub const PAGE_SIZE: u64 = 4096;

/// A region of the boot memory map.
#[derive(Clone, Copy, Debug)]
pub struct MemoryRegion {
    pub start: u64,
    pub end: u64,
    pub usable: bool,
}

/// Where the search for a frame in region `r` starts: the cursor, or the region's start.
pub open spec fn candidate(r: MemoryRegion, next: u64) -> u64 {
    if next >= r.start { next } else { r.start }
}

/// The first region from `k` on that is usable and has a frame at or after the cursor.
pub open spec fn first_fit(rs: Seq<MemoryRegion>, next: u64, k: int) -> Option<int>
    decreases rs.len() - k,
{
    if k < 0 || k >= rs.len() {
        None
    } else if rs[k].usable && candidate(rs[k], next) < rs[k].end {
        Some(k)
    } else {
        first_fit(rs, next, k + 1)
    }
}

proof fn lemma_first_fit(rs: Seq<MemoryRegion>, next: u64, k: int)
    ensures
        first_fit(rs, next, k) matches Some(j) ==> {
            &&& k <= j < rs.len()
            &&& rs[j].usable
            &&& candidate(rs[j], next) < rs[j].end
        },
    decreases rs.len() - k,
{
    if 0 <= k < rs.len() && !(rs[k].usable && candidate(rs[k], next) < rs[k].end) {
        lemma_first_fit(rs, next, k + 1);
    }
}

/// A frame that the cursor hands out lies in a usable region, at or past the
/// cursor; the frame that the following call hands out lies a page or more
/// above it, so no frame is handed out twice.
pub proof fn law_frames_never_repeat(rs: Seq<MemoryRegion>, next: u64)
    requires
        forall|i: int| 0 <= i < rs.len() ==> (#[trigger] rs[i]).end <= u64::MAX - PAGE_SIZE,
    ensures
        first_fit(rs, next, 0) matches Some(k) ==> {
            let a = candidate(rs[k], next);
            &&& rs[k].usable
            &&& rs[k].start <= a < rs[k].end
            &&& next <= a
            &&& (first_fit(rs, (a + PAGE_SIZE) as u64, 0) matches Some(k2) ==>
                    candidate(rs[k2], (a + PAGE_SIZE) as u64) >= a + PAGE_SIZE)
        },
{
    lemma_first_fit(rs, next, 0);
    if let Some(k) = first_fit(rs, next, 0) {
        let a = candidate(rs[k], next);
        assert(a < rs[k].end);
        lemma_first_fit(rs, (a + PAGE_SIZE) as u64, 0);
    }
}

/// The next frame address to hand out.
pub struct FrameCursor {
    pub next_addr: u64,
}

impl FrameCursor {
    pub fn new() -> (c: FrameCursor)
        ensures
            c.next_addr == 0,
    {
        FrameCursor { next_addr: 0 }
    }

    /// The next free frame: in the first usable region with room past the
    /// cursor, at the cursor or the region's start; the cursor moves a page past it.
    pub fn allocate_frame(&mut self, regions: &[MemoryRegion]) -> (r: Option<u64>)
        requires
            forall|i: int| 0 <= i < regions@.len() ==> (#[trigger] regions@[i]).end <= u64::MAX - PAGE_SIZE,
        ensures
            match first_fit(regions@, old(self).next_addr, 0) {
                Some(k) => {
                    &&& r == Some(candidate(regions@[k], old(self).next_addr))
                    &&& final(self).next_addr == candidate(regions@[k], old(self).next_addr) + PAGE_SIZE
                },
                None => r is None && final(self).next_addr == old(self).next_addr,
            },
    {
        let mut i: usize = 0;
        while i < regions.len()
            invariant
                i <= regions@.len(),
                self.next_addr == old(self).next_addr,
                first_fit(regions@, old(self).next_addr, 0) == first_fit(regions@, old(self).next_addr, i as int),
                forall|j: int| 0 <= j < regions@.len() ==> (#[trigger] regions@[j]).end <= u64::MAX - PAGE_SIZE,
            decreases regions@.len() - i,
        {
            let region = regions[i];
            if region.usable {
                let addr = if self.next_addr >= region.start { self.next_addr } else { region.start };
                if addr < region.end {
                    self.next_addr = addr + PAGE_SIZE;
                    return Some(addr);
                }
            }
            i = i + 1;
        }
        None
    }
}

} // verus!
