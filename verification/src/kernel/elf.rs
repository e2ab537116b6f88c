//! Loading an ELF program: which images are accepted, and where each loadable
//! segment goes — the pages it spans, their flags, the bytes copied from the
//! file and the bytes zeroed after them.
use vstd::prelude::*;

verus! {

/// Bytes in a page.
pub const PAGE: u64 = 4096;

/// An image is loaded only when it is a 64-bit image for x86_64.
pub fn check_elf_header(is_64_bit: bool, is_x86_64: bool) -> (r: Result<(), &'static str>)
    ensures
        !is_64_bit ==> r == Err::<(), &'static str>("Not 64-bit ELF"),
        is_64_bit && !is_x86_64 ==> r == Err::<(), &'static str>("Not x86_64 ELF"),
        is_64_bit && is_x86_64 ==> r is Ok,
{
    if !is_64_bit {
        return Err("Not 64-bit ELF");
    }
    if !is_x86_64 {
        return Err("Not x86_64 ELF");
    }
    Ok(())
}

/// An address whose top 17 bits agree, as a virtual address must.
pub open spec fn canonical(a: u64) -> bool {
    a < 0x8000_0000_0000 || a >= 0xFFFF_8000_0000_0000
}

/// The page that holds an address.
pub open spec fn page_of(a: u64) -> u64 {
    (a - a % 4096) as u64
}

/// What the loader reads of a loadable program header.
pub struct LoadSegment {
    pub vaddr: u64,
    pub mem_size: u64,
    pub file_size: u64,
    pub offset: u64,
    pub writable: bool,
    pub executable: bool,
}

/// Where a segment goes: the first and last page it spans, whether its pages
/// are writable and whether they forbid execution, the file bytes copied to
/// its start, and how many bytes are zeroed after them.
pub struct SegmentPlan {
    pub first_page: u64,
    pub last_page: u64,
    pub writable: bool,
    pub no_execute: bool,
    pub copy_start: usize,
    pub copy_end: usize,
    pub zero_len: u64,
}

/// The segment's addresses are canonical, its last byte's address is one, and
/// its file bytes lie in an image of `data_len` bytes.
pub open spec fn segment_ok(s: LoadSegment, data_len: usize) -> bool {
    &&& canonical(s.vaddr)
    &&& 1 <= s.vaddr + s.mem_size <= u64::MAX + 1
    &&& canonical((s.vaddr + s.mem_size - 1) as u64)
    &&& s.file_size > 0 ==> s.offset + s.file_size <= data_len
}

fn is_canonical(a: u64) -> (c: bool)
    ensures
        c == canonical(a),
{
    a < 0x8000_0000_0000 || a >= 0xFFFF_8000_0000_0000
}

/// Whether a segment can be planned: `segment_ok`.
pub fn segment_fits(s: &LoadSegment, data_len: usize) -> (r: bool)
    ensures
        r == segment_ok(*s, data_len),
{
    if s.mem_size == 0 && s.vaddr == 0 {
        return false;
    }
    if s.mem_size > 0 && s.mem_size - 1 > u64::MAX - s.vaddr {
        return false;
    }
    let last = if s.mem_size > 0 { s.vaddr + (s.mem_size - 1) } else { s.vaddr - 1 };
    if !is_canonical(s.vaddr) || !is_canonical(last) {
        return false;
    }
    if s.file_size > 0 && (s.offset > u64::MAX - s.file_size || s.offset + s.file_size > data_len as u64) {
        return false;
    }
    true
}

/// The plan for a segment: its pages from the one holding its first byte to
/// the one holding its last; writable when the segment is, not executable
/// unless it is; its `file_size` bytes from `offset` copied; the rest of its
/// `mem_size` bytes zeroed.
pub fn plan_segment(s: &LoadSegment, data_len: usize) -> (p: SegmentPlan)
    requires
        segment_ok(*s, data_len),
    ensures
        p.first_page == page_of(s.vaddr),
        p.last_page == page_of((s.vaddr + s.mem_size - 1) as u64),
        p.writable == s.writable,
        p.no_execute == !s.executable,
        s.file_size > 0 ==> p.copy_start == s.offset && p.copy_end == s.offset + s.file_size,
        s.file_size == 0 ==> p.copy_start == 0 && p.copy_end == 0,
        p.zero_len == if s.mem_size > s.file_size { (s.mem_size - s.file_size) as u64 } else { 0 },
{
    let last = if s.mem_size > 0 { s.vaddr + (s.mem_size - 1) } else { s.vaddr - 1 };
    let (copy_start, copy_end): (usize, usize) = if s.file_size > 0 {
        (s.offset as usize, (s.offset + s.file_size) as usize)
    } else {
        (0, 0)
    };
    SegmentPlan {
        first_page: s.vaddr - s.vaddr % PAGE,
        last_page: last - last % PAGE,
        writable: s.writable,
        no_execute: !s.executable,
        copy_start,
        copy_end,
        zero_len: if s.mem_size > s.file_size { s.mem_size - s.file_size } else { 0 },
    }
}

} // verus!
