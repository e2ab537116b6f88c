//! Reading a FAT32 volume's root directory: the boot sector's layout, the
//! 32-byte directory entries, and the listing and lookup of root files.
use vstd::prelude::*;
use vstd::string::StringSliceAdditionalSpecFns;
use crate::text::{append_bytes, bytes_eq, copy_range, dec, push_decimal, push_str, views};

verus! {

/// Little-endian 16-bit value at `i`.
pub open spec fn le16_at(s: Seq<u8>, i: int) -> nat {
    (s[i] + 256 * s[i + 1]) as nat
}

/// Little-endian 32-bit value at `i`.
pub open spec fn le32_at(s: Seq<u8>, i: int) -> nat {
    (s[i] + 256 * s[i + 1] + 65536 * s[i + 2] + 16777216 * s[i + 3]) as nat
}

fn read_le16(s: &[u8], i: usize) -> (r: u16)
    requires
        i + 2 <= s@.len(),
    ensures
        r == le16_at(s@, i as int),
{
    s[i] as u16 + 256 * (s[i + 1] as u16)
}

fn read_le32(s: &[u8], i: usize) -> (r: u32)
    requires
        i + 4 <= s@.len(),
    ensures
        r == le32_at(s@, i as int),
{
    s[i] as u32 + 256 * (s[i + 1] as u32) + 65536 * (s[i + 2] as u32) + 16777216 * (s[i + 3] as u32)
}

/// Where the data region starts and how clusters map onto sectors.
#[derive(Clone, Copy, Debug)]
pub struct FatLayout {
    pub data_start: u32,
    pub root_cluster: u32,
    pub sectors_per_cluster: u8,
}

/// The sector the volume starts at.
pub const PARTITION_OFFSET: u32 = 0;

/// The data region's first sector: past the reserved sectors and the FAT copies.
pub open spec fn data_start_of(boot: Seq<u8>) -> int {
    PARTITION_OFFSET + le16_at(boot, 14) + boot[16] * le32_at(boot, 36)
}

/// The layout's sums fit in 32 bits, as the boot sector's fields give them.
pub open spec fn layout_fits(boot: Seq<u8>) -> bool {
    boot.len() >= 48 && data_start_of(boot) <= u32::MAX
}

/// Whether the layout's sums fit in 32 bits.
pub fn layout_fits_check(boot: &[u8]) -> (r: bool)
    ensures
        r == layout_fits(boot@),
{
    if boot.len() < 48 {
        return false;
    }
    let reserved = read_le16(boot, 14) as u64;
    let fats = boot[16] as u64;
    let size = read_le32(boot, 36) as u64;
    assert(fats * size <= 255 * 4294967295) by (nonlinear_arith)
        requires fats <= 255, size <= 4294967295;
    reserved + fats * size <= u32::MAX as u64
}

/// The layout a boot sector describes, or why it is refused.
pub open spec fn layout_of(boot: Seq<u8>) -> Result<FatLayout, &'static str> {
    if le16_at(boot, 11) != 512 {
        Err("Not valid FAT32 (invalid sector size)")
    } else {
        Ok(FatLayout {
            data_start: data_start_of(boot) as u32,
            root_cluster: le32_at(boot, 44) as u32,
            sectors_per_cluster: boot[13],
        })
    }
}

/// Reads the layout from the volume's boot sector.
pub fn parse_layout(boot: &[u8]) -> (r: Result<FatLayout, &'static str>)
    requires
        layout_fits(boot@),
    ensures
        r == layout_of(boot@),
{
    if read_le16(boot, 11) != 512 {
        return Err("Not valid FAT32 (invalid sector size)");
    }
    let reserved = read_le16(boot, 14) as u32;
    let fats = boot[16] as u32;
    let fat_size = read_le32(boot, 36);
    let fat_start = PARTITION_OFFSET + reserved;
    assert(fats * fat_size <= u32::MAX) by (nonlinear_arith)
        requires reserved + fats * fat_size <= u32::MAX, reserved >= 0;
    let data_start = fat_start + fats * fat_size;
    Ok(FatLayout { data_start, root_cluster: read_le32(boot, 44), sectors_per_cluster: boot[13] })
}

/// The first sector of a cluster; clusters count from 2.
pub fn cluster_to_lba(cluster: u32, data_start: u32, sectors_per_cluster: u8) -> (r: u32)
    requires
        cluster >= 2,
        data_start + (cluster - 2) * sectors_per_cluster <= u32::MAX,
    ensures
        r == data_start + (cluster - 2) * sectors_per_cluster,
{
    assert((cluster - 2) * sectors_per_cluster <= u32::MAX) by (nonlinear_arith)
        requires data_start + (cluster - 2) * sectors_per_cluster <= u32::MAX, data_start >= 0;
    data_start + (cluster - 2) * sectors_per_cluster as u32
}

/// A 32-byte root directory entry, as the fields the listing reads.
#[derive(Clone, Copy, Debug)]
pub struct DirEntry {
    pub name: [u8; 8],
    pub ext: [u8; 3],
    pub attr: u8,
    pub cluster_high: u16,
    pub cluster_low: u16,
    pub size: u32,
}

/// The entry's name and extension are the sector's bytes there.
pub open spec fn entry_matches(e: DirEntry, s: Seq<u8>, off: int) -> bool {
    &&& e.name@ == s.subrange(off, off + 8)
    &&& e.ext@ == s.subrange(off + 8, off + 11)
    &&& e.attr == s[off + 11]
    &&& e.cluster_high == le16_at(s, off + 20)
    &&& e.cluster_low == le16_at(s, off + 26)
    &&& e.size == le32_at(s, off + 28)
}

pub fn parse_entry(s: &[u8], off: usize) -> (e: DirEntry)
    requires
        off + 32 <= s@.len(),
    ensures
        entry_matches(e, s@, off as int),
{
    let name: [u8; 8] = [s[off], s[off + 1], s[off + 2], s[off + 3], s[off + 4], s[off + 5], s[off + 6], s[off + 7]];
    let ext: [u8; 3] = [s[off + 8], s[off + 9], s[off + 10]];
    assert(name@ =~= s@.subrange(off as int, off + 8));
    assert(ext@ =~= s@.subrange(off + 8, off + 11));
    DirEntry {
        name,
        ext,
        attr: s[off + 11],
        cluster_high: read_le16(s, off + 20),
        cluster_low: read_le16(s, off + 26),
        size: read_le32(s, off + 28),
    }
}

/// The name without spaces, then a dot and the extension without spaces when it has one.
pub open spec fn entry_name(name: Seq<u8>, ext: Seq<u8>) -> Seq<u8> {
    let n = name.filter(|b: u8| b != 32);
    if ext[0] != 32 {
        n + seq![46u8] + ext.filter(|b: u8| b != 32)
    } else {
        n
    }
}

fn push_unspaced(out: &mut Vec<u8>, s: &[u8])
    ensures
        final(out)@ == old(out)@ + s@.filter(|b: u8| b != 32),
{
    let mut i: usize = 0;
    while i < s.len()
        invariant
            i <= s@.len(),
            out@ == old(out)@ + s@.take(i as int).filter(|b: u8| b != 32),
        decreases s@.len() - i,
    {
        proof {
            s@.take(i as int).lemma_filter_push(s@[i as int], |b: u8| b != 32);
            assert(s@.take(i + 1) =~= s@.take(i as int).push(s@[i as int]));
        }
        if s[i] != 32 {
            out.push(s[i]);
        }
        assert(out@ =~= old(out)@ + s@.take(i + 1).filter(|b: u8| b != 32));
        i = i + 1;
    }
    assert(s@.take(i as int) =~= s@);
}

impl DirEntry {
    /// A deleted entry.
    pub fn is_free(&self) -> (r: bool)
        ensures
            r == (self.name@[0] == 0xE5),
    {
        self.name[0] == 0xE5
    }

    /// The entry that ends the directory.
    pub fn is_end(&self) -> (r: bool)
        ensures
            r == (self.name@[0] == 0x00),
    {
        self.name[0] == 0x00
    }

    /// A piece of a long file name.
    pub fn is_long_name(&self) -> (r: bool)
        ensures
            r == (self.attr == 0x0F),
    {
        self.attr == 0x0F
    }

    /// A directory.
    pub fn is_dir(&self) -> (r: bool)
        ensures
            r == (self.attr & 0x10 != 0),
    {
        (self.attr & 0x10) != 0
    }

    /// The 8.3 name, without the padding.
    pub fn filename(&self) -> (r: Vec<u8>)
        ensures
            r@ == entry_name(self.name@, self.ext@),
    {
        let mut out: Vec<u8> = Vec::new();
        push_unspaced(&mut out, &self.name);
        if self.ext[0] != 32 {
            out.push(46u8);
            push_unspaced(&mut out, &self.ext);
        }
        out
    }

    /// The first cluster.
    pub fn cluster(&self) -> (r: u32)
        ensures
            r == self.cluster_high * 65536 + self.cluster_low,
    {
        let hi = self.cluster_high;
        let lo = self.cluster_low;
        assert(((hi as u32) << 16u32) | (lo as u32) == hi as u32 * 65536 + lo as u32) by (bit_vector);
        ((hi as u32) << 16) | (lo as u32)
    }
}

/// Entries in one directory sector.
pub const ENTRIES_PER_SECTOR: usize = 16;

/// The root listing's line for an entry: its name, then `/` for a directory or its size.
pub open spec fn listing_line(name: Seq<u8>, is_dir: bool, size: nat) -> Seq<u8> {
    if is_dir {
        name + seq![47u8]
    } else {
        name + " (".spec_bytes() + dec(size) + " b)".spec_bytes()
    }
}

/// The listing of the entries of a root directory sector from entry `i` on:
/// stopping at the end entry, skipping deleted entries and long-name pieces.
pub open spec fn listing_from(s: Seq<u8>, i: int) -> Seq<Seq<u8>>
    decreases 16 - i,
{
    if i < 0 || i >= 16 {
        Seq::empty()
    } else if s[32 * i] == 0x00 {
        Seq::empty()
    } else if s[32 * i] == 0xE5 || s[32 * i + 11] == 0x0F {
        listing_from(s, i + 1)
    } else {
        seq![
            listing_line(
                entry_name(s.subrange(32 * i, 32 * i + 8), s.subrange(32 * i + 8, 32 * i + 11)),
                s[32 * i + 11] & 0x10 != 0,
                le32_at(s, 32 * i + 28),
            ),
        ] + listing_from(s, i + 1)
    }
}

/// The files of a root directory sector, one line each.
pub fn root_listing(sector: &[u8]) -> (r: Vec<Vec<u8>>)
    requires
        sector@.len() == 512,
    ensures
        views(r@) == listing_from(sector@, 0),
{
    let mut files: Vec<Vec<u8>> = Vec::new();
    let mut i: usize = 0;
    while i < ENTRIES_PER_SECTOR
        invariant
            i <= 16,
            sector@.len() == 512,
            views(files@) + listing_from(sector@, i as int) == listing_from(sector@, 0),
        decreases 16 - i,
    {
        let e = parse_entry(sector, i * 32);
        assert(e.name@[0] == sector@[32 * i]);
        if e.is_end() {
            assert(listing_from(sector@, i as int) == Seq::<Seq<u8>>::empty());
            assert(views(files@) =~= listing_from(sector@, 0));
            return files;
        }
        if !(e.is_free() || e.is_long_name()) {
            let mut name = e.filename();
            if e.is_dir() {
                name.push(47u8);
            } else {
                push_str(&mut name, " (");
                push_decimal(&mut name, e.size as u64);
                push_str(&mut name, " b)");
            }
            assert(name@ == listing_line(
                entry_name(sector@.subrange(32 * i, 32 * i + 8), sector@.subrange(32 * i + 8, 32 * i + 11)),
                sector@[32 * i + 11] & 0x10 != 0,
                le32_at(sector@, 32 * i + 28),
            ));
            let ghost before = views(files@);
            files.push(name);
            assert(views(files@) + listing_from(sector@, i + 1) =~= before + listing_from(sector@, i as int));
        }
        i = i + 1;
    }
    assert(views(files@) =~= listing_from(sector@, 0));
    files
}

/// The index of the first root entry named `name`, from entry `i` on, stopping at the end entry.
pub open spec fn find_from(s: Seq<u8>, name: Seq<u8>, i: int) -> Option<int>
    decreases 16 - i,
{
    if i < 0 || i >= 16 {
        None
    } else if s[32 * i] == 0x00 {
        None
    } else if s[32 * i] != 0xE5 && s[32 * i + 11] != 0x0F && entry_name(
        s.subrange(32 * i, 32 * i + 8),
        s.subrange(32 * i + 8, 32 * i + 11),
    ) == name {
        Some(i)
    } else {
        find_from(s, name, i + 1)
    }
}

/// The root entry of a file by its 8.3 name, if the sector holds one.
pub fn find_root_entry(sector: &[u8], name: &[u8]) -> (r: Option<DirEntry>)
    requires
        sector@.len() == 512,
    ensures
        match find_from(sector@, name@, 0) {
            Some(i) => r matches Some(e) && entry_matches(e, sector@, 32 * i),
            None => r is None,
        },
{
    let mut i: usize = 0;
    while i < ENTRIES_PER_SECTOR
        invariant
            i <= 16,
            sector@.len() == 512,
            find_from(sector@, name@, i as int) == find_from(sector@, name@, 0),
        decreases 16 - i,
    {
        let e = parse_entry(sector, i * 32);
        assert(e.name@[0] == sector@[32 * i]);
        if e.is_end() {
            return None;
        }
        if !(e.is_free() || e.is_long_name()) {
            let n = e.filename();
            if bytes_eq(n.as_slice(), name) {
                return Some(e);
            }
        }
        i = i + 1;
    }
    None
}

/// A file's contents as one sector holds them: at most its first 512 bytes.
pub fn file_contents(buf: &[u8], size: u32) -> (r: Vec<u8>)
    requires
        buf@.len() == 512,
    ensures
        r@ == buf@.take(if size < 512 { size as int } else { 512 }),
{
    let n: usize = if size < 512 { size as usize } else { 512 };
    let r = copy_range(buf, 0, n);
    assert(buf@.subrange(0, n as int) =~= buf@.take(n as int));
    r
}

/// What the root listing is when the volume cannot be read: one line saying why.
pub fn listing_error(why: &str) -> (r: Vec<Vec<u8>>)
    ensures
        views(r@) == seq![why.spec_bytes()],
{
    let mut line: Vec<u8> = Vec::new();
    push_str(&mut line, why);
    let mut r: Vec<Vec<u8>> = Vec::new();
    r.push(line);
    assert(views(r@) =~= seq![why.spec_bytes()]);
    r
}


/// The first cluster recorded at entry offset `off`.
pub open spec fn cluster_at(s: Seq<u8>, off: int) -> int {
    (le16_at(s, off + 20) * 65536 + le16_at(s, off + 26)) as int
}

/// The first sector of `cluster`, clusters counting from 2.
pub open spec fn lba_of(cluster: int, data_start: int, sectors_per_cluster: int) -> int {
    data_start + (cluster - 2) * sectors_per_cluster
}

/// Reading a root file, between one disk read and the next.
pub enum FileRead {
    /// Waiting for the boot sector; the file's name.
    Boot(Vec<u8>),
    /// Waiting for the root directory's first sector.
    Root(Vec<u8>, FatLayout),
    /// Waiting for the file's first sector.
    Data(DirEntry),
}

/// What a step of reading a root file asks for.
pub enum FileReadStep {
    /// The sector to read next, and the state that takes it.
    Read(u32, FileRead),
    /// The file's contents; `None` where a read failed, the volume is not
    /// FAT32 with 512-byte sectors, or the root holds no such file.
    Done(Option<Vec<u8>>),
}

/// Starts reading the root file `name`: the boot sector is read first.
pub fn read_file(name: &[u8]) -> (r: (u32, FileRead))
    ensures
        r.0 == PARTITION_OFFSET,
        r.1 matches FileRead::Boot(n) && n@ == name@,
{
    (PARTITION_OFFSET, FileRead::Boot(crate::text::copy_bytes(name)))
}

/// Whether `cluster` counts from 2 and its first sector fits in 32 bits.
fn lba_fits(data_start: u32, cluster: u32, spc: u8) -> (r: bool)
    ensures
        r == (cluster >= 2 && lba_of(cluster as int, data_start as int, spc as int) <= u32::MAX),
{
    if cluster < 2 {
        return false;
    }
    let c = (cluster - 2) as u64;
    let k = spc as u64;
    assert(c * k <= 0xFFFF_FFFFu64 * 255) by (nonlinear_arith)
        requires
            c <= 0xFFFF_FFFFu64,
            k <= 255,
    ;
    (data_start as u64) + c * k <= u32::MAX as u64
}

impl FileRead {
    /// The sector that came back fits the sums the next step makes in 32
    /// bits, and clusters there count from 2.
    pub open spec fn sector_ok(&self, ok: bool, s: Seq<u8>) -> bool {
        &&& s.len() == 512
        &&& match *self {
            FileRead::Boot(_) => boot_ok(ok, s),
            FileRead::Root(n, l) => ok ==> match find_from(s, n@, 0) {
                Some(i) => {
                    &&& cluster_at(s, 32 * i) >= 2
                    &&& lba_of(cluster_at(s, 32 * i), l.data_start as int, l.sectors_per_cluster as int) <= u32::MAX
                },
                None => true,
            },
            FileRead::Data(_) => true,
        }
    }

    /// Whether `sector_ok` holds.
    pub fn check(&self, ok: bool, sector: &[u8]) -> (r: bool)
        ensures
            r == self.sector_ok(ok, sector@),
    {
        if sector.len() != 512 {
            return false;
        }
        match self {
            FileRead::Boot(_) => {
                if !(ok && read_le16(sector, 11) == 512) {
                    return true;
                }
                if !layout_fits_check(sector) {
                    return false;
                }
                let l = match parse_layout(sector) {
                    Ok(l) => l,
                    Err(_) => return true,
                };
                lba_fits(l.data_start, read_le32(sector, 44), l.sectors_per_cluster)
            },
            FileRead::Root(n, l) => {
                if !ok {
                    return true;
                }
                match find_root_entry(sector, n.as_slice()) {
                    Some(e) => lba_fits(l.data_start, e.cluster(), l.sectors_per_cluster),
                    None => true,
                }
            },
            FileRead::Data(_) => true,
        }
    }

    /// Takes the sector just read (`ok` says whether the read succeeded) and
    /// says what comes next: the root directory's sector after the boot
    /// sector, the file's sector after the root's, then the file's contents.
    /// The file's own sector is taken as it stands whether its read succeeded
    /// or not.
    pub fn next(self, ok: bool, sector: &[u8]) -> (r: FileReadStep)
        requires
            self.sector_ok(ok, sector@),
        ensures
            match self {
                FileRead::Boot(n) => if !ok {
                    r matches FileReadStep::Done(None)
                } else {
                    match layout_of(sector@) {
                        Err(_) => r matches FileReadStep::Done(None),
                        Ok(l) => r matches FileReadStep::Read(lba, FileRead::Root(n2, l2)) && n2@ == n@ && l2 == l
                            && lba == lba_of(l.root_cluster as int, l.data_start as int, l.sectors_per_cluster as int),
                    }
                },
                FileRead::Root(n, l) => if !ok {
                    r matches FileReadStep::Done(None)
                } else {
                    match find_from(sector@, n@, 0) {
                        None => r matches FileReadStep::Done(None),
                        Some(i) => r matches FileReadStep::Read(lba, FileRead::Data(e)) && entry_matches(
                            e,
                            sector@,
                            32 * i,
                        ) && lba == lba_of(cluster_at(sector@, 32 * i), l.data_start as int, l.sectors_per_cluster as int),
                    }
                },
                FileRead::Data(e) => r matches FileReadStep::Done(Some(v)) && v@ == sector@.take(
                    if e.size < 512 { e.size as int } else { 512 },
                ),
            },
    {
        match self {
            FileRead::Boot(n) => {
                if !ok {
                    return FileReadStep::Done(None);
                }
                if read_le16(sector, 11) != 512 {
                    return FileReadStep::Done(None);
                }
                let l = match parse_layout(sector) {
                    Ok(l) => l,
                    Err(_) => return FileReadStep::Done(None),
                };
                let lba = cluster_to_lba(l.root_cluster, l.data_start, l.sectors_per_cluster);
                FileReadStep::Read(lba, FileRead::Root(n, l))
            },
            FileRead::Root(n, l) => {
                if !ok {
                    return FileReadStep::Done(None);
                }
                match find_root_entry(sector, n.as_slice()) {
                    None => FileReadStep::Done(None),
                    Some(e) => {
                        let lba = cluster_to_lba(e.cluster(), l.data_start, l.sectors_per_cluster);
                        FileReadStep::Read(lba, FileRead::Data(e))
                    },
                }
            },
            FileRead::Data(e) => FileReadStep::Done(Some(file_contents(sector, e.size))),
        }
    }
}


/// The boot sector's layout sums and root cluster fit the next step.
pub open spec fn boot_ok(ok: bool, s: Seq<u8>) -> bool {
    &&& s.len() == 512
    &&& ok && le16_at(s, 11) == 512 ==> {
        &&& layout_fits(s)
        &&& le32_at(s, 44) >= 2
        &&& lba_of(le32_at(s, 44) as int, data_start_of(s), s[13] as int) <= u32::MAX
    }
}

/// Listing the root directory, between one disk read and the next.
pub enum RootList {
    /// Waiting for the boot sector.
    Boot,
    /// Waiting for the root directory's first sector.
    Root,
}

/// What a step of listing the root directory asks for.
pub enum RootListStep {
    /// The sector to read next, and the state that takes it.
    Read(u32, RootList),
    /// The listing's lines, or one line saying why there is none.
    Done(Vec<Vec<u8>>),
}

/// Starts listing the root directory: the boot sector is read first.
pub fn list_root_files() -> (r: (u32, RootList))
    ensures
        r.0 == PARTITION_OFFSET,
        r.1 is Boot,
{
    (PARTITION_OFFSET, RootList::Boot)
}

impl RootList {
    pub open spec fn sector_ok(&self, ok: bool, s: Seq<u8>) -> bool {
        match *self {
            RootList::Boot => boot_ok(ok, s),
            RootList::Root => s.len() == 512,
        }
    }

    /// Whether `sector_ok` holds.
    pub fn check(&self, ok: bool, sector: &[u8]) -> (r: bool)
        ensures
            r == self.sector_ok(ok, sector@),
    {
        if sector.len() != 512 {
            return false;
        }
        match self {
            RootList::Boot => {
                if !(ok && read_le16(sector, 11) == 512) {
                    return true;
                }
                if !layout_fits_check(sector) {
                    return false;
                }
                match parse_layout(sector) {
                    Ok(l) => lba_fits(l.data_start, read_le32(sector, 44), l.sectors_per_cluster),
                    Err(_) => true,
                }
            },
            RootList::Root => true,
        }
    }

    /// Takes the sector just read (`ok` says whether the read succeeded) and
    /// says what comes next: the root directory's sector after the boot
    /// sector, then the listing.
    pub fn next(self, ok: bool, sector: &[u8]) -> (r: RootListStep)
        requires
            self.sector_ok(ok, sector@),
        ensures
            match self {
                RootList::Boot => if !ok {
                    r matches RootListStep::Done(ls) && views(ls@) == seq!["ATA Read Error".spec_bytes()]
                } else {
                    match layout_of(sector@) {
                        Err(e) => r matches RootListStep::Done(ls) && views(ls@) == seq![e.spec_bytes()],
                        Ok(l) => r matches RootListStep::Read(lba, RootList::Root) && lba == lba_of(
                            l.root_cluster as int,
                            l.data_start as int,
                            l.sectors_per_cluster as int,
                        ),
                    }
                },
                RootList::Root => if !ok {
                    r matches RootListStep::Done(ls) && views(ls@) == seq!["Failed to read Root Dir".spec_bytes()]
                } else {
                    r matches RootListStep::Done(ls) && views(ls@) == listing_from(sector@, 0)
                },
            },
    {
        match self {
            RootList::Boot => {
                if !ok {
                    return RootListStep::Done(listing_error("ATA Read Error"));
                }
                if read_le16(sector, 11) != 512 {
                    return RootListStep::Done(listing_error("Not valid FAT32 (invalid sector size)"));
                }
                match parse_layout(sector) {
                    Ok(l) => RootListStep::Read(
                        cluster_to_lba(l.root_cluster, l.data_start, l.sectors_per_cluster),
                        RootList::Root,
                    ),
                    Err(e) => RootListStep::Done(listing_error(e)),
                }
            },
            RootList::Root => {
                if !ok {
                    return RootListStep::Done(listing_error("Failed to read Root Dir"));
                }
                RootListStep::Done(root_listing(sector))
            },
        }
    }
}

} // verus!
