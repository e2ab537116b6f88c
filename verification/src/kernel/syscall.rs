//! The system calls that user programs make: their numbers, the table of open
//! files, and what each call answers.
use vstd::prelude::*;
use vstd::string::StringSliceAdditionalSpecFns;
use crate::text::{copy_bytes, copy_range, find_byte, next_byte, lemma_next_byte, push_decimal, push_str, utf8_valid, views, dec};
use crate::fs::{FileSystem, FsView, is_dir_in, is_file_in};
use crate::fs::ramfs::{RamFs, path_view};
use crate::kernel::task::scheduler::{Scheduler, Task, TaskState, first_running};

verus! {

pub const SYS_EXIT: u64 = 0;
pub const SYS_WRITE: u64 = 1;
pub const SYS_YIELD: u64 = 2;
pub const SYS_GETPID: u64 = 3;
pub const SYS_OPEN: u64 = 4;
pub const SYS_READ: u64 = 5;
pub const SYS_CLOSE: u64 = 6;
pub const SYS_STAT: u64 = 7;

/// The answer of a failed call: a bad descriptor, a missing file, a bad argument, no free descriptor.
pub const SYS_ERROR: u64 = 0xFFFF_FFFF_FFFF_FFFF;

/// Descriptors per table.
pub const MAX_FDS: usize = 16;
/// Descriptors kept for the standard streams.
pub const RESERVED_FDS: usize = 3;

/// The call a number names.
#[derive(Clone, Copy, PartialEq, Eq, Structural, Debug)]
pub enum Syscall {
    Exit,
    Write,
    Yield,
    GetPid,
    Open,
    Read,
    Close,
    Stat,
}

pub open spec fn syscall_of(nr: u64) -> Option<Syscall> {
    if nr == 0 { Some(Syscall::Exit) }
    else if nr == 1 { Some(Syscall::Write) }
    else if nr == 2 { Some(Syscall::Yield) }
    else if nr == 3 { Some(Syscall::GetPid) }
    else if nr == 4 { Some(Syscall::Open) }
    else if nr == 5 { Some(Syscall::Read) }
    else if nr == 6 { Some(Syscall::Close) }
    else if nr == 7 { Some(Syscall::Stat) }
    else { None }
}

/// The call a number names; `None` for an unknown number, which fails.
pub fn decode_syscall(nr: u64) -> (r: Option<Syscall>)
    ensures
        r == syscall_of(nr),
{
    if nr == SYS_EXIT { Some(Syscall::Exit) }
    else if nr == SYS_WRITE { Some(Syscall::Write) }
    else if nr == SYS_YIELD { Some(Syscall::Yield) }
    else if nr == SYS_GETPID { Some(Syscall::GetPid) }
    else if nr == SYS_OPEN { Some(Syscall::Open) }
    else if nr == SYS_READ { Some(Syscall::Read) }
    else if nr == SYS_CLOSE { Some(Syscall::Close) }
    else if nr == SYS_STAT { Some(Syscall::Stat) }
    else { None }
}

/// The nonempty pieces of `s` from `i` on, split at `/`.
pub open spec fn parts_from(s: Seq<u8>, i: int) -> Seq<Seq<u8>>
    decreases s.len() - i,
{
    if i < 0 || i >= s.len() {
        Seq::empty()
    } else if s[i] == 47 {
        parts_from(s, i + 1)
    } else {
        let j = next_byte(s, i, 47);
        proof {
            lemma_next_byte(s, i, 47);
        }
        seq![s.subrange(i, j)] + parts_from(s, j)
    }
}

/// A path's directories and its file name; both empty for a path of no names.
pub open spec fn split_path(s: Seq<u8>) -> (Seq<Seq<u8>>, Seq<u8>) {
    let ps = parts_from(s, 0);
    if ps.len() == 0 {
        (Seq::empty(), Seq::empty())
    } else {
        (ps.drop_last(), ps.last())
    }
}

/// Splits a path like `/docs/info.txt` into its directories and its file name.
pub fn parse_file_path(path: &[u8]) -> (r: (Vec<Vec<u8>>, Vec<u8>))
    ensures
        views(r.0@) == split_path(path@).0,
        r.1@ == split_path(path@).1,
{
    let mut parts: Vec<Vec<u8>> = Vec::new();
    let mut i: usize = 0;
    while i < path.len()
        invariant
            i <= path@.len(),
            views(parts@) + parts_from(path@, i as int) == parts_from(path@, 0),
        decreases path@.len() - i,
    {
        if path[i] == 47 {
            i = i + 1;
        } else {
            let j = find_byte(path, i, 47);
            proof {
                lemma_next_byte(path@, i as int, 47);
            }
            let ghost before = views(parts@);
            parts.push(copy_range(path, i, j));
            assert(views(parts@) + parts_from(path@, j as int) =~= before + parts_from(path@, i as int));
            i = j;
        }
    }
    assert(parts_from(path@, i as int) =~= Seq::<Seq<u8>>::empty());
    assert(views(parts@) =~= parts_from(path@, 0));
    if parts.len() == 0 {
        return (Vec::new(), Vec::new());
    }
    let ghost ps = views(parts@);
    let name = parts.pop().unwrap();
    assert(views(parts@) =~= ps.drop_last());
    (parts, name)
}

/// An open file: where it is and how far it has been read.
pub struct OpenFile {
    pub path: Vec<Vec<u8>>,
    pub name: Vec<u8>,
    pub offset: usize,
}

/// An open file as values.
pub open spec fn open_view(f: OpenFile) -> (Seq<Seq<u8>>, Seq<u8>, nat) {
    (path_view(f.path@), f.name@, f.offset as nat)
}

/// A task's descriptor table: the standard streams, then open files.
pub struct FdTable {
    files: Vec<Option<OpenFile>>,
}

impl View for FdTable {
    type V = Seq<Option<(Seq<Seq<u8>>, Seq<u8>, nat)>>;

    closed spec fn view(&self) -> Self::V {
        self.files@.map_values(|o: Option<OpenFile>| match o {
            Some(f) => Some(open_view(f)),
            None => None,
        })
    }
}

impl FdTable {
    pub closed spec fn wf(&self) -> bool {
        &&& self.files@.len() == MAX_FDS
        &&& forall|i: int| 0 <= i < RESERVED_FDS ==> (#[trigger] self.files@[i]) is None
    }

    proof fn lemma_view(&self)
        requires
            self.wf(),
        ensures
            self@.len() == MAX_FDS,
            forall|i: int| 0 <= i < MAX_FDS ==> (#[trigger] self@[i] is Some) == (self.files@[i] is Some),
            forall|i: int| 0 <= i < MAX_FDS && #[trigger] self.files@[i] is Some ==> self@[i] == Some(
                open_view(self.files@[i]->0),
            ),
    {
    }

    /// A table with no file open.
    pub fn new() -> (t: FdTable)
        ensures
            t.wf(),
            t@ == Seq::new(MAX_FDS as nat, |i: int| None::<(Seq<Seq<u8>>, Seq<u8>, nat)>),
    {
        let mut files: Vec<Option<OpenFile>> = Vec::new();
        let mut i: usize = 0;
        while i < MAX_FDS
            invariant
                i <= MAX_FDS,
                files@.len() == i,
                forall|k: int| 0 <= k < i ==> (#[trigger] files@[k]) is None,
            decreases MAX_FDS - i,
        {
            files.push(None);
            i = i + 1;
        }
        let t = FdTable { files };
        assert(t@ =~= Seq::new(MAX_FDS as nat, |i: int| None::<(Seq<Seq<u8>>, Seq<u8>, nat)>));
        t
    }

    /// The lowest free descriptor after the standard streams.
    pub fn alloc_fd(&self) -> (r: Option<usize>)
        requires
            self.wf(),
        ensures
            match r {
                Some(fd) => RESERVED_FDS <= fd < MAX_FDS && self@[fd as int] is None && forall|k: int|
                    RESERVED_FDS <= k < fd ==> (#[trigger] self@[k]) is Some,
                None => forall|k: int| RESERVED_FDS <= k < MAX_FDS ==> (#[trigger] self@[k]) is Some,
            },
    {
        proof {
            self.lemma_view();
        }
        let mut i = RESERVED_FDS;
        while i < MAX_FDS
            invariant
                RESERVED_FDS <= i <= MAX_FDS,
                self.wf(),
                forall|k: int| RESERVED_FDS <= k < i ==> (#[trigger] self@[k]) is Some,
            decreases MAX_FDS - i,
        {
            proof {
                self.lemma_view();
            }
            if self.files[i].is_none() {
                return Some(i);
            }
            i = i + 1;
        }
        None
    }

    /// Opens a file for reading by its path from the root.
    pub fn sys_open(&mut self, path: &[u8], fs: &RamFs) -> (r: u64)
        requires
            old(self).wf(),
            fs.fs_wf(),
        ensures
            final(self).wf(),
            ({
                let (dir, name) = split_path(path@);
                let v = fs.fs_view();
                if !vstd::utf8::valid_utf8(path@) {
                    r == SYS_ERROR && final(self)@ == old(self)@
                } else if !v.contains_key(dir.push(name)) || is_dir_in(v, dir.push(name)) {
                    r == SYS_ERROR && final(self)@ == old(self)@
                } else if forall|k: int| RESERVED_FDS <= k < MAX_FDS ==> (#[trigger] old(self)@[k]) is Some {
                    r == SYS_ERROR && final(self)@ == old(self)@
                } else {
                    &&& RESERVED_FDS <= r < MAX_FDS
                    &&& old(self)@[r as int] is None
                    &&& forall|k: int| RESERVED_FDS <= k < r ==> (#[trigger] old(self)@[k]) is Some
                    &&& final(self)@ == old(self)@.update(r as int, Some((dir, name, 0nat)))
                }
            }),
    {
        if !utf8_valid(path) {
            return SYS_ERROR;
        }
        let (dir, name) = parse_file_path(path);
        proof {
            assert(path_view(dir@) =~= views(dir@));
        }
        if !fs.entry_exists(dir.as_slice(), name.as_slice()) {
            return SYS_ERROR;
        }
        if fs.is_dir(dir.as_slice(), name.as_slice()) {
            return SYS_ERROR;
        }
        let fd = match self.alloc_fd() {
            Some(fd) => fd,
            None => return SYS_ERROR,
        };
        let ghost before = self@;
        self.files.set(fd, Some(OpenFile { path: dir, name, offset: 0 }));
        proof {
            assert(self@ =~= before.update(fd as int, Some((split_path(path@).0, split_path(path@).1, 0nat))));
        }
        fd as u64
    }

    /// Reads up to `len` bytes from an open file at its offset, which moves past
    /// them; the bytes are returned for the caller to copy out.
    pub fn sys_read(&mut self, fd: u64, len: u64, fs: &RamFs) -> (r: (u64, Vec<u8>))
        requires
            old(self).wf(),
            fs.fs_wf(),
        ensures
            final(self).wf(),
            fd >= MAX_FDS || old(self)@[fd as int] is None ==> r.0 == SYS_ERROR && r.1@.len() == 0
                && final(self)@ == old(self)@,
            fd < MAX_FDS && old(self)@[fd as int] is Some ==> {
                let (dir, name, off) = old(self)@[fd as int]->0;
                let v = fs.fs_view();
                if !is_file_in(v, dir.push(name)) {
                    r.0 == SYS_ERROR && r.1@.len() == 0 && final(self)@ == old(self)@
                } else {
                    let data = v[dir.push(name)]->File_0;
                    let rest = if off < data.len() { data.skip(off as int) } else { Seq::empty() };
                    let n = if rest.len() < (len as usize) { rest.len() } else { (len as usize) as nat };
                    &&& r.1@ == rest.take(n as int)
                    &&& r.0 == n
                    &&& final(self)@ == old(self)@.update(fd as int, Some((dir, name, off + n)))
                }
            },
    {
        proof {
            self.lemma_view();
        }
        if fd >= MAX_FDS as u64 {
            return (SYS_ERROR, Vec::new());
        }
        let i = fd as usize;
        let (data_opt, off) = match &self.files[i] {
            Some(f) => (fs.read(f.path.as_slice(), f.name.as_slice()), f.offset),
            None => return (SYS_ERROR, Vec::new()),
        };
        let data = match data_opt {
            Some(d) => d,
            None => return (SYS_ERROR, Vec::new()),
        };
        let start = if off < data.len() { off } else { data.len() };
        assert(off < data@.len() ==> off + (data@.len() - off) <= usize::MAX);
        let avail = data.len() - start;
        let want = len as usize;
        let n = if avail < want { avail } else { want };
        let bytes = copy_range(data, start, start + n);
        proof {
            let rest = if off < data@.len() { data@.skip(off as int) } else { Seq::<u8>::empty() };
            assert(bytes@ =~= rest.take(n as int));
        }
        let ghost before = self.files@;
        let old_file = self.files.remove(i);
        let new_file = match old_file {
            Some(f) => Some(OpenFile { path: f.path, name: f.name, offset: off + n }),
            None => None,
        };
        self.files.insert(i, new_file);
        proof {
            assert(self.files@ =~= before.update(i as int, new_file));
            let (d, nm, o) = old(self)@[fd as int]->0;
            assert(self@ =~= old(self)@.update(fd as int, Some((d, nm, (off + n) as nat))));
        }
        (n as u64, bytes)
    }
}


impl FdTable {
    /// Closes an open file; the standard streams cannot be closed.
    pub fn sys_close(&mut self, fd: u64) -> (r: u64)
        requires
            old(self).wf(),
        ensures
            final(self).wf(),
            if RESERVED_FDS <= fd < MAX_FDS && old(self)@[fd as int] is Some {
                r == 0 && final(self)@ == old(self)@.update(fd as int, None)
            } else {
                r == SYS_ERROR && final(self)@ == old(self)@
            },
    {
        proof {
            self.lemma_view();
        }
        if fd < RESERVED_FDS as u64 || fd >= MAX_FDS as u64 {
            return SYS_ERROR;
        }
        let i = fd as usize;
        if self.files[i].is_some() {
            let ghost before = self.files@;
            self.files.set(i, None);
            assert(self@ =~= old(self)@.update(fd as int, None));
            0
        } else {
            SYS_ERROR
        }
    }

    /// Closes every open file, as a task's exit does.
    pub fn sys_exit(&mut self)
        requires
            old(self).wf(),
        ensures
            final(self).wf(),
            final(self)@ == Seq::new(MAX_FDS as nat, |i: int| None::<(Seq<Seq<u8>>, Seq<u8>, nat)>),
    {
        let mut i = RESERVED_FDS;
        while i < MAX_FDS
            invariant
                RESERVED_FDS <= i <= MAX_FDS,
                self.wf(),
                forall|k: int| 0 <= k < i ==> (#[trigger] self.files@[k]) is None,
            decreases MAX_FDS - i,
        {
            self.files.set(i, None);
            i = i + 1;
        }
        assert(self@ =~= Seq::new(MAX_FDS as nat, |i: int| None::<(Seq<Seq<u8>>, Seq<u8>, nat)>));
    }
}

/// The size of a file by its path from the root.
pub fn sys_stat(path: &[u8], fs: &RamFs) -> (r: u64)
    requires
        fs.fs_wf(),
    ensures
        ({
            let (dir, name) = split_path(path@);
            let v = fs.fs_view();
            if vstd::utf8::valid_utf8(path@) && is_file_in(v, dir.push(name)) {
                r == (v[dir.push(name)]->File_0).len()
            } else {
                r == SYS_ERROR
            }
        }),
{
    if !utf8_valid(path) {
        return SYS_ERROR;
    }
    let (dir, name) = parse_file_path(path);
    proof {
        assert(path_view(dir@) =~= views(dir@));
    }
    match fs.read(dir.as_slice(), name.as_slice()) {
        Some(data) => data.len() as u64,
        None => SYS_ERROR,
    }
}

/// A byte a terminal shows of text that is not UTF-8: printable ASCII or a new line.
pub open spec fn printable(b: u8) -> bool {
    (0x20 <= b && b <= 0x7e) || b == 10
}

/// What a write to the screen shows, and what it answers.
pub open spec fn write_result(fd: u64, bytes: Seq<u8>) -> (u64, Seq<u8>) {
    if fd != 1 && fd != 2 {
        (SYS_ERROR, Seq::empty())
    } else if vstd::utf8::valid_utf8(bytes) {
        (bytes.len() as u64, bytes)
    } else {
        (bytes.len() as u64, bytes.filter(|b: u8| printable(b)))
    }
}

/// A write to the standard output or error: the bytes to show, and the answer.
pub fn sys_write(fd: u64, bytes: &[u8]) -> (r: (u64, Vec<u8>))
    ensures
        (r.0, r.1@) == write_result(fd, bytes@),
{
    if fd != 1 && fd != 2 {
        return (SYS_ERROR, Vec::new());
    }
    if utf8_valid(bytes) {
        return (bytes.len() as u64, copy_bytes(bytes));
    }
    let mut out: Vec<u8> = Vec::new();
    let mut i: usize = 0;
    while i < bytes.len()
        invariant
            i <= bytes@.len(),
            out@ == bytes@.take(i as int).filter(|b: u8| printable(b)),
        decreases bytes@.len() - i,
    {
        proof {
            bytes@.take(i as int).lemma_filter_push(bytes@[i as int], |b: u8| printable(b));
            assert(bytes@.take(i + 1) =~= bytes@.take(i as int).push(bytes@[i as int]));
        }
        let b = bytes[i];
        if (0x20 <= b && b <= 0x7e) || b == 10 {
            out.push(b);
        }
        i = i + 1;
    }
    assert(bytes@.take(i as int) =~= bytes@);
    (bytes.len() as u64, out)
}

/// The id of the running task, or 0 when none runs.
pub fn sys_getpid(sched: &Scheduler) -> (r: u64)
    ensures
        r == match first_running(sched.tasks_spec(), 0) {
            Some(k) => sched.tasks_spec()[k].id.0,
            None => 0,
        },
{
    let ts = sched.task_list();
    let mut i: usize = 0;
    while i < ts.len()
        invariant
            i <= ts@.len(),
            ts@ == sched.tasks_spec(),
            first_running(ts@, 0) == first_running(ts@, i as int),
        decreases ts@.len() - i,
    {
        if ts[i].state == TaskState::Running {
            return ts[i].id.0;
        }
        i = i + 1;
    }
    0
}

/// The instructions of the `hello` program, before its message: the x86_64
/// encodings, in order, of `mov rax, 1` (write), `mov rdi, 1` (standard
/// output), `lea rsi, [rip + 21]` (the message, 21 bytes past this
/// instruction's end), `mov rdx, 22` (its length), `syscall`, `mov rax, 0`
/// (exit), `xor rdi, rdi` (code 0) and `syscall`.
pub open spec fn hello_instructions() -> Seq<u8> {
    seq![
        0x48u8, 0xC7, 0xC0, 0x01, 0x00, 0x00, 0x00,
        0x48, 0xC7, 0xC7, 0x01, 0x00, 0x00, 0x00,
        0x48, 0x8D, 0x35, 0x15, 0x00, 0x00, 0x00,
        0x48, 0xC7, 0xC2, 0x16, 0x00, 0x00, 0x00,
        0x0F, 0x05,
        0x48, 0xC7, 0xC0, 0x00, 0x00, 0x00, 0x00,
        0x48, 0x31, 0xFF,
        0x0F, 0x05
    ]
}

/// The built-in `hello` program's raw x86_64 machine code: it writes
/// "Hello from user mode!\n" to standard output with the write call, then
/// exits with code 0; the message follows the instructions.
pub fn hello_program() -> (r: &'static [u8])
    ensures
        r@ == hello_instructions() + "Hello from user mode!\n".spec_bytes(),
        r@.len() == 64,
        r@[3] == SYS_WRITE && r@[33] == SYS_EXIT,
{
    let code: &'static [u8] = &[
        0x48, 0xC7, 0xC0, 0x01, 0x00, 0x00, 0x00, 0x48, 0xC7, 0xC7, 0x01, 0x00, 0x00, 0x00, 0x48, 0x8D, 0x35, 0x15, 0x00, 0x00, 0x00, 0x48, 0xC7, 0xC2, 0x16, 0x00, 0x00, 0x00, 0x0F, 0x05, 0x48, 0xC7, 0xC0, 0x00, 0x00, 0x00, 0x00, 0x48, 0x31, 0xFF, 0x0F, 0x05, 0x48, 0x65, 0x6C, 0x6C, 0x6F, 0x20, 0x66, 0x72, 0x6F, 0x6D, 0x20, 0x75, 0x73, 0x65, 0x72, 0x20, 0x6D, 0x6F, 0x64, 0x65, 0x21, 0x0A
    ];
    proof {
        reveal_strlit("Hello from user mode!\n");
        vstd::string::is_ascii_spec_bytes("Hello from user mode!\n");
        assert(code@ =~= hello_instructions() + "Hello from user mode!\n".spec_bytes());
    }
    code
}

/// The line the `hello` program prints for its task id.
pub fn pid_line(pid: u64) -> (r: Vec<u8>)
    ensures
        r@ == dec(pid as nat).push(10u8),
{
    let mut out: Vec<u8> = Vec::new();
    push_decimal(&mut out, pid);
    out.push(10u8);
    out
}

/// The line the `counter` program prints at step `i`: its last digit.
pub fn counter_line(i: u64) -> (r: [u8; 2])
    ensures
        r@ == seq![(48 + i % 10) as u8, 10u8],
{
    let r: [u8; 2] = [(48 + i % 10) as u8, 10u8];
    assert(r@ =~= seq![(48 + i % 10) as u8, 10u8]);
    r
}


/// A system call that a built-in program makes.
pub enum UserCall {
    /// Writes the bytes to the standard output.
    Write(Vec<u8>),
    GetPid,
    Yield,
    Exit,
}

/// A call as its number and the bytes it writes.
pub open spec fn call_view(c: UserCall) -> (u64, Seq<u8>) {
    match c {
        UserCall::Write(b) => (SYS_WRITE, b@),
        UserCall::GetPid => (SYS_GETPID, Seq::empty()),
        UserCall::Yield => (SYS_YIELD, Seq::empty()),
        UserCall::Exit => (SYS_EXIT, Seq::empty()),
    }
}

/// The calls of the `hello` program, in order, when `getpid` answers `pid`:
/// two writes, `getpid`, the id on a line, three yields, and exit.
pub open spec fn hello_calls(pid: u64) -> Seq<(u64, Seq<u8>)> {
    seq![
        (SYS_WRITE, "Hello from user mode!\n".spec_bytes()),
        (SYS_WRITE, "Syscall getpid returned: ".spec_bytes()),
        (SYS_GETPID, Seq::empty()),
        (SYS_WRITE, dec(pid as nat).push(10u8)),
        (SYS_YIELD, Seq::empty()),
        (SYS_YIELD, Seq::empty()),
        (SYS_YIELD, Seq::empty()),
        (SYS_EXIT, Seq::empty()),
    ]
}

/// The `hello` program, one call at a time: the call it makes at `step`, where
/// `pid` is what its `getpid` answered; `None` once it has exited.
pub fn run_user_hello(step: usize, pid: u64) -> (r: Option<UserCall>)
    ensures
        step < hello_calls(pid).len() ==> (r matches Some(c) && call_view(c) == hello_calls(pid)[step as int]),
        step >= hello_calls(pid).len() ==> r is None,
{
    if step == 0 {
        let mut b: Vec<u8> = Vec::new();
        push_str(&mut b, "Hello from user mode!\n");
        Some(UserCall::Write(b))
    } else if step == 1 {
        let mut b: Vec<u8> = Vec::new();
        push_str(&mut b, "Syscall getpid returned: ");
        Some(UserCall::Write(b))
    } else if step == 2 {
        Some(UserCall::GetPid)
    } else if step == 3 {
        Some(UserCall::Write(pid_line(pid)))
    } else if step < 7 {
        Some(UserCall::Yield)
    } else if step == 7 {
        Some(UserCall::Exit)
    } else {
        None
    }
}

/// The call of the `counter` program at `step`: for each count from 1 to 5 a
/// label, the count's last digit on a line, and a yield; then a closing line.
pub open spec fn counter_call(step: nat) -> Option<(u64, Seq<u8>)> {
    if step < 15 {
        let i = step / 3 + 1;
        if step % 3 == 0 {
            Some((SYS_WRITE, "[usercount] Krok ".spec_bytes()))
        } else if step % 3 == 1 {
            Some((SYS_WRITE, seq![(48 + i % 10) as u8, 10u8]))
        } else {
            Some((SYS_YIELD, Seq::empty()))
        }
    } else if step == 15 {
        Some((SYS_WRITE, "[usercount] Zakonczony.\n".spec_bytes()))
    } else {
        None
    }
}

/// The `counter` program, one call at a time: the call it makes at `step`;
/// `None` once it has finished.
pub fn run_user_counter(step: usize) -> (r: Option<UserCall>)
    ensures
        match counter_call(step as nat) {
            Some(v) => r matches Some(c) && call_view(c) == v,
            None => r is None,
        },
{
    if step < 15 {
        let i = (step / 3 + 1) as u64;
        if step % 3 == 0 {
            let mut b: Vec<u8> = Vec::new();
            push_str(&mut b, "[usercount] Krok ");
            Some(UserCall::Write(b))
        } else if step % 3 == 1 {
            let line = counter_line(i);
            let mut b: Vec<u8> = Vec::new();
            b.push(line[0]);
            b.push(line[1]);
            assert(b@ =~= seq![(48 + i % 10) as u8, 10u8]);
            Some(UserCall::Write(b))
        } else {
            Some(UserCall::Yield)
        }
    } else if step == 15 {
        let mut b: Vec<u8> = Vec::new();
        push_str(&mut b, "[usercount] Zakonczony.\n");
        Some(UserCall::Write(b))
    } else {
        None
    }
}

} // verus!
