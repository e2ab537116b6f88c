//! The shell commands that report on or act through the kernel: their
//! arguments, the texts they answer, and the disk image that `save` and
//! `load` move.
use vstd::prelude::*;
use vstd::string::StringSliceAdditionalSpecFns;
use crate::text::{append_bytes, bytes_eq, copy_bytes, contains_bytes, dec, first_word, first_word_of, has_sub, join_lines, join_lines_exec, pad_zero, parse_nat, parse_u64, push_decimal, push_padded, push_str, views};
use crate::fs::FileSystem;
use crate::kernel::task::scheduler::{Scheduler, Task, TaskId, TaskState, kept_tasks, with_state, first_running};

verus! {

/// Timer interrupts per second.
pub const TIMER_HZ: u64 = 100;

/// `n` spaces.
pub open spec fn spaces(n: nat) -> Seq<u8> {
    Seq::new(n, |i: int| 32u8)
}

/// `s` with spaces in front up to `w` bytes.
pub open spec fn pad_left(s: Seq<u8>, w: nat) -> Seq<u8> {
    if s.len() >= w {
        s
    } else {
        spaces((w - s.len()) as nat) + s
    }
}

/// `s` with spaces behind up to `w` bytes.
pub open spec fn pad_right(s: Seq<u8>, w: nat) -> Seq<u8> {
    if s.len() >= w {
        s
    } else {
        s + spaces((w - s.len()) as nat)
    }
}

pub fn push_spaces(out: &mut Vec<u8>, n: usize)
    ensures
        final(out)@ == old(out)@ + spaces(n as nat),
{
    let mut i: usize = 0;
    while i < n
        invariant
            i <= n,
            out@ == old(out)@ + spaces(i as nat),
        decreases n - i,
    {
        out.push(32u8);
        assert(out@ =~= old(out)@ + spaces((i + 1) as nat));
        i = i + 1;
    }
}

/// A number with at least two digits.
pub open spec fn two_digits(n: nat) -> Seq<u8> {
    pad_zero(dec(n), 2)
}

fn push_two_digits(out: &mut Vec<u8>, n: u64)
    ensures
        final(out)@ == old(out)@ + two_digits(n as nat),
{
    let mut d: Vec<u8> = Vec::new();
    push_decimal(&mut d, n);
    push_padded(out, d.as_slice(), 2);
}

/// What `uptime` answers after `t` timer ticks.
pub open spec fn uptime_text(t: nat) -> Seq<u8> {
    let secs = t / 100;
    "Uptime: ".spec_bytes() + dec(secs / 3600) + "h ".spec_bytes() + two_digits((secs % 3600) / 60)
        + "m ".spec_bytes() + two_digits(secs % 60) + "s (".spec_bytes() + dec(t)
        + " tickow @ 100Hz)".spec_bytes()
}

pub fn cmd_uptime(ticks: u64) -> (r: Vec<u8>)
    ensures
        r@ == uptime_text(ticks as nat),
{
    let secs = ticks / TIMER_HZ;
    let mut out: Vec<u8> = Vec::new();
    push_str(&mut out, "Uptime: ");
    push_decimal(&mut out, secs / 3600);
    push_str(&mut out, "h ");
    push_two_digits(&mut out, (secs % 3600) / 60);
    push_str(&mut out, "m ");
    push_two_digits(&mut out, secs % 60);
    push_str(&mut out, "s (");
    push_decimal(&mut out, ticks);
    push_str(&mut out, " tickow @ 100Hz)");
    out
}

/// The clock on the status bar after `t` ticks, on each whole second.
pub open spec fn status_clock(t: nat) -> Option<Seq<u8>> {
    if t % 100 == 0 {
        let secs = t / 100;
        Some(seq![32u8] + dec(secs / 3600) + "h ".spec_bytes() + two_digits((secs % 3600) / 60) + "m ".spec_bytes()
            + two_digits(secs % 60) + "s ".spec_bytes())
    } else {
        None
    }
}

pub fn tick_status(ticks: u64) -> (r: Option<Vec<u8>>)
    ensures
        match status_clock(ticks as nat) {
            Some(s) => r matches Some(v) && v@ == s,
            None => r is None,
        },
{
    if ticks % TIMER_HZ != 0 {
        return None;
    }
    let secs = ticks / TIMER_HZ;
    let mut out: Vec<u8> = Vec::new();
    out.push(32u8);
    push_decimal(&mut out, secs / 3600);
    push_str(&mut out, "h ");
    push_two_digits(&mut out, (secs % 3600) / 60);
    push_str(&mut out, "m ");
    push_two_digits(&mut out, secs % 60);
    push_str(&mut out, "s ");
    Some(out)
}

/// A fixed-size text buffer: what does not fit is dropped.
pub struct FmtBuf {
    buf: Vec<u8>,
}

/// The buffer's capacity in bytes.
pub const FMT_BUF_SIZE: usize = 40;

impl FmtBuf {
    pub closed spec fn contents(&self) -> Seq<u8> {
        self.buf@
    }

    pub fn new() -> (b: FmtBuf)
        ensures
            b.contents() == Seq::<u8>::empty(),
    {
        FmtBuf { buf: Vec::new() }
    }

    /// Appends as much of `s` as fits.
    pub fn write_str(&mut self, s: &[u8])
        requires
            old(self).contents().len() <= FMT_BUF_SIZE,
        ensures
            final(self).contents().len() <= FMT_BUF_SIZE,
            final(self).contents() == (old(self).contents() + s@).take(
                if old(self).contents().len() + s@.len() <= FMT_BUF_SIZE {
                    (old(self).contents().len() + s@.len()) as int
                } else {
                    FMT_BUF_SIZE as int
                },
            ),
    {
        let mut i: usize = 0;
        let ghost c0 = self.buf@;
        while i < s.len()
            invariant
                i <= s@.len(),
                c0 == old(self).contents(),
                c0.len() <= FMT_BUF_SIZE,
                self.buf@ == (c0 + s@).take(
                    if c0.len() + i <= FMT_BUF_SIZE { c0.len() + i } else { FMT_BUF_SIZE as int },
                ),
            decreases s@.len() - i,
        {
            if self.buf.len() < FMT_BUF_SIZE {
                self.buf.push(s[i]);
            }
            assert(self.buf@ =~= (c0 + s@).take(
                if c0.len() + i + 1 <= FMT_BUF_SIZE { c0.len() + i + 1 } else { FMT_BUF_SIZE as int },
            ));
            i = i + 1;
        }
    }

    pub fn as_bytes(&self) -> (r: &[u8])
        ensures
            r@ == self.contents(),
    {
        self.buf.as_slice()
    }
}

/// What `info` answers, given the heap's used and free bytes and whether the disk answered.
pub open spec fn info_text(used: nat, free: nat, ata: bool) -> Seq<u8> {
    "=== Informacje systemowe ===\n  System:        PolarOs v0.1.0\n  Architektura:  x86_64\n  Jezyk:         Rust (nightly)\n  Klawiatura:    PS/2 (IRQ1)\n  Heap:          ".spec_bytes()
        + dec(used / 1024) + seq![47u8] + dec((used + free) / 1024)
        + " KiB\n  Filesystem:    RamFs (drzewo katalogow)\n  Dysk ATA:      ".spec_bytes()
        + if ata { "dostepny".spec_bytes() } else { "niedostepny".spec_bytes() }
}

pub fn cmd_info(heap_used: usize, heap_free: usize, ata_available: bool) -> (r: Vec<u8>)
    requires
        heap_used + heap_free <= usize::MAX,
    ensures
        r@ == info_text(heap_used as nat, heap_free as nat, ata_available),
{
    let total_kb = (heap_used + heap_free) / 1024;
    let used_kb = heap_used / 1024;
    let mut out: Vec<u8> = Vec::new();
    push_str(&mut out, "=== Informacje systemowe ===\n  System:        PolarOs v0.1.0\n  Architektura:  x86_64\n  Jezyk:         Rust (nightly)\n  Klawiatura:    PS/2 (IRQ1)\n  Heap:          ");
    push_decimal(&mut out, used_kb as u64);
    out.push(47u8);
    push_decimal(&mut out, total_kb as u64);
    push_str(&mut out, " KiB\n  Filesystem:    RamFs (drzewo katalogow)\n  Dysk ATA:      ");
    if ata_available {
        push_str(&mut out, "dostepny");
    } else {
        push_str(&mut out, "niedostepny");
    }
    out
}

/// A task state as `ps` shows it, padded to one width.
pub open spec fn state_label(s: TaskState) -> Seq<u8> {
    match s {
        TaskState::Ready => "Ready      ".spec_bytes(),
        TaskState::Running => "Running    ".spec_bytes(),
        TaskState::Terminated => "Terminated ".spec_bytes(),
    }
}

pub open spec fn ps_line(t: Task) -> Seq<u8> {
    seq![32u8, 32u8] + pad_left(dec(t.id.0 as nat), 3) + seq![32u8] + state_label(t.state) + seq![32u8, 32u8]
        + t.name.spec_bytes()
}

/// What `ps` answers: a header, then one line per task in table order.
pub open spec fn ps_text(ts: Seq<Task>) -> Seq<u8> {
    join_lines(seq!["  ID  STAN         NAZWA".spec_bytes()] + Seq::new(ts.len(), |i: int| ps_line(ts[i])))
}

pub fn cmd_ps(sched: &Scheduler) -> (r: Vec<u8>)
    ensures
        r@ == ps_text(sched.tasks_spec()),
{
    let ts = sched.task_list();
    let ghost body = Seq::new(ts@.len(), |i: int| ps_line(ts@[i]));
    let ghost all = seq!["  ID  STAN         NAZWA".spec_bytes()] + body;
    let mut ls: Vec<Vec<u8>> = Vec::new();
    let mut head: Vec<u8> = Vec::new();
    push_str(&mut head, "  ID  STAN         NAZWA");
    ls.push(head);
    let mut i: usize = 0;
    while i < ts.len()
        invariant
            i <= ts@.len(),
            body == Seq::new(ts@.len(), |i: int| ps_line(ts@[i])),
            all == seq!["  ID  STAN         NAZWA".spec_bytes()] + body,
            views(ls@) == all.take(i + 1),
        decreases ts@.len() - i,
    {
        let t = &ts[i];
        let mut line: Vec<u8> = Vec::new();
        line.push(32u8);
        line.push(32u8);
        let mut d: Vec<u8> = Vec::new();
        push_decimal(&mut d, t.id.0);
        if d.len() < 3 {
            push_spaces(&mut line, 3 - d.len());
        }
        append_bytes(&mut line, d.as_slice());
        line.push(32u8);
        match t.state {
            TaskState::Ready => push_str(&mut line, "Ready      "),
            TaskState::Running => push_str(&mut line, "Running    "),
            TaskState::Terminated => push_str(&mut line, "Terminated "),
        }
        line.push(32u8);
        line.push(32u8);
        push_str(&mut line, t.name);
        assert(line@ =~= ps_line(ts@[i as int]));
        let ghost before = views(ls@);
        ls.push(line);
        assert(views(ls@) =~= before.push(all[i + 1]));
        assert(views(ls@) =~= all.take(i + 2));
        i = i + 1;
    }
    assert(all.take(i + 1) =~= all);
    join_lines_exec(&ls)
}

/// The task id that `kill` is asked for, or the message that refuses it.
pub open spec fn kill_parse(args: Seq<u8>) -> Result<u64, Seq<u8>> {
    match first_word(args) {
        None => Err("Uzycie: kill <id>".spec_bytes()),
        Some(w) => match parse_nat(w) {
            Some(v) => if v > u64::MAX {
                Err("Nieprawidlowy ID: '".spec_bytes() + w + seq![39u8])
            } else if v == 0 {
                Err("Nie mozna zabic taska jadra (ID=0).".spec_bytes())
            } else {
                Ok(v as u64)
            },
            None => Err("Nieprawidlowy ID: '".spec_bytes() + w + seq![39u8]),
        },
    }
}

/// A task with this id that has not terminated yet.
pub open spec fn killable(ts: Seq<Task>, id: u64) -> bool {
    exists|i: int| 0 <= i < ts.len() && (#[trigger] ts[i]).id == TaskId(id) && ts[i].state != TaskState::Terminated
}

/// The tasks with the one of this id marked terminated.
pub open spec fn mark_terminated(ts: Seq<Task>, id: u64) -> Seq<Task> {
    Seq::new(ts.len(), |i: int| if ts[i].id == TaskId(id) { with_state(ts[i], TaskState::Terminated) } else { ts[i] })
}

pub open spec fn kill_report(id: u64, done: bool) -> Seq<u8> {
    if done {
        "Zakonczono task ID=".spec_bytes() + dec(id as nat) + seq![46u8]
    } else {
        "Nie znaleziono aktywnego taska o ID=".spec_bytes() + dec(id as nat) + seq![46u8]
    }
}

fn kill_args(args: &[u8]) -> (r: Result<u64, Vec<u8>>)
    ensures
        match kill_parse(args@) {
            Ok(id) => r matches Ok(v) && v == id,
            Err(e) => r matches Err(m) && m@ == e,
        },
{
    let w = match first_word_of(args) {
        Some(w) => w,
        None => {
            let mut m: Vec<u8> = Vec::new();
            push_str(&mut m, "Uzycie: kill <id>");
            return Err(m);
        },
    };
    match parse_u64(w.as_slice()) {
        Some(v) => {
            if v == 0 {
                let mut m: Vec<u8> = Vec::new();
                push_str(&mut m, "Nie mozna zabic taska jadra (ID=0).");
                Err(m)
            } else {
                Ok(v)
            }
        },
        None => {
            let mut m: Vec<u8> = Vec::new();
            push_str(&mut m, "Nieprawidlowy ID: '");
            append_bytes(&mut m, w.as_slice());
            m.push(39u8);
            Err(m)
        },
    }
}

/// `kill`: ends the task and drops the terminated ones from the table.
pub fn cmd_kill(args: &[u8], sched: &mut Scheduler) -> (r: Vec<u8>)
    requires
        old(sched).wf(),
    ensures
        match kill_parse(args@) {
            Err(e) => r@ == e && final(sched).tasks_spec() == old(sched).tasks_spec()
                && final(sched).current_spec() == old(sched).current_spec() && final(sched).wf(),
            Ok(id) => {
                &&& r@ == kill_report(id, killable(old(sched).tasks_spec(), id))
                &&& killable(old(sched).tasks_spec(), id) ==> {
                    let ts = mark_terminated(old(sched).tasks_spec(), id);
                    let cur = old(sched).current_spec();
                    &&& final(sched).tasks_spec() == kept_tasks(ts, ts[cur].id)
                    &&& final(sched).current_spec() == kept_tasks(ts.take(cur), ts[cur].id).len()
                    &&& final(sched).tasks_spec()[final(sched).current_spec()] == ts[cur]
                }
                &&& !killable(old(sched).tasks_spec(), id) ==> final(sched).tasks_spec() == old(
                    sched,
                ).tasks_spec() && final(sched).current_spec() == old(sched).current_spec()
            },
        },
        final(sched).wf(),
        final(sched).next_id_spec() == old(sched).next_id_spec(),
{
    let id = match kill_args(args) {
        Ok(id) => id,
        Err(m) => return m,
    };
    let ghost ts0 = sched.tasks_spec();
    let done = sched.kill_task(TaskId(id));
    if done {
        proof {
            let ts1 = sched.tasks_spec();
            assert forall|i: int| 0 <= i < ts0.len() implies ts1[i] == mark_terminated(ts0, id)[i] by {
                if ts0[i].id == TaskId(id) && ts0[i].state == TaskState::Terminated {
                    let j = choose|j: int| 0 <= j < ts0.len() && (#[trigger] ts0[j]).id == TaskId(id) && ts0[j].state != TaskState::Terminated;
                    if j < i {
                        assert(ts0[j].id.0 < ts0[i].id.0);
                    } else if j > i {
                        assert(ts0[i].id.0 < ts0[j].id.0);
                    }
                }
            }
            assert(ts1 =~= mark_terminated(ts0, id));
        }
        sched.cleanup_terminated();
    }
    let mut out: Vec<u8> = Vec::new();
    if done {
        push_str(&mut out, "Zakonczono task ID=");
    } else {
        push_str(&mut out, "Nie znaleziono aktywnego taska o ID=");
    }
    push_decimal(&mut out, id);
    out.push(46u8);
    out
}


/// The demo tasks that `spawn` starts.
#[derive(Clone, Copy, PartialEq, Eq, Structural, Debug)]
pub enum DemoTask {
    Counter,
    Hello,
}

pub open spec fn demo_name(k: DemoTask) -> Seq<u8> {
    match k {
        DemoTask::Counter => "counter".spec_bytes(),
        DemoTask::Hello => "hello".spec_bytes(),
    }
}

/// The demo task `spawn` is asked for: the first word, `counter` when there is none.
pub open spec fn spawn_choice(args: Seq<u8>) -> Option<DemoTask> {
    let name = match first_word(args) {
        Some(w) => w,
        None => "counter".spec_bytes(),
    };
    if name == "counter".spec_bytes() {
        Some(DemoTask::Counter)
    } else if name == "hello".spec_bytes() {
        Some(DemoTask::Hello)
    } else {
        None
    }
}

/// `spawn`: the demo task to start, or the message listing them.
pub fn cmd_spawn(args: &[u8]) -> (r: Result<DemoTask, Vec<u8>>)
    ensures
        match spawn_choice(args@) {
            Some(k) => r matches Ok(v) && v == k,
            None => r matches Err(m) && m@ == "Dostepne demo taski: counter, hello".spec_bytes(),
        },
{
    let counter = "counter".as_bytes();
    let hello = "hello".as_bytes();
    let w = first_word_of(args);
    let is_counter = match &w {
        Some(n) => bytes_eq(n.as_slice(), counter),
        None => true,
    };
    if is_counter {
        return Ok(DemoTask::Counter);
    }
    let is_hello = match &w {
        Some(n) => bytes_eq(n.as_slice(), hello),
        None => false,
    };
    if is_hello {
        Ok(DemoTask::Hello)
    } else {
        let mut m: Vec<u8> = Vec::new();
        push_str(&mut m, "Dostepne demo taski: counter, hello");
        Err(m)
    }
}

pub open spec fn spawned_text(k: DemoTask, id: u64) -> Seq<u8> {
    "Uruchomiono task '".spec_bytes() + demo_name(k) + "' (ID=".spec_bytes() + dec(id as nat) + seq![41u8]
}

/// What `spawn` answers once the task runs under `id`.
pub fn spawn_report(k: DemoTask, id: u64) -> (r: Vec<u8>)
    ensures
        r@ == spawned_text(k, id),
{
    let mut out: Vec<u8> = Vec::new();
    push_str(&mut out, "Uruchomiono task '");
    match k {
        DemoTask::Counter => push_str(&mut out, "counter"),
        DemoTask::Hello => push_str(&mut out, "hello"),
    }
    push_str(&mut out, "' (ID=");
    push_decimal(&mut out, id);
    out.push(41u8);
    out
}

/// What `exec` runs: a built-in user program, or a program file by name.
pub enum ExecTarget {
    UserHello,
    UserCounter,
    Program(Vec<u8>),
}

/// The name `exec` is given: its first word, or nothing.
pub open spec fn exec_name(args: Seq<u8>) -> Seq<u8> {
    match first_word(args) {
        Some(w) => w,
        None => Seq::empty(),
    }
}

pub fn exec_target(args: &[u8]) -> (r: ExecTarget)
    ensures
        exec_name(args@) == "hello".spec_bytes() ==> r is UserHello,
        exec_name(args@) != "hello".spec_bytes() && exec_name(args@) == "counter".spec_bytes() ==> r is UserCounter,
        exec_name(args@) != "hello".spec_bytes() && exec_name(args@) != "counter".spec_bytes() ==> (r matches ExecTarget::Program(n) && n@ == exec_name(args@)),
{
    let name = match first_word_of(args) {
        Some(w) => w,
        None => Vec::new(),
    };
    if bytes_eq(name.as_slice(), "hello".as_bytes()) {
        ExecTarget::UserHello
    } else if bytes_eq(name.as_slice(), "counter".as_bytes()) {
        ExecTarget::UserCounter
    } else {
        ExecTarget::Program(name)
    }
}

/// What `exec` answers once a built-in program runs under `id`.
pub open spec fn user_started_text(hello: bool, id: u64) -> Seq<u8> {
    "Uruchomiono user program '".spec_bytes() + (if hello { "hello".spec_bytes() } else { "counter".spec_bytes() })
        + "' (ID=".spec_bytes() + dec(id as nat) + seq![41u8]
}

pub fn user_started_report(hello: bool, id: u64) -> (r: Vec<u8>)
    ensures
        r@ == user_started_text(hello, id),
{
    let mut out: Vec<u8> = Vec::new();
    push_str(&mut out, "Uruchomiono user program '");
    if hello {
        push_str(&mut out, "hello");
    } else {
        push_str(&mut out, "counter");
    }
    push_str(&mut out, "' (ID=");
    push_decimal(&mut out, id);
    out.push(41u8);
    out
}

/// What `exec` answers once a program file runs under `id`.
pub open spec fn elf_started_text(name: Seq<u8>, id: u64) -> Seq<u8> {
    "Uruchomiono ELF '".spec_bytes() + name + "' (ID=".spec_bytes() + dec(id as nat) + seq![41u8]
}

pub fn elf_started_report(name: &[u8], id: u64) -> (r: Vec<u8>)
    ensures
        r@ == elf_started_text(name@, id),
{
    let mut out: Vec<u8> = Vec::new();
    push_str(&mut out, "Uruchomiono ELF '");
    append_bytes(&mut out, name);
    push_str(&mut out, "' (ID=");
    push_decimal(&mut out, id);
    out.push(41u8);
    out
}

/// What `exec` answers when the program file does not load.
pub fn elf_error_report(err: &str) -> (r: Vec<u8>)
    ensures
        r@ == "Blad ladowania ELF: ".spec_bytes() + err.spec_bytes(),
{
    let mut out: Vec<u8> = Vec::new();
    push_str(&mut out, "Blad ladowania ELF: ");
    push_str(&mut out, err);
    out
}

/// What `exec` answers when no program of that name is found.
pub fn program_missing_report(name: &[u8]) -> (r: Vec<u8>)
    ensures
        r@ == "Nie znaleziono programu '".spec_bytes() + name@ + "'. Dostepne wbudowane: hello, counter".spec_bytes(),
{
    let mut out: Vec<u8> = Vec::new();
    push_str(&mut out, "Nie znaleziono programu '");
    append_bytes(&mut out, name);
    push_str(&mut out, "'. Dostepne wbudowane: hello, counter");
    out
}

/// Whether a FAT root listing holds files rather than a read error.
pub open spec fn fat_listing_usable(files: Seq<Seq<u8>>) -> bool {
    files.len() > 0 && !has_sub(files[0], "Error".spec_bytes()) && !has_sub(files[0], "Not valid".spec_bytes())
}

pub fn fat_listing_ok(files: &Vec<Vec<u8>>) -> (r: bool)
    ensures
        r == fat_listing_usable(views(files@)),
{
    if files.len() == 0 {
        return false;
    }
    assert(views(files@)[0] == files@[0]@);
    !contains_bytes(files[0].as_slice(), "Error".as_bytes()) && !contains_bytes(files[0].as_slice(), "Not valid".as_bytes())
}

/// What `fatls` answers for the lines of a FAT root listing.
pub open spec fn fatls_text(files: Seq<Seq<u8>>) -> Seq<u8> {
    if files.len() == 0 {
        "(brak plikow lub blad odczytu)".spec_bytes()
    } else {
        join_lines(seq!["Pliki na dysku FAT (root):".spec_bytes()] + Seq::new(files.len(), |i: int| seq![32u8, 32u8] + files[i]))
    }
}

pub fn cmd_fatls(files: &Vec<Vec<u8>>) -> (r: Vec<u8>)
    ensures
        r@ == fatls_text(views(files@)),
{
    let mut out: Vec<u8> = Vec::new();
    if files.len() == 0 {
        push_str(&mut out, "(brak plikow lub blad odczytu)");
        return out;
    }
    let ghost fs = views(files@);
    let ghost all = seq!["Pliki na dysku FAT (root):".spec_bytes()] + Seq::new(fs.len(), |i: int| seq![32u8, 32u8] + fs[i]);
    let mut ls: Vec<Vec<u8>> = Vec::new();
    push_str(&mut out, "Pliki na dysku FAT (root):");
    ls.push(out);
    let mut i: usize = 0;
    while i < files.len()
        invariant
            i <= files@.len(),
            fs == views(files@),
            all == seq!["Pliki na dysku FAT (root):".spec_bytes()] + Seq::new(fs.len(), |i: int| seq![32u8, 32u8] + fs[i]),
            views(ls@) == all.take(i + 1),
        decreases files@.len() - i,
    {
        let mut line: Vec<u8> = Vec::new();
        line.push(32u8);
        line.push(32u8);
        append_bytes(&mut line, files[i].as_slice());
        assert(line@ =~= all[i + 1]);
        let ghost before = views(ls@);
        ls.push(line);
        assert(views(ls@) =~= before.push(all[i + 1]));
        assert(views(ls@) =~= all.take(i + 2));
        i = i + 1;
    }
    assert(all.take(i + 1) =~= all);
    join_lines_exec(&ls)
}


/// The disk sector where the saved file system starts.
pub const DATA_START_SECTOR: u32 = 2048;

/// Bytes of the image that the header sector holds after the tag and the length.
pub open spec fn head_part(len: nat) -> nat {
    if len < 504 { len } else { 504 }
}

pub open spec fn zeros(n: nat) -> Seq<u8> {
    Seq::new(n, |i: int| 0u8)
}

/// The tag that marks a saved file system.
pub open spec fn image_tag() -> Seq<u8> {
    seq![80u8, 76u8, 82u8, 83u8]
}

/// Little-endian bytes of a 32-bit value.
pub open spec fn le32_of(x: nat) -> Seq<u8> {
    seq![(x % 256) as u8, ((x / 256) % 256) as u8, ((x / 65536) % 256) as u8, ((x / 16777216) % 256) as u8]
}

/// The header sector: the tag, the image length, the image's first bytes, zeros.
pub open spec fn header_sector(data: Seq<u8>) -> Seq<u8> {
    image_tag() + le32_of(data.len()) + data.take(head_part(data.len()) as int) + zeros((504 - head_part(data.len())) as nat)
}

/// How many sectors follow the header.
pub open spec fn data_sector_count(len: nat) -> nat {
    ((len - head_part(len) + 511) / 512) as nat
}

/// The `k`-th sector after the header: the next 512 bytes of the image, zeros past its end.
pub open spec fn data_sector(data: Seq<u8>, k: int) -> Seq<u8> {
    let a = head_part(data.len()) + 512 * k;
    let b = if a + 512 <= data.len() { a + 512 } else { data.len() as int };
    data.subrange(a, b) + zeros((512 - (b - a)) as nat)
}

/// The sectors that `save` writes, in order from `DATA_START_SECTOR`.
pub open spec fn disk_sectors(data: Seq<u8>) -> Seq<Seq<u8>> {
    seq![header_sector(data)] + Seq::new(data_sector_count(data.len()), |k: int| data_sector(data, k))
}

fn padded_sector(data: &[u8], a: usize, b: usize, size: usize) -> (r: Vec<u8>)
    requires
        a <= b <= data@.len(),
        b - a <= size,
    ensures
        r@ == data@.subrange(a as int, b as int) + zeros((size - (b - a)) as nat),
{
    let mut out: Vec<u8> = Vec::new();
    let mut i = a;
    while i < b
        invariant
            a <= i <= b,
            b <= data@.len(),
            out@ == data@.subrange(a as int, i as int),
        decreases b - i,
    {
        out.push(data[i]);
        assert(out@ =~= data@.subrange(a as int, i + 1));
        i = i + 1;
    }
    let ghost body = out@;
    let mut j: usize = b - a;
    while j < size
        invariant
            b - a <= j <= size,
            out@ == body + zeros((j - (b - a)) as nat),
        decreases size - j,
    {
        out.push(0u8);
        assert(out@ =~= body + zeros((j + 1 - (b - a)) as nat));
        j = j + 1;
    }
    out
}

/// The sectors that hold `data` on disk, header first.
pub fn disk_image(data: &[u8]) -> (r: Vec<Vec<u8>>)
    requires
        data@.len() <= u32::MAX,
    ensures
        views(r@) == disk_sectors(data@),
{
    let len = data.len();
    let first: usize = if len < 504 { len } else { 504 };
    let mut header: Vec<u8> = Vec::new();
    header.push(80u8);
    header.push(76u8);
    header.push(82u8);
    header.push(83u8);
    header.push((len % 256) as u8);
    header.push(((len / 256) % 256) as u8);
    header.push(((len / 65536) % 256) as u8);
    header.push(((len / 16777216) % 256) as u8);
    let body = padded_sector(data, 0, first, 504);
    append_bytes(&mut header, body.as_slice());
    assert(data@.subrange(0, first as int) =~= data@.take(first as int));
    assert(header@ =~= header_sector(data@));
    let ghost all = disk_sectors(data@);
    let mut out: Vec<Vec<u8>> = Vec::new();
    out.push(header);
    let mut off = first;
    let ghost mut k: int = 0;
    while off < len
        invariant
            len == data@.len(),
            first == head_part(len as nat),
            all == disk_sectors(data@),
            0 <= k <= data_sector_count(len as nat),
            first <= off <= len,
            off < len ==> off == first + 512 * k,
            off == len ==> k == data_sector_count(len as nat),
            views(out@) == all.take(k + 1),
        decreases len - off,
    {
        let end = if len - off > 512 { off + 512 } else { len };
        let sector = padded_sector(data, off, end, 512);
        proof {
            assert(sector@ == data_sector(data@, k));
            assert(k < data_sector_count(len as nat));
        }
        let ghost before = views(out@);
        out.push(sector);
        proof {
            assert(views(out@) =~= before.push(all[k + 1]));
            assert(views(out@) =~= all.take(k + 2));
            k = k + 1;
        }
        off = end;
    }
    proof {
        if first == len {
            assert(data_sector_count(len as nat) == 0);
        }
    }
    assert(all.take(k + 1) =~= all);
    out
}

/// What `save` answers after `written` of the image's `total` sectors reached the disk.
pub open spec fn save_report_text(len: nat, total: nat, written: nat) -> Seq<u8> {
    if written >= total {
        "Zapisano ".spec_bytes() + dec(len) + " bajtow (".spec_bytes() + dec(total) + " sektorow).".spec_bytes()
    } else if written == 0 {
        "Blad zapisu naglowka.".spec_bytes()
    } else {
        "Blad zapisu sektora ".spec_bytes() + dec((DATA_START_SECTOR + written) as nat) + seq![46u8]
    }
}

pub fn save_report(len: usize, total: usize, written: usize) -> (r: Vec<u8>)
    requires
        written <= total,
        total <= u32::MAX - DATA_START_SECTOR,
    ensures
        r@ == save_report_text(len as nat, total as nat, written as nat),
{
    let mut out: Vec<u8> = Vec::new();
    if written >= total {
        push_str(&mut out, "Zapisano ");
        push_decimal(&mut out, len as u64);
        push_str(&mut out, " bajtow (");
        push_decimal(&mut out, total as u64);
        push_str(&mut out, " sektorow).");
    } else if written == 0 {
        push_str(&mut out, "Blad zapisu naglowka.");
    } else {
        push_str(&mut out, "Blad zapisu sektora ");
        push_decimal(&mut out, DATA_START_SECTOR as u64 + written as u64);
        out.push(46u8);
    }
    out
}

/// The length a header sector records.
pub open spec fn header_len(h: Seq<u8>) -> nat {
    (h[4] + 256 * h[5] + 65536 * h[6] + 16777216 * h[7]) as nat
}

/// The image length of a header sector, or the message for a disk without one.
pub open spec fn header_check(h: Seq<u8>) -> Result<nat, Seq<u8>> {
    if h.take(4) == image_tag() {
        Ok(header_len(h))
    } else {
        Err("Brak zapisanego systemu plikow na dysku.".spec_bytes())
    }
}

pub fn load_header(h: &[u8]) -> (r: Result<usize, Vec<u8>>)
    requires
        h@.len() == 512,
    ensures
        match header_check(h@) {
            Ok(n) => r matches Ok(v) && v == n,
            Err(e) => r matches Err(m) && m@ == e,
        },
{
    if h[0] == 80 && h[1] == 76 && h[2] == 82 && h[3] == 83 {
        assert(h@.take(4) =~= image_tag());
        let n: u32 = h[4] as u32 + 256 * (h[5] as u32) + 65536 * (h[6] as u32) + 16777216 * (h[7] as u32);
        Ok(n as usize)
    } else {
        assert(h@.take(4)[0] == h@[0] && h@.take(4)[1] == h@[1] && h@.take(4)[2] == h@[2] && h@.take(4)[3] == h@[3]);
        let mut m: Vec<u8> = Vec::new();
        push_str(&mut m, "Brak zapisanego systemu plikow na dysku.");
        Err(m)
    }
}

/// How many sectors to read after the header for an image of `total` bytes.
pub fn sectors_after_header(total: usize) -> (r: usize)
    ensures
        r == data_sector_count(total as nat),
{
    let first: usize = if total < 504 { total } else { 504 };
    let rest = total - first;
    rest / 512 + if rest % 512 != 0 { 1 } else { 0 }
}

/// The image read back: the header's bytes, then each sector's, `total` in all.
pub open spec fn loaded_image(h: Seq<u8>, rest: Seq<Seq<u8>>, total: nat) -> Seq<u8> {
    Seq::new(total, |i: int| if i < head_part(total) { h[8 + i] } else { rest[(i - head_part(total)) / 512][(i - head_part(total)) % 512] })
}

proof fn lemma_div_mod_512(k: int, m: int)
    requires
        0 <= k,
        0 <= m < 512,
    ensures
        (512 * k + m) / 512 == k,
        (512 * k + m) % 512 == m,
{
    assert((512 * k + m) / 512 == k) by (nonlinear_arith)
        requires 0 <= k, 0 <= m < 512;
    assert((512 * k + m) % 512 == m) by (nonlinear_arith)
        requires 0 <= k, 0 <= m < 512;
}

/// Puts the image back together from the header and the sectors read after it.
pub fn assemble_image(h: &[u8], rest: &Vec<Vec<u8>>, total: usize) -> (r: Vec<u8>)
    requires
        h@.len() == 512,
        rest@.len() == data_sector_count(total as nat),
        forall|k: int| 0 <= k < rest@.len() ==> (#[trigger] rest@[k])@.len() == 512,
    ensures
        r@ == loaded_image(h@, views(rest@), total as nat),
{
    let ghost vs = views(rest@);
    let first: usize = if total < 504 { total } else { 504 };
    let mut data: Vec<u8> = Vec::new();
    let mut i: usize = 0;
    while i < first
        invariant
            i <= first <= 504,
            first == head_part(total as nat),
            h@.len() == 512,
            data@ =~= loaded_image(h@, vs, total as nat).take(i as int),
            vs == views(rest@),
        decreases first - i,
    {
        data.push(h[8 + i]);
        assert(data@ =~= loaded_image(h@, vs, total as nat).take(i + 1));
        i = i + 1;
    }
    let mut k: usize = 0;
    while data.len() < total
        invariant
            first == head_part(total as nat),
            first <= data@.len() <= total,
            data@.len() < total ==> data@.len() == first + 512 * k,
            k <= rest@.len(),
            data@.len() < total ==> k < rest@.len(),
            rest@.len() == data_sector_count(total as nat),
            forall|j: int| 0 <= j < rest@.len() ==> (#[trigger] rest@[j])@.len() == 512,
            data@ =~= loaded_image(h@, vs, total as nat).take(data@.len() as int),
            vs == views(rest@),
        decreases total - data@.len(),
    {
        let remaining = total - data.len();
        let chunk: usize = if remaining < 512 { remaining } else { 512 };
        let mut m: usize = 0;
        let base = data.len();
        while m < chunk
            invariant
                m <= chunk <= 512,
                base + chunk <= total,
                base == first + 512 * k,
                k < rest@.len(),
                rest@[k as int]@.len() == 512,
                first == head_part(total as nat),
                data@.len() == base + m,
                data@ =~= loaded_image(h@, vs, total as nat).take(data@.len() as int),
                vs == views(rest@),
            decreases chunk - m,
        {
            data.push(rest[k][m]);
            proof {
                lemma_div_mod_512(k as int, m as int);
                assert(vs[k as int] == rest@[k as int]@);
            }
            assert(data@ =~= loaded_image(h@, vs, total as nat).take(data@.len() as int));
            m = m + 1;
        }
        proof {
            if data@.len() < total {
                assert(total - first > 512 * (k + 1));
                assert(data_sector_count(total as nat) > k + 1) by (nonlinear_arith)
                    requires total - first > 512 * (k + 1), data_sector_count(total as nat) == ((total - first + 511) / 512) as nat;
            }
        }
        k = k + 1;
    }
    assert(data@ =~= loaded_image(h@, vs, total as nat));
    data
}

/// Installs a read image as the file system: the working directory goes back to the root.
pub fn finish_load(data: &[u8], fs: &mut crate::fs::ramfs::RamFs, cwd: &mut Vec<Vec<u8>>) -> (r: Vec<u8>)
    requires
        old(fs).fs_wf(),
    ensures
        final(fs).fs_wf(),
        match crate::fs::ramfs::parse_dir(data@, 0) {
            Some((m, _)) => {
                &&& final(fs).fs_view() == m
                &&& final(cwd)@.len() == 0
                &&& r@ == "Wczytano system plikow (".spec_bytes() + dec(data@.len()) + " bajtow).".spec_bytes()
            },
            None => {
                &&& final(fs).fs_view() == old(fs).fs_view()
                &&& final(cwd)@ == old(cwd)@
                &&& r@ == "Uszkodzone dane na dysku.".spec_bytes()
            },
        },
{
    let mut out: Vec<u8> = Vec::new();
    match crate::fs::ramfs::RamFs::load_from(data) {
        Some(new_fs) => {
            fs.replace(new_fs);
            cwd.clear();
            push_str(&mut out, "Wczytano system plikow (");
            push_decimal(&mut out, data.len() as u64);
            push_str(&mut out, " bajtow).");
        },
        None => {
            push_str(&mut out, "Uszkodzone dane na dysku.");
        },
    }
    out
}

/// Disk failures that the disk commands report.
pub enum DiskError {
    Unavailable,
    HeaderRead,
    SectorRead(u32),
}

pub open spec fn disk_error_text(e: DiskError) -> Seq<u8> {
    match e {
        DiskError::Unavailable => "Dysk ATA niedostepny.".spec_bytes(),
        DiskError::HeaderRead => "Blad odczytu naglowka.".spec_bytes(),
        DiskError::SectorRead(n) => "Blad odczytu sektora ".spec_bytes() + dec(n as nat) + seq![46u8],
    }
}

pub fn disk_error_report(e: DiskError) -> (r: Vec<u8>)
    ensures
        r@ == disk_error_text(e),
{
    let mut out: Vec<u8> = Vec::new();
    match e {
        DiskError::Unavailable => push_str(&mut out, "Dysk ATA niedostepny."),
        DiskError::HeaderRead => push_str(&mut out, "Blad odczytu naglowka."),
        DiskError::SectorRead(n) => {
            push_str(&mut out, "Blad odczytu sektora ");
            push_decimal(&mut out, n as u64);
            out.push(46u8);
        },
    }
    out
}


proof fn lemma_le32_round_trip(x: u32)
    ensures
        ((x % 256) as u8) + 256 * (((x / 256) % 256) as u8) + 65536 * (((x / 65536) % 256) as u8) + 16777216 * (((x
            / 16777216) % 256) as u8) == x,
{
    assert(((x % 256) as u8) as u32 == x % 256) by (bit_vector);
    assert((((x / 256) % 256) as u8) as u32 == (x / 256) % 256) by (bit_vector);
    assert((((x / 65536) % 256) as u8) as u32 == (x / 65536) % 256) by (bit_vector);
    assert((((x / 16777216) % 256) as u8) as u32 == (x / 16777216) % 256) by (bit_vector);
    assert((x % 256) + 256 * ((x / 256) % 256) + 65536 * ((x / 65536) % 256) + 16777216 * ((x / 16777216) % 256)
        == x) by (bit_vector);
}

/// What `save` writes, `load` reads back: the header gives the image's length,
/// and the header with the sectors after it give the image itself.
pub proof fn law_disk_round_trip(data: Seq<u8>)
    requires
        data.len() <= u32::MAX,
    ensures
        header_check(disk_sectors(data)[0]) == Ok::<nat, Seq<u8>>(data.len()),
        disk_sectors(data).len() == 1 + data_sector_count(data.len()),
        forall|k: int| 0 <= k < disk_sectors(data).len() ==> (#[trigger] disk_sectors(data)[k]).len() == 512,
        loaded_image(disk_sectors(data)[0], disk_sectors(data).skip(1), data.len()) == data,
{
    let n = data.len();
    let secs = disk_sectors(data);
    let h = secs[0];
    let fp = head_part(n);
    assert(h == header_sector(data));
    assert(h.len() == 512);
    assert(h.take(4) =~= image_tag());
    lemma_le32_round_trip(n as u32);
    assert(h[4] == (n % 256) as u8);
    assert(header_len(h) == n);
    let rest = secs.skip(1);
    assert forall|k: int| 0 <= k < secs.len() implies (#[trigger] secs[k]).len() == 512 by {
        if k > 0 {
            assert(secs[k] == data_sector(data, k - 1));
        }
    }
    let img = loaded_image(h, rest, n);
    assert forall|i: int| 0 <= i < n implies #[trigger] img[i] == data[i] by {
        if i < fp {
            assert(h[8 + i] == data.take(fp as int)[i]);
        } else {
            let j = i - fp;
            let k = j / 512;
            let m = j % 512;
            vstd::arithmetic::div_mod::lemma_fundamental_div_mod(j, 512);
            assert(0 <= m < 512);
            assert(0 <= k);
            assert(512 * k <= j);
            assert(k < data_sector_count(n)) by (nonlinear_arith)
                requires
                    512 * k + m == j,
                    0 <= m < 512,
                    j < n - fp,
                    data_sector_count(n) == ((n - fp + 511) / 512) as nat,
                    0 <= k;
            assert(rest[k] == data_sector(data, k));
            let a = fp + 512 * k;
            assert(a + m == i);
        }
    }
    assert(img =~= data);
}

/// A file system that fits its image survives `save` and `load`: the image that
/// the disk sectors give back reads as the same file system.
pub proof fn law_save_load(fs: &crate::fs::ramfs::RamFs)
    requires
        fs.fs_wf(),
        crate::fs::fits_image(fs.fs_view()),
        fs.image().len() <= u32::MAX,
    ensures
        crate::fs::ramfs::parse_dir(
            loaded_image(disk_sectors(fs.image())[0], disk_sectors(fs.image()).skip(1), fs.image().len()),
            0,
        ) == Some((fs.fs_view(), fs.image().len() as int)),
{
    law_disk_round_trip(fs.image());
    crate::fs::ramfs::law_image_round_trip(fs);
}

} // verus!
