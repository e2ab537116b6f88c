pub mod commands;
pub mod completion;
pub mod system;

use vstd::prelude::*;
use vstd::string::StringSliceAdditionalSpecFns;
use crate::text::{bytes_eq, copy_bytes, copy_range, trim, trim_bytes, views, last_sub, rfind_sub, last_index,
    rfind_byte, has_byte, contains_byte, append_bytes, find_byte, next_byte, lemma_next_byte, split_once,
    split_once_at, utf8_valid};
use crate::fs::{FileSystem, FsView, is_file_in};
use crate::fs::ramfs::{RamFs, Node, path_view};
use crate::shell::completion::{completion, tab_complete, common_prefix, is_common_prefix_len, prefixed, command_name_bytes, lemma_prefixed_starts};
use crate::drivers::keyboard::KeyEvent;
use crate::text::{push_char, pop_char, drop_last_char};
use crate::fs::{is_dir_in, names_of_children};
use crate::shell::commands::{Shell, CommandResult, SystemCommand, run_command, command_outcome, shell_view, EnvVars, expand_env_vars, expand_from, msg, push_msg, text_of, write_ok};

verus! {

/// How many lines the history keeps.
pub const HISTORY_MAX: usize = 16;

/// The history after a line is recorded: a repeat of the last line is not
/// recorded again, and the oldest line goes when the history is full.
pub open spec fn pushed(e: Seq<Seq<u8>>, cmd: Seq<u8>) -> Seq<Seq<u8>> {
    if e.len() > 0 && e.last() == cmd {
        e
    } else if e.len() >= HISTORY_MAX {
        e.drop_first().push(cmd)
    } else {
        e.push(cmd)
    }
}

/// The shell's command history and the position the arrow keys have reached.
pub struct CommandHistory {
    entries: Vec<Vec<u8>>,
    cursor: usize,
}

impl CommandHistory {
    pub closed spec fn entries_spec(&self) -> Seq<Seq<u8>> {
        views(self.entries@)
    }

    pub closed spec fn cursor_spec(&self) -> int {
        self.cursor as int
    }

    pub open spec fn wf(&self) -> bool {
        &&& self.entries_spec().len() <= HISTORY_MAX
        &&& 0 <= self.cursor_spec() <= self.entries_spec().len()
    }

    pub fn new() -> (h: CommandHistory)
        ensures
            h.wf(),
            h.entries_spec() == Seq::<Seq<u8>>::empty(),
            h.cursor_spec() == 0,
    {
        let h = CommandHistory { entries: Vec::new(), cursor: 0 };
        assert(views(h.entries@) =~= Seq::<Seq<u8>>::empty());
        h
    }

    /// Records a command line, unless it repeats the last one; the oldest line
    /// goes when the history is full. The cursor moves past the newest line.
    pub fn push(&mut self, cmd: &[u8])
        requires
            old(self).wf(),
        ensures
            final(self).wf(),
            final(self).entries_spec() == pushed(old(self).entries_spec(), cmd@),
            final(self).cursor_spec() == final(self).entries_spec().len(),
    {
        let n = self.entries.len();
        if n > 0 && bytes_eq(self.entries[n - 1].as_slice(), cmd) {
            self.cursor = n;
            return;
        }
        let ghost e = views(self.entries@);
        if n >= HISTORY_MAX {
            let _first = self.entries.remove(0);
            assert(views(self.entries@) =~= e.drop_first());
        }
        let ghost e1 = views(self.entries@);
        self.entries.push(copy_bytes(cmd));
        assert(views(self.entries@) =~= e1.push(cmd@));
        self.cursor = self.entries.len();
    }

    /// One line back, staying at the oldest; `None` when the history is empty.
    pub fn up(&mut self) -> (r: Option<&[u8]>)
        requires
            old(self).wf(),
        ensures
            final(self).wf(),
            final(self).entries_spec() == old(self).entries_spec(),
            old(self).entries_spec().len() == 0 ==> r is None && final(self).cursor_spec() == old(self).cursor_spec(),
            old(self).entries_spec().len() > 0 ==> {
                &&& final(self).cursor_spec() == if old(self).cursor_spec() > 0 {
                    old(self).cursor_spec() - 1
                } else {
                    0
                }
                &&& r matches Some(s) && s@ == old(self).entries_spec()[final(self).cursor_spec()]
            },
    {
        if self.entries.len() == 0 {
            return None;
        }
        if self.cursor > 0 {
            self.cursor = self.cursor - 1;
        }
        Some(self.entries[self.cursor].as_slice())
    }

    /// One line forward; `None` past the newest line.
    pub fn down(&mut self) -> (r: Option<&[u8]>)
        requires
            old(self).wf(),
        ensures
            final(self).wf(),
            final(self).entries_spec() == old(self).entries_spec(),
            old(self).cursor_spec() >= old(self).entries_spec().len() ==> r is None
                && final(self).cursor_spec() == old(self).cursor_spec(),
            old(self).cursor_spec() < old(self).entries_spec().len() ==> {
                &&& final(self).cursor_spec() == old(self).cursor_spec() + 1
                &&& if final(self).cursor_spec() < old(self).entries_spec().len() {
                    r matches Some(s) && s@ == old(self).entries_spec()[final(self).cursor_spec()]
                } else {
                    r is None
                }
            },
    {
        if self.cursor >= self.entries.len() {
            return None;
        }
        self.cursor = self.cursor + 1;
        if self.cursor < self.entries.len() {
            Some(self.entries[self.cursor].as_slice())
        } else {
            None
        }
    }
}


/// Where a command line's output goes.
pub enum OutputMode {
    Print,
    Write(Vec<u8>),
    Append(Vec<u8>),
}

/// The redirections of a command line.
pub struct Redirect {
    pub input_file: Option<Vec<u8>>,
    pub output_mode: OutputMode,
}

/// An output target of a redirection, as a value.
pub enum OutTarget {
    Print,
    Write(Seq<u8>),
    Append(Seq<u8>),
}

pub open spec fn out_target(m: OutputMode) -> OutTarget {
    match m {
        OutputMode::Print => OutTarget::Print,
        OutputMode::Write(f) => OutTarget::Write(f@),
        OutputMode::Append(f) => OutTarget::Append(f@),
    }
}

/// A file name after a redirection: not empty, no pipe in it.
pub open spec fn valid_target(f: Seq<u8>) -> bool {
    f.len() > 0 && !has_byte(f, 124)
}

/// An input redirection `< name` at the end of `before`, if it names a file:
/// the part before it and the name.
pub open spec fn input_split(before: Seq<u8>) -> (Seq<u8>, Option<Seq<u8>>) {
    match last_index(before, 60) {
        Some(ip) => {
            let name = trim(before.skip(ip + 1));
            if name.len() > 0 {
                (before.take(ip), Some(name))
            } else {
                (before, None)
            }
        },
        None => (before, None),
    }
}

/// A last `>>` followed by a valid name: the line appends to that file.
pub open spec fn append_redirect(line: Seq<u8>) -> Option<(Seq<u8>, Option<Seq<u8>>, OutTarget)> {
    match last_sub(line, seq![62u8, 62u8]) {
        Some(pos) => {
            let f = trim(line.skip(pos + 2));
            if valid_target(f) {
                let (pipeline, input) = input_split(line.take(pos));
                Some((pipeline, input, OutTarget::Append(f)))
            } else {
                None
            }
        },
        None => None,
    }
}

/// A last `>`, not the end of a `>>`, followed by a valid name: the line writes that file.
pub open spec fn write_redirect(line: Seq<u8>) -> Option<(Seq<u8>, Option<Seq<u8>>, OutTarget)> {
    match last_index(line, 62) {
        Some(pos) => {
            let f = trim(line.skip(pos + 1));
            if (pos == 0 || line[pos - 1] != 62) && valid_target(f) {
                let (pipeline, input) = input_split(line.take(pos));
                Some((pipeline, input, OutTarget::Write(f)))
            } else {
                None
            }
        },
        None => None,
    }
}

/// A last `<` followed by a name without `|` or `>`: the line reads that file.
pub open spec fn input_redirect(line: Seq<u8>) -> Option<(Seq<u8>, Option<Seq<u8>>, OutTarget)> {
    match last_index(line, 60) {
        Some(pos) => {
            let f = trim(line.skip(pos + 1));
            if f.len() > 0 && !has_byte(f, 124) && !has_byte(f, 62) {
                Some((line.take(pos), Some(f), OutTarget::Print))
            } else {
                None
            }
        },
        None => None,
    }
}

/// The pipeline part of a command line, its input file and its output target:
/// an append redirection first, else a write, else an input alone.
pub open spec fn redirections(line: Seq<u8>) -> (Seq<u8>, Option<Seq<u8>>, OutTarget) {
    match append_redirect(line) {
        Some(r) => r,
        None => match write_redirect(line) {
            Some(r) => r,
            None => match input_redirect(line) {
                Some(r) => r,
                None => (line, None, OutTarget::Print),
            },
        },
    }
}

pub open spec fn redirect_matches(r: (&[u8], Redirect), s: (Seq<u8>, Option<Seq<u8>>, OutTarget)) -> bool {
    &&& r.0@ == s.0
    &&& match s.1 {
        Some(n) => r.1.input_file matches Some(v) && v@ == n,
        None => r.1.input_file is None,
    }
    &&& out_target(r.1.output_mode) == s.2
}

fn split_input(before: &[u8]) -> (r: (&[u8], Option<Vec<u8>>))
    ensures
        r.0@ == input_split(before@).0,
        match input_split(before@).1 {
            Some(n) => r.1 matches Some(v) && v@ == n,
            None => r.1 is None,
        },
{
    if let Some(ip) = rfind_byte(before, 60) {
        let name = trim_bytes(&before[ip + 1..before.len()]);
        assert(before@.subrange(ip + 1, before@.len() as int) =~= before@.skip(ip + 1));
        if name.len() > 0 {
            let pre = &before[0..ip];
            assert(pre@ =~= before@.take(ip as int));
            return (pre, Some(copy_bytes(name)));
        }
    }
    (before, None)
}

fn try_append(line: &[u8]) -> (r: Option<(&[u8], Redirect)>)
    ensures
        match append_redirect(line@) {
            Some(s) => r matches Some(x) && redirect_matches(x, s),
            None => r is None,
        },
{
    let gg: [u8; 2] = [62u8, 62u8];
    assert(gg@ =~= seq![62u8, 62u8]);
    if let Some(pos) = rfind_sub(line, &gg) {
        let fname = trim_bytes(&line[pos + 2..line.len()]);
        assert(line@.subrange(pos + 2, line@.len() as int) =~= line@.skip(pos + 2));
        if fname.len() > 0 && !contains_byte(fname, 124) {
            let before = &line[0..pos];
            assert(before@ =~= line@.take(pos as int));
            let (pipeline, input) = split_input(before);
            return Some((pipeline, Redirect { input_file: input, output_mode: OutputMode::Append(copy_bytes(fname)) }));
        }
    }
    None
}

fn try_write(line: &[u8]) -> (r: Option<(&[u8], Redirect)>)
    ensures
        match write_redirect(line@) {
            Some(s) => r matches Some(x) && redirect_matches(x, s),
            None => r is None,
        },
{
    if let Some(pos) = rfind_byte(line, 62) {
        let fname = trim_bytes(&line[pos + 1..line.len()]);
        assert(line@.subrange(pos + 1, line@.len() as int) =~= line@.skip(pos + 1));
        if (pos == 0 || line[pos - 1] != 62) && fname.len() > 0 && !contains_byte(fname, 124) {
            let before = &line[0..pos];
            assert(before@ =~= line@.take(pos as int));
            let (pipeline, input) = split_input(before);
            return Some((pipeline, Redirect { input_file: input, output_mode: OutputMode::Write(copy_bytes(fname)) }));
        }
    }
    None
}

fn try_input(line: &[u8]) -> (r: Option<(&[u8], Redirect)>)
    ensures
        match input_redirect(line@) {
            Some(s) => r matches Some(x) && redirect_matches(x, s),
            None => r is None,
        },
{
    if let Some(pos) = rfind_byte(line, 60) {
        let name = trim_bytes(&line[pos + 1..line.len()]);
        assert(line@.subrange(pos + 1, line@.len() as int) =~= line@.skip(pos + 1));
        if name.len() > 0 && !contains_byte(name, 124) && !contains_byte(name, 62) {
            let pre = &line[0..pos];
            assert(pre@ =~= line@.take(pos as int));
            return Some((pre, Redirect { input_file: Some(copy_bytes(name)), output_mode: OutputMode::Print }));
        }
    }
    None
}

/// Splits off the redirections of a command line.
pub fn parse_redirections(line: &[u8]) -> (r: (&[u8], Redirect))
    ensures
        redirect_matches(r, redirections(line@)),
{
    if let Some(r) = try_append(line) {
        return r;
    }
    if let Some(r) = try_write(line) {
        return r;
    }
    if let Some(r) = try_input(line) {
        return r;
    }
    (line, Redirect { input_file: None, output_mode: OutputMode::Print })
}


/// A command line after its variables are expanded and its ends trimmed;
/// `None` when nothing is left.
pub open spec fn prepared(line: Seq<u8>, m: Map<Seq<u8>, Seq<u8>>) -> Option<Seq<u8>> {
    let t = trim(expand_from(line, 0, m));
    if t.len() == 0 {
        None
    } else {
        Some(t)
    }
}

pub fn prepare_line(line: &[u8], env: &EnvVars) -> (r: Option<Vec<u8>>)
    requires
        env.wf(),
    ensures
        match prepared(line@, env.map()) {
            Some(t) => r matches Some(v) && v@ == t,
            None => r is None,
        },
{
    let expanded = expand_env_vars(line, env);
    let t = trim_bytes(expanded.as_slice());
    if t.len() == 0 {
        None
    } else {
        Some(copy_bytes(t))
    }
}

/// The pieces of `s` from `i` on, split at every `|`, as `str::split` gives them.
pub open spec fn pieces_from(s: Seq<u8>, i: int) -> Seq<Seq<u8>>
    decreases s.len() + 1 - i,
{
    if i < 0 || i > s.len() {
        Seq::empty()
    } else {
        let j = next_byte(s, i, 124);
        proof {
            lemma_next_byte(s, i, 124);
        }
        if j >= s.len() {
            seq![s.subrange(i, s.len() as int)]
        } else {
            seq![s.subrange(i, j)] + pieces_from(s, j + 1)
        }
    }
}

/// A pipeline stage: a command name and its arguments, split at the first space.
pub open spec fn stage_of(t: Seq<u8>) -> (Seq<u8>, Seq<u8>) {
    match split_once(t, 32) {
        Some((c, a)) => (c, a),
        None => (t, Seq::empty()),
    }
}

/// The stages of the pieces: each trimmed, the empty ones left out.
pub open spec fn stages_of(ps: Seq<Seq<u8>>) -> Seq<(Seq<u8>, Seq<u8>)>
    decreases ps.len(),
{
    if ps.len() == 0 {
        Seq::empty()
    } else {
        let r = stages_of(ps.drop_last());
        let t = trim(ps.last());
        if t.len() == 0 {
            r
        } else {
            r.push(stage_of(t))
        }
    }
}

/// The stages of a pipeline, in order.
pub open spec fn pipeline_stages(p: Seq<u8>) -> Seq<(Seq<u8>, Seq<u8>)> {
    stages_of(pieces_from(p, 0))
}

/// One stage of a pipeline.
pub struct Stage {
    pub cmd: Vec<u8>,
    pub args: Vec<u8>,
}

pub open spec fn stage_views(s: Seq<Stage>) -> Seq<(Seq<u8>, Seq<u8>)> {
    s.map_values(|x: Stage| (x.cmd@, x.args@))
}

fn split_pipes(s: &[u8]) -> (r: Vec<Vec<u8>>)
    ensures
        views(r@) == pieces_from(s@, 0),
{
    let mut out: Vec<Vec<u8>> = Vec::new();
    let mut i: usize = 0;
    let mut done = false;
    while !done
        invariant
            i <= s@.len(),
            !done ==> views(out@) + pieces_from(s@, i as int) == pieces_from(s@, 0),
            done ==> views(out@) == pieces_from(s@, 0),
        decreases (if done { 0 } else { s@.len() + 1 - i }),
    {
        let j = find_byte(s, i, 124);
        proof {
            lemma_next_byte(s@, i as int, 124);
        }
        let ghost before = views(out@);
        if j >= s.len() {
            out.push(copy_range(s, i, s.len()));
            assert(views(out@) =~= before + pieces_from(s@, i as int));
            done = true;
        } else {
            out.push(copy_range(s, i, j));
            assert(views(out@) + pieces_from(s@, j + 1) =~= before + pieces_from(s@, i as int));
            i = j + 1;
        }
    }
    out
}

/// The stages of a pipeline, split at `|`.
pub fn split_stages(pipeline: &[u8]) -> (r: Vec<Stage>)
    ensures
        stage_views(r@) == pipeline_stages(pipeline@),
{
    let ps = split_pipes(pipeline);
    let ghost all = views(ps@);
    let mut out: Vec<Stage> = Vec::new();
    let mut i: usize = 0;
    while i < ps.len()
        invariant
            i <= ps@.len(),
            all == views(ps@),
            all == pieces_from(pipeline@, 0),
            stage_views(out@) == stages_of(all.take(i as int)),
        decreases ps@.len() - i,
    {
        proof {
            let t = all.take(i + 1);
            assert(t.drop_last() =~= all.take(i as int));
            assert(t.last() == ps@[i as int]@);
        }
        let t = trim_bytes(ps[i].as_slice());
        if t.len() > 0 {
            let ghost before = stage_views(out@);
            let st = match split_once_at(t, 32) {
                Some((c, a)) => Stage { cmd: copy_bytes(c), args: copy_bytes(a) },
                None => Stage { cmd: copy_bytes(t), args: Vec::new() },
            };
            out.push(st);
            assert(stage_views(out@) =~= before.push(stage_of(t@)));
        }
        i = i + 1;
    }
    assert(all.take(i as int) =~= all);
    out
}

/// The text an input redirection feeds the pipeline, or the message for a missing file.
pub open spec fn input_result(f: Option<Seq<u8>>, cwd: Seq<Seq<u8>>, v: FsView) -> Result<Option<Seq<u8>>, Seq<u8>> {
    match f {
        None => Ok(None),
        Some(n) => if is_file_in(v, cwd.push(n)) {
            Ok(Some(text_of(v[cwd.push(n)]->File_0)))
        } else {
            Err(msg("Plik wejsciowy '", n, "' nie istnieje."))
        },
    }
}

pub fn input_text(input_file: &Option<Vec<u8>>, cwd: &Vec<Vec<u8>>, fs: &RamFs) -> (r: Result<Option<Vec<u8>>, Vec<u8>>)
    requires
        fs.fs_wf(),
    ensures
        match input_result(
            match input_file {
                Some(n) => Some(n@),
                None => None,
            },
            path_view(cwd@),
            fs.fs_view(),
        ) {
            Ok(None) => r matches Ok(x) && x is None,
            Ok(Some(t)) => r matches Ok(x) && x matches Some(v) && v@ == t,
            Err(e) => r matches Err(m) && m@ == e,
        },
{
    match input_file {
        None => Ok(None),
        Some(n) => match fs.read(cwd.as_slice(), n.as_slice()) {
            Some(data) => {
                if utf8_valid(data) {
                    Ok(Some(copy_bytes(data)))
                } else {
                    Ok(Some(Vec::new()))
                }
            },
            None => Err(push_msg("Plik wejsciowy '", n.as_slice(), "' nie istnieje.")),
        },
    }
}

/// What becomes of a command line's output.
pub enum Delivery {
    /// No output to show.
    Nothing,
    /// The output, to be shown.
    Print(Vec<u8>),
    /// The output went to a file; a report to show.
    Info(Vec<u8>),
    /// The output could not go to its file; an error to show.
    Failure(Vec<u8>),
}

/// A file's contents with `out` added: on a new line unless it is empty or
/// already ends with one.
pub open spec fn appended(existing: Seq<u8>, out: Seq<u8>) -> Seq<u8> {
    (if existing.len() > 0 && existing.last() != 10 { existing.push(10) } else { existing }) + out
}

/// The delivery of `output` to `target`, and the file system after it.
pub open spec fn delivered(
    d: Delivery,
    output: Seq<u8>,
    target: OutTarget,
    cwd: Seq<Seq<u8>>,
    v: FsView,
    v2: FsView,
) -> bool {
    match target {
        OutTarget::Print => v2 == v && if output.len() == 0 {
            d is Nothing
        } else {
            d matches Delivery::Print(o) && o@ == output
        },
        OutTarget::Write(f) => if write_ok(v, cwd, f) {
            &&& v2 == v.insert(cwd.push(f), Node::File(output))
            &&& d matches Delivery::Info(m) && m@ == msg("Zapisano do '", f, "'.")
        } else {
            &&& v2 == v
            &&& d matches Delivery::Failure(m) && m@ == msg("Nie mozna zapisac do '", f, "'.")
        },
        OutTarget::Append(f) => {
            let existing = if is_file_in(v, cwd.push(f)) { v[cwd.push(f)]->File_0 } else { Seq::empty() };
            if write_ok(v, cwd, f) {
                &&& v2 == v.insert(cwd.push(f), Node::File(appended(existing, output)))
                &&& d matches Delivery::Info(m) && m@ == msg("Dopisano do '", f, "'.")
            } else {
                &&& v2 == v
                &&& d matches Delivery::Failure(m) && m@ == msg("Nie mozna dopisac do '", f, "'.")
            }
        },
    }
}

/// Shows, writes or appends a command line's output, as its redirection says.
pub fn deliver(output: Vec<u8>, mode: &OutputMode, cwd: &Vec<Vec<u8>>, fs: &mut RamFs) -> (r: Delivery)
    requires
        old(fs).fs_wf(),
    ensures
        final(fs).fs_wf(),
        delivered(r, output@, out_target(*mode), path_view(cwd@), old(fs).fs_view(), final(fs).fs_view()),
{
    match mode {
        OutputMode::Print => {
            if output.len() == 0 {
                Delivery::Nothing
            } else {
                Delivery::Print(output)
            }
        },
        OutputMode::Write(f) => {
            if fs.write(cwd.as_slice(), f.as_slice(), output.as_slice()) {
                Delivery::Info(push_msg("Zapisano do '", f.as_slice(), "'."))
            } else {
                Delivery::Failure(push_msg("Nie mozna zapisac do '", f.as_slice(), "'."))
            }
        },
        OutputMode::Append(f) => {
            let mut existing: Vec<u8> = match fs.read(cwd.as_slice(), f.as_slice()) {
                Some(data) => copy_bytes(data),
                None => Vec::new(),
            };
            let n = existing.len();
            if n > 0 && existing[n - 1] != 10 {
                existing.push(10u8);
            }
            append_bytes(&mut existing, output.as_slice());
            if fs.write(cwd.as_slice(), f.as_slice(), existing.as_slice()) {
                Delivery::Info(push_msg("Dopisano do '", f.as_slice(), "'."))
            } else {
                Delivery::Failure(push_msg("Nie mozna dopisac do '", f.as_slice(), "'."))
            }
        },
    }
}


/// The longest line the prompt takes, in bytes.
pub const MAX_LINE: usize = 256;

/// What the screen does after a key press at the prompt.
pub enum EditAction {
    /// The line is done: a new line is shown and the line runs.
    Submit,
    /// The key changes nothing.
    Nothing,
    /// The last character leaves the screen.
    EraseLast,
    /// The text is shown after the line.
    Echo(Vec<u8>),
    /// The candidates are listed, then the prompt and the line again.
    ShowCandidates(Vec<Vec<u8>>),
    /// That many characters leave the screen, then the text is shown.
    Redraw(usize, Vec<u8>),
}

/// After a line is recorded, the up arrow brings it back; the history never
/// holds more than its limit.
pub proof fn law_history_recall(e: Seq<Seq<u8>>, cmd: Seq<u8>)
    requires
        e.len() <= HISTORY_MAX,
    ensures
        pushed(e, cmd).len() <= HISTORY_MAX,
        up_result(pushed(e, cmd), pushed(e, cmd).len() as int) == (pushed(e, cmd).len() - 1, Some(cmd)),
{
}

/// The history cursor after the up arrow, and the line it selects.
pub open spec fn up_result(e: Seq<Seq<u8>>, c: int) -> (int, Option<Seq<u8>>) {
    if e.len() == 0 {
        (c, None)
    } else {
        let c2 = if c > 0 { c - 1 } else { 0 };
        (c2, Some(e[c2]))
    }
}

/// The history cursor after the down arrow, and the line it selects.
pub open spec fn down_result(e: Seq<Seq<u8>>, c: int) -> (int, Option<Seq<u8>>) {
    if c >= e.len() {
        (c, None)
    } else {
        (c + 1, if c + 1 < e.len() { Some(e[c + 1]) } else { None })
    }
}

/// The effect of the tab key, given the completion candidates `ms` of the word
/// that starts at `start`: one candidate completes the word; several extend it
/// to their longest common prefix, or are listed when that adds nothing.
pub open spec fn tab_effect(buf: Seq<u8>, start: nat, ms: Seq<Seq<u8>>, buf2: Seq<u8>, r: EditAction) -> bool {
    let pl = buf.len() - start;
    if ms.len() == 1 {
        buf2 == buf + ms[0].skip(pl) && (r matches EditAction::Echo(t) && t@ == ms[0].skip(pl))
    } else if ms.len() > 1 {
        exists|n: int|
            is_common_prefix_len(ms, n) && if n > pl {
                buf2 == buf + ms[0].subrange(pl, n) && (r matches EditAction::Echo(t) && t@ == ms[0].subrange(pl, n))
            } else {
                buf2 == buf && (r matches EditAction::ShowCandidates(c) && views(c@) == ms)
            }
    } else {
        buf2 == buf && r is Nothing
    }
}

/// Handles one key press at the prompt: edits the line and says what the screen does.
pub fn edit_line(
    buf: &mut Vec<u8>,
    key: KeyEvent,
    history: &mut CommandHistory,
    cwd: &Vec<Vec<u8>>,
    fs: &RamFs,
) -> (r: EditAction)
    requires
        old(history).wf(),
        fs.fs_wf(),
    ensures
        final(history).wf(),
        final(history).entries_spec() == old(history).entries_spec(),
        match key {
            KeyEvent::Char(c) => {
                &&& final(history).cursor_spec() == old(history).cursor_spec()
                &&& if c == '\n' {
                    final(buf)@ == old(buf)@ && r is Submit
                } else if c == '\u{8}' {
                    if old(buf)@.len() == 0 {
                        final(buf)@ == old(buf)@ && r is Nothing
                    } else {
                        final(buf)@ == drop_last_char(old(buf)@) && r is EraseLast
                    }
                } else if c == '\t' {
                    exists|start: nat, ms: Seq<Seq<u8>>|
                        completion(old(buf)@, path_view(cwd@), fs.fs_view(), start, ms) && tab_effect(
                            old(buf)@,
                            start,
                            ms,
                            final(buf)@,
                            r,
                        )
                } else if c >= ' ' && old(buf)@.len() < MAX_LINE {
                    final(buf)@ == old(buf)@ + vstd::utf8::encode_utf8(seq![c]) && (r matches EditAction::Echo(t)
                        && t@ == vstd::utf8::encode_utf8(seq![c]))
                } else {
                    final(buf)@ == old(buf)@ && r is Nothing
                }
            },
            KeyEvent::ArrowUp => {
                let (c2, line) = up_result(old(history).entries_spec(), old(history).cursor_spec());
                &&& final(history).cursor_spec() == c2
                &&& match line {
                    Some(l) => final(buf)@ == l && (r matches EditAction::Redraw(n, t) && n == old(buf)@.len() && t@ == l),
                    None => final(buf)@ == old(buf)@ && r is Nothing,
                }
            },
            KeyEvent::ArrowDown => {
                let (c2, line) = down_result(old(history).entries_spec(), old(history).cursor_spec());
                let l = match line {
                    Some(l) => l,
                    None => Seq::empty(),
                };
                &&& final(history).cursor_spec() == c2
                &&& final(buf)@ == l
                &&& r matches EditAction::Redraw(n, t) && n == old(buf)@.len() && t@ == l
            },
        },
{
    match key {
        KeyEvent::Char(c) => {
            if c == '\n' {
                EditAction::Submit
            } else if c == '\u{8}' {
                if buf.len() == 0 {
                    EditAction::Nothing
                } else {
                    pop_char(buf);
                    EditAction::EraseLast
                }
            } else if c == '\t' {
                let (start, ms) = tab_complete(buf.as_slice(), cwd, fs);
                let ghost b0 = buf@;
                proof {
                    lemma_prefixed_starts(views(ms@), Seq::empty());
                    match last_index(b0, 32) {
                        Some(p) => {
                            if is_dir_in(fs.fs_view(), path_view(cwd@)) {
                                let ns = choose|ns: Seq<Seq<u8>>| names_of_children(fs.fs_view(), path_view(cwd@), ns)
                                    && views(ms@) == prefixed(ns, b0.skip(p + 1));
                                lemma_prefixed_starts(ns, b0.skip(p + 1));
                            }
                        },
                        None => {
                            lemma_prefixed_starts(command_name_bytes(), b0);
                        },
                    }
                }
                let pl = buf.len() - start;
                let ghost vms = views(ms@);
                let r = if ms.len() == 1 {
                    assert(vms[0] == ms@[0]@);
                    let m0 = ms[0].as_slice();
                    let suffix = copy_range(m0, pl, m0.len());
                    append_bytes(buf, suffix.as_slice());
                    assert(suffix@ =~= ms@[0]@.skip(pl as int));
                    EditAction::Echo(suffix)
                } else if ms.len() > 1 {
                    let prefix = common_prefix(&ms);
                    if prefix.len() > pl {
                        let suffix = copy_range(prefix.as_slice(), pl, prefix.len());
                        append_bytes(buf, suffix.as_slice());
                        assert(vms[0] == ms@[0]@);
                        assert(suffix@ =~= vms[0].subrange(pl as int, prefix@.len() as int));
                        assert(is_common_prefix_len(vms, prefix@.len() as int));
                        EditAction::Echo(suffix)
                    } else {
                        assert(is_common_prefix_len(vms, prefix@.len() as int));
                        EditAction::ShowCandidates(ms)
                    }
                } else {
                    EditAction::Nothing
                };
                assert(tab_effect(b0, start as nat, vms, buf@, r));
                assert(completion(b0, path_view(cwd@), fs.fs_view(), start as nat, vms));
                r
            } else if c >= ' ' && buf.len() < MAX_LINE {
                let mut t: Vec<u8> = Vec::new();
                push_char(&mut t, c);
                append_bytes(buf, t.as_slice());
                EditAction::Echo(t)
            } else {
                EditAction::Nothing
            }
        },
        KeyEvent::ArrowUp => {
            let n = buf.len();
            match history.up() {
                Some(entry) => {
                    let t = copy_bytes(entry);
                    buf.clear();
                    append_bytes(buf, entry);
                    EditAction::Redraw(n, t)
                },
                None => EditAction::Nothing,
            }
        },
        KeyEvent::ArrowDown => {
            let n = buf.len();
            buf.clear();
            match history.down() {
                Some(entry) => {
                    append_bytes(buf, entry);
                    EditAction::Redraw(n, copy_bytes(entry))
                },
                None => EditAction::Redraw(n, Vec::new()),
            }
        },
    }
}


pub open spec fn opt_bytes(o: Option<Vec<u8>>) -> Option<Seq<u8>> {
    match o {
        Some(v) => Some(v@),
        None => None,
    }
}

/// A command line's pipeline while it runs: its stages, the next one, and the
/// output that feeds the next one.
pub struct Pipeline {
    pub stages: Vec<Stage>,
    pub next: usize,
    pub pipe: Option<Vec<u8>>,
}

/// What one step of a pipeline did.
pub enum PipelineStep {
    /// A stage ran in the library; its output feeds the next one.
    Ran,
    /// A `clear` stage ran in a terminal window: the caller clears the window.
    Clear,
    /// The stage is a command for the caller to run; its output comes back by `supply`.
    System(SystemCommand),
    /// All stages ran.
    Done,
}

impl Pipeline {
    pub fn new(stages: Vec<Stage>, input: Option<Vec<u8>>) -> (p: Pipeline)
        ensures
            p.stages == stages,
            p.next == 0,
            p.pipe == input,
    {
        Pipeline { stages, next: 0, pipe: input }
    }

    /// One step from this pipeline, in the working directory `cwd` and the
    /// shell `sh`: answered `r`, it leaves `after`, `cwd1` and `sh1`. Past the
    /// last stage nothing changes; `clear` in a window passes on no output;
    /// any other stage runs as its command's outcome says, or hands back a
    /// system command without moving on.
    pub open spec fn steps_to(
        &self,
        cwd: Seq<Seq<u8>>,
        sh: Shell,
        in_window: bool,
        r: PipelineStep,
        after: Pipeline,
        cwd1: Seq<Seq<u8>>,
        sh1: Shell,
    ) -> bool {
        &&& sh1.wf()
        &&& after.stages == self.stages
        &&& self.next >= self.stages@.len() ==> r is Done && after == *self && cwd1 == cwd && shell_view(&sh1)
            == shell_view(&sh)
        &&& self.next < self.stages@.len() ==> {
            let st = self.stages@[self.next as int];
            if in_window && st.cmd@ == "clear".spec_bytes() {
                &&& r is Clear
                &&& after.next == self.next + 1
                &&& after.pipe matches Some(o) && o@.len() == 0
                &&& cwd1 == cwd
                &&& shell_view(&sh1) == shell_view(&sh)
            } else {
                exists|res: CommandResult|
                    #[trigger] command_outcome(
                        st.cmd@,
                        st.args@,
                        cwd,
                        opt_bytes(self.pipe),
                        shell_view(&sh),
                        sh.env.vars_spec(),
                        res,
                        cwd1,
                        shell_view(&sh1),
                    ) && match res {
                        CommandResult::Output(o) => r is Ran && after.next == self.next + 1 && (after.pipe matches Some(
                            v,
                        ) && v@ == o@),
                        CommandResult::System(c) => (r matches PipelineStep::System(c2) && c2 == c) && after.next
                            == self.next && after.pipe == self.pipe,
                    }
            }
        }
    }

    /// Runs the next stage. In a terminal window (`in_window`), `clear` empties
    /// the window and passes on no output.
    pub fn step(&mut self, cwd: &mut Vec<Vec<u8>>, sh: &mut Shell, in_window: bool) -> (r: PipelineStep)
        requires
            old(sh).wf(),
        ensures
            old(self).steps_to(
                path_view(old(cwd)@),
                *old(sh),
                in_window,
                r,
                *final(self),
                path_view(final(cwd)@),
                *final(sh),
            ),
    {
        if self.next >= self.stages.len() {
            return PipelineStep::Done;
        }
        let i = self.next;
        if in_window && bytes_eq(self.stages[i].cmd.as_slice(), "clear".as_bytes()) {
            self.pipe = Some(Vec::new());
            self.next = i + 1;
            return PipelineStep::Clear;
        }
        let res = {
            let input: Option<&[u8]> = match &self.pipe {
                Some(v) => Some(v.as_slice()),
                None => None,
            };
            run_command(self.stages[i].cmd.as_slice(), self.stages[i].args.as_slice(), cwd, input, sh)
        };
        match res {
            CommandResult::Output(o) => {
                self.pipe = Some(o);
                self.next = i + 1;
                PipelineStep::Ran
            },
            CommandResult::System(c) => PipelineStep::System(c),
        }
    }

    /// The output of the command the caller ran for the current stage.
    pub fn supply(&mut self, output: Vec<u8>)
        requires
            old(self).next < old(self).stages@.len(),
        ensures
            final(self).stages == old(self).stages,
            final(self).next == old(self).next + 1,
            final(self).pipe == Some(output),
    {
        let n = self.stages.len();
        assert(self.next < n);
        self.pipe = Some(output);
        self.next = self.next + 1;
    }

    /// The arguments of the current stage.
    pub fn current_args(&self) -> (r: &[u8])
        requires
            self.next < self.stages@.len(),
        ensures
            r@ == self.stages@[self.next as int].args@,
    {
        self.stages[self.next].args.as_slice()
    }
}

} // verus!
