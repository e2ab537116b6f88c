//! A terminal window's content: scrollback lines, an input line, and the
//! command lines it hands to the shell.
use vstd::prelude::*;
use vstd::string::StringSliceAdditionalSpecFns;
use crate::text::{views, copy_bytes, copy_range, append_bytes, trim, trim_bytes, push_char, pop_char, drop_last_char,
    is_continuation, lines, split_lines, last_sub, rfind_sub, last_index, rfind_byte, has_byte, contains_byte, push_str};
use crate::gui::event::{Event, KeyCode};
use crate::gui::framebuffer::{Framebuffer, paint};
use crate::gui::theme::Theme;
use crate::gui::font::{char_paint, char_count, draw_char_bg};
use crate::gui::primitives::{fill_rect, rect_brush};
use crate::gui::widget::{Widget, Rect, EventResponse};
use crate::fs::{FileSystem, is_file_in};
use crate::fs::ramfs::path_view;
use crate::shell::{OutputMode, OutTarget, out_target, valid_target, Pipeline, PipelineStep, Stage, split_stages,
    pipeline_stages, stage_views, Delivery, deliver, delivered};
use crate::shell::commands::{Shell, EnvVars, expand_env_vars, expand_from, msg, push_msg, text_of, cwd_path, shell_view};

verus! {

/// How many lines the scrollback keeps.
pub const MAX_SCROLLBACK: usize = 100;
/// The longest input line, in bytes.
pub const MAX_INPUT: usize = 256;

/// A line cut into pieces of `cols` bytes, the last one shorter.
pub open spec fn wrap_pieces(t: Seq<u8>, cols: nat) -> Seq<Seq<u8>>
    decreases t.len(),
{
    if cols == 0 || t.len() <= cols {
        seq![t]
    } else {
        seq![t.take(cols as int)] + wrap_pieces(t.skip(cols as int), cols)
    }
}

/// The last `n` lines.
pub open spec fn keep_last(ls: Seq<Seq<u8>>, n: nat) -> Seq<Seq<u8>> {
    if ls.len() > n {
        ls.skip(ls.len() - n)
    } else {
        ls
    }
}

/// The scrollback after a line is added: wrapped at `cols`, the oldest lines
/// dropped past the limit; nothing changes when not one column fits.
pub open spec fn with_line(ls: Seq<Seq<u8>>, t: Seq<u8>, cols: nat) -> Seq<Seq<u8>> {
    if cols == 0 {
        ls
    } else {
        keep_last(ls + wrap_pieces(t, cols), 100)
    }
}

/// The scrollback never holds more than its limit of lines.
pub proof fn law_scrollback_bounded(ls: Seq<Seq<u8>>, t: Seq<u8>, cols: nat)
    requires
        ls.len() <= 100,
    ensures
        with_line(ls, t, cols).len() <= 100,
{
}

/// The scrollback after several lines are added in order.
pub open spec fn with_lines(ls: Seq<Seq<u8>>, ts: Seq<Seq<u8>>, cols: nat) -> Seq<Seq<u8>>
    decreases ts.len(),
{
    if ts.len() == 0 {
        ls
    } else {
        with_line(with_lines(ls, ts.drop_last(), cols), ts.last(), cols)
    }
}

/// The prompt for a working directory: its path, then `> `.
pub open spec fn prompt_text(cwd: Seq<Seq<u8>>) -> Seq<u8>
    decreases cwd.len(),
{
    if cwd.len() == 0 {
        seq![47u8, 62u8, 32u8]
    } else {
        path_text(cwd) + seq![62u8, 32u8]
    }
}

/// `/a/b` for the names `a`, `b`.
pub open spec fn path_text(cwd: Seq<Seq<u8>>) -> Seq<u8>
    decreases cwd.len(),
{
    if cwd.len() == 0 {
        Seq::empty()
    } else {
        path_text(cwd.drop_last()) + seq![47u8] + cwd.last()
    }
}

/// A terminal's output redirection and input file, as a terminal window reads
/// them: a last `>>`, else a last `>`, each followed by a name without `|`;
/// then a last `<` before that, followed by a name.
pub open spec fn term_redirections(line: Seq<u8>) -> (Seq<u8>, OutTarget, Option<Seq<u8>>) {
    let (out, end) = match last_sub(line, seq![62u8, 62u8]) {
        Some(pos) => {
            let f = trim(line.skip(pos + 2));
            if valid_target(f) {
                (OutTarget::Append(f), pos)
            } else {
                (OutTarget::Print, line.len() as int)
            }
        },
        None => match last_index(line, 62) {
            Some(pos) => {
                let f = trim(line.skip(pos + 1));
                if valid_target(f) {
                    (OutTarget::Write(f), pos)
                } else {
                    (OutTarget::Print, line.len() as int)
                }
            },
            None => (OutTarget::Print, line.len() as int),
        },
    };
    let rem = line.take(end);
    match last_index(rem, 60) {
        Some(pos) => {
            let f = trim(rem.skip(pos + 1));
            if f.len() > 0 {
                (rem.take(pos), out, Some(f))
            } else {
                (rem, out, None)
            }
        },
        None => (rem, out, None),
    }
}

/// The terminal in a window.
pub struct TerminalWidget {
    pub id: u32,
    pub x: i16,
    pub y: i16,
    pub w: u16,
    pub h: u16,
    pub lines: Vec<Vec<u8>>,
    pub input: Vec<u8>,
    pub cursor_visible: bool,
    pub blink: u32,
    pub cwd: Vec<Vec<u8>>,
    pub pending: Option<Vec<u8>>,
}

/// The command line that a terminal is running, and where its output goes.
pub struct TermCommand {
    pub pipeline: Pipeline,
    pub output: OutputMode,
}

impl TerminalWidget {
    pub open spec fn lines_spec(&self) -> Seq<Seq<u8>> {
        views(self.lines@)
    }

    pub open spec fn input_spec(&self) -> Seq<u8> {
        self.input@
    }

    pub open spec fn cwd_spec(&self) -> Seq<Seq<u8>> {
        path_view(self.cwd@)
    }

    pub open spec fn pending_spec(&self) -> Option<Seq<u8>> {
        match self.pending {
            Some(p) => Some(p@),
            None => None,
        }
    }

    pub open spec fn cursor_visible_spec(&self) -> bool {
        self.cursor_visible
    }

    pub open spec fn blink_spec(&self) -> u32 {
        self.blink
    }

    pub open spec fn cols_spec(&self) -> nat {
        (self.w / 8) as nat
    }

    pub open spec fn rows_spec(&self) -> nat {
        if self.h / 8 >= 1 { (self.h / 8 - 1) as nat } else { 0 }
    }

    /// Characters that fit on a line.
    pub fn cols(&self) -> (r: usize)
        ensures
            r == self.cols_spec(),
    {
        self.w as usize / 8
    }

    /// Scrollback lines that fit above the input line.
    pub fn visible_rows(&self) -> (r: usize)
        ensures
            r == self.rows_spec(),
    {
        (self.h as usize / 8).saturating_sub(1)
    }

    /// Adds a line to the scrollback, wrapped at the window's width.
    pub fn push_line(&mut self, text: &[u8])
        ensures
            final(self).lines_spec() == with_line(old(self).lines_spec(), text@, old(self).cols_spec()),
            final(self).input_spec() == old(self).input_spec(),
            final(self).cwd_spec() == old(self).cwd_spec(),
            final(self).pending_spec() == old(self).pending_spec(),
            final(self).id == old(self).id && final(self).x == old(self).x && final(self).y == old(self).y,
            final(self).w == old(self).w && final(self).h == old(self).h,
            final(self).cursor_visible_spec() == old(self).cursor_visible_spec(),
            final(self).blink_spec() == old(self).blink_spec(),
    {
        let cols = self.cols();
        if cols == 0 {
            return;
        }
        let ghost l0 = views(self.lines@);
        let n = text.len();
        let mut off: usize = 0;
        assert(text@.skip(0) =~= text@);
        while n - off > cols
            invariant
                off <= n,
                n == text@.len(),
                cols > 0,
                cols == old(self).cols_spec(),
                views(self.lines@) + wrap_pieces(text@.skip(off as int), cols as nat) == l0 + wrap_pieces(text@, cols as nat),
                self.id == old(self).id && self.x == old(self).x && self.y == old(self).y,
                self.w == old(self).w && self.h == old(self).h,
                self.input == old(self).input && self.cwd == old(self).cwd && self.pending == old(self).pending,
                self.cursor_visible == old(self).cursor_visible && self.blink == old(self).blink,
            decreases n - off,
        {
            let ghost before = views(self.lines@);
            self.lines.push(copy_range(text, off, off + cols));
            proof {
                let t = text@.skip(off as int);
                assert(t.take(cols as int) =~= text@.subrange(off as int, off + cols));
                assert(t.skip(cols as int) =~= text@.skip(off + cols));
                assert(views(self.lines@) =~= before.push(t.take(cols as int)));
                assert(views(self.lines@) + wrap_pieces(text@.skip(off + cols), cols as nat) =~= before
                    + wrap_pieces(t, cols as nat));
            }
            off = off + cols;
        }
        let ghost before = views(self.lines@);
        self.lines.push(copy_range(text, off, n));
        proof {
            let t = text@.skip(off as int);
            assert(t =~= text@.subrange(off as int, n as int));
            assert(views(self.lines@) =~= before + wrap_pieces(t, cols as nat));
        }
        let ghost l1 = views(self.lines@);
        if self.lines.len() > MAX_SCROLLBACK {
            let k = self.lines.len() - MAX_SCROLLBACK;
            let mut kept: Vec<Vec<u8>> = Vec::new();
            let mut i = k;
            while i < self.lines.len()
                invariant
                    k <= i <= self.lines@.len(),
                    l1 == views(self.lines@),
                    views(kept@) == l1.subrange(k as int, i as int),
                decreases self.lines@.len() - i,
            {
                let ghost b = views(kept@);
                kept.push(copy_bytes(self.lines[i].as_slice()));
                assert(views(kept@) =~= b.push(l1[i as int]));
                assert(views(kept@) =~= l1.subrange(k as int, i + 1));
                i = i + 1;
            }
            self.lines = kept;
            assert(views(self.lines@) =~= keep_last(l1, 100));
        }
    }

    /// A new terminal with its greeting.
    pub fn new(id: u32, x: i16, y: i16, w: u16, h: u16) -> (t: TerminalWidget)
        ensures
            t.id == id && t.x == x && t.y == y && t.w == w && t.h == h,
            t.lines_spec() == with_line(
                with_line(
                    with_line(Seq::empty(), "PolarOs Terminal v0.1.0".spec_bytes(), (w / 8) as nat),
                    "Wpisz 'help' aby zobaczyc komendy.".spec_bytes(),
                    (w / 8) as nat,
                ),
                Seq::empty(),
                (w / 8) as nat,
            ),
            t.input_spec() == Seq::<u8>::empty(),
            t.cwd_spec() == Seq::<Seq<u8>>::empty(),
            t.pending_spec() is None,
            t.cursor_visible_spec(),
            t.blink_spec() == 0,
    {
        let mut t = TerminalWidget {
            id,
            x,
            y,
            w,
            h,
            lines: Vec::new(),
            input: Vec::new(),
            cursor_visible: true,
            blink: 0,
            cwd: Vec::new(),
            pending: None,
        };
        assert(views(t.lines@) =~= Seq::<Seq<u8>>::empty());
        assert(path_view(t.cwd@) =~= Seq::<Seq<u8>>::empty());
        t.push_line("PolarOs Terminal v0.1.0".as_bytes());
        t.push_line("Wpisz 'help' aby zobaczyc komendy.".as_bytes());
        let empty: Vec<u8> = Vec::new();
        t.push_line(empty.as_slice());
        t
    }

    /// The prompt: the working directory's path, then `> `.
    pub fn prompt(&self) -> (r: Vec<u8>)
        ensures
            r@ == prompt_text(self.cwd_spec()),
    {
        let mut p: Vec<u8> = Vec::new();
        if self.cwd.len() == 0 {
            p.push(47u8);
            p.push(62u8);
            p.push(32u8);
            assert(p@ =~= seq![47u8, 62u8, 32u8]);
            return p;
        }
        let ghost cw = path_view(self.cwd@);
        let mut i: usize = 0;
        while i < self.cwd.len()
            invariant
                i <= self.cwd@.len(),
                cw == path_view(self.cwd@),
                cw.len() == self.cwd@.len(),
                p@ == path_text(cw.take(i as int)),
            decreases self.cwd@.len() - i,
        {
            p.push(47u8);
            append_bytes(&mut p, self.cwd[i].as_slice());
            assert(cw.take(i + 1).drop_last() =~= cw.take(i as int));
            assert(cw[i as int] == self.cwd@[i as int]@);
            i = i + 1;
        }
        assert(cw.take(i as int) =~= cw);
        p.push(62u8);
        p.push(32u8);
        p
    }

    /// The command line the terminal is waiting to run, if any; it is taken.
    pub fn take_pending(&mut self) -> (r: Option<Vec<u8>>)
        ensures
            match old(self).pending_spec() {
                Some(p) => r matches Some(v) && v@ == p,
                None => r is None,
            },
            final(self).pending_spec() is None,
            final(self).lines_spec() == old(self).lines_spec(),
            final(self).cwd_spec() == old(self).cwd_spec(),
            final(self).input_spec() == old(self).input_spec(),
            final(self).id == old(self).id && final(self).x == old(self).x && final(self).y == old(self).y,
            final(self).w == old(self).w && final(self).h == old(self).h,
    {
        let mut r: Option<Vec<u8>> = None;
        std::mem::swap(&mut r, &mut self.pending);
        r
    }

    /// The input line ends: it goes to the scrollback after the prompt, and,
    /// unless it is blank, waits to run.
    fn submit(&mut self)
        ensures
            final(self).lines_spec() == with_line(
                old(self).lines_spec(),
                prompt_text(old(self).cwd_spec()) + old(self).input_spec(),
                old(self).cols_spec(),
            ),
            final(self).input_spec() == Seq::<u8>::empty(),
            final(self).pending_spec() == if trim(old(self).input_spec()).len() == 0 {
                None
            } else {
                Some(old(self).input_spec())
            },
            final(self).cwd_spec() == old(self).cwd_spec(),
            final(self).id == old(self).id && final(self).x == old(self).x && final(self).y == old(self).y,
            final(self).w == old(self).w && final(self).h == old(self).h,
            final(self).cursor_visible_spec() == old(self).cursor_visible_spec(),
            final(self).blink_spec() == old(self).blink_spec(),
    {
        let cmd = copy_bytes(self.input.as_slice());
        let mut line = self.prompt();
        append_bytes(&mut line, cmd.as_slice());
        self.push_line(line.as_slice());
        self.input.clear();
        if trim_bytes(cmd.as_slice()).len() == 0 {
            self.pending = None;
        } else {
            self.pending = Some(cmd);
        }
    }

    /// Starts running a command line: expands its variables, reads its
    /// redirections and its input file. A missing input file is reported in
    /// the scrollback and nothing runs.
    pub fn start_command(&mut self, line: &[u8], sh: &Shell) -> (r: Option<TermCommand>)
        requires
            sh.wf(),
        ensures
            ({
                let t = trim(expand_from(trim(line@), 0, sh.env.map()));
                let (pipeline, out, input) = term_redirections(t);
                match input {
                    Some(f) => if is_file_in(sh.fs.fs_view(), old(self).cwd_spec().push(f)) {
                        &&& r matches Some(c) && stage_views(c.pipeline.stages@) == pipeline_stages(pipeline)
                            && c.pipeline.next == 0 && (c.pipeline.pipe matches Some(p) && p@ == text_of(
                            sh.fs.fs_view()[old(self).cwd_spec().push(f)]->File_0,
                        )) && out_target(c.output) == out
                        &&& final(self).lines_spec() == old(self).lines_spec()
                    } else {
                        &&& r is None
                        &&& final(self).lines_spec() == with_line(
                            old(self).lines_spec(),
                            msg("Plik '", f, "' nie istnieje."),
                            old(self).cols_spec(),
                        )
                    },
                    None => {
                        &&& r matches Some(c) && stage_views(c.pipeline.stages@) == pipeline_stages(pipeline)
                            && c.pipeline.next == 0 && c.pipeline.pipe is None && out_target(c.output) == out
                        &&& final(self).lines_spec() == old(self).lines_spec()
                    },
                }
            }),
            final(self).cwd_spec() == old(self).cwd_spec(),
            final(self).input_spec() == old(self).input_spec(),
            final(self).pending_spec() == old(self).pending_spec(),
            final(self).id == old(self).id && final(self).x == old(self).x && final(self).y == old(self).y,
            final(self).w == old(self).w && final(self).h == old(self).h,
    {
        let t0 = trim_bytes(line);
        let expanded = expand_env_vars(t0, &sh.env);
        let t = trim_bytes(expanded.as_slice());
        let (pipeline, out, input) = term_redirections_of(t);
        let pipe: Option<Vec<u8>> = match input {
            Some(f) => match sh.fs.read(self.cwd.as_slice(), f.as_slice()) {
                Some(data) => {
                    if crate::text::utf8_valid(data) {
                        Some(copy_bytes(data))
                    } else {
                        Some(Vec::new())
                    }
                },
                None => {
                    let m = push_msg("Plik '", f.as_slice(), "' nie istnieje.");
                    self.push_line(m.as_slice());
                    return None;
                },
            },
            None => None,
        };
        let stages = split_stages(pipeline);
        Some(TermCommand { pipeline: Pipeline::new(stages, pipe), output: out })
    }

    /// Runs the next stage of the terminal's command line in its working directory;
    /// `clear` empties the scrollback.
    pub fn run_step(&mut self, cmd: &mut TermCommand, sh: &mut Shell) -> (r: PipelineStep)
        requires
            old(sh).wf(),
        ensures
            final(sh).wf(),
            old(cmd).pipeline.steps_to(
                old(self).cwd_spec(),
                *old(sh),
                true,
                r,
                final(cmd).pipeline,
                final(self).cwd_spec(),
                *final(sh),
            ),
            final(cmd).output == old(cmd).output,
            r is Clear ==> final(self).lines_spec() == Seq::<Seq<u8>>::empty(),
            !(r is Clear) ==> final(self).lines_spec() == old(self).lines_spec(),
            final(self).input_spec() == old(self).input_spec(),
            final(self).pending_spec() == old(self).pending_spec(),
            final(self).id == old(self).id && final(self).x == old(self).x && final(self).y == old(self).y,
            final(self).w == old(self).w && final(self).h == old(self).h,
    {
        let r = cmd.pipeline.step(&mut self.cwd, sh, true);
        match r {
            PipelineStep::Clear => {
                self.lines.clear();
                assert(views(self.lines@) =~= Seq::<Seq<u8>>::empty());
            },
            _ => {},
        }
        r
    }

    /// Shows or stores the output of the command line that ran.
    pub fn finish_command(&mut self, cmd: TermCommand, sh: &mut Shell)
        requires
            old(sh).wf(),
        ensures
            final(sh).wf(),
            final(self).cwd_spec() == old(self).cwd_spec(),
            final(self).input_spec() == old(self).input_spec(),
            final(self).id == old(self).id && final(self).x == old(self).x && final(self).y == old(self).y,
            final(self).w == old(self).w && final(self).h == old(self).h,
            match cmd.pipeline.pipe {
                None => final(self).lines_spec() == old(self).lines_spec() && shell_view(final(sh)) == shell_view(
                    old(sh),
                ),
                Some(o) => exists|d: Delivery|
                    #[trigger] delivered(
                        d,
                        o@,
                        out_target(cmd.output),
                        old(self).cwd_spec(),
                        old(sh).fs.fs_view(),
                        final(sh).fs.fs_view(),
                    ) && final(self).lines_spec() == match d {
                        Delivery::Nothing => old(self).lines_spec(),
                        Delivery::Print(t) => with_lines(old(self).lines_spec(), lines(t@), old(self).cols_spec()),
                        Delivery::Info(m) => with_line(old(self).lines_spec(), m@, old(self).cols_spec()),
                        Delivery::Failure(m) => with_line(old(self).lines_spec(), m@, old(self).cols_spec()),
                    },
            },
    {
        let TermCommand { pipeline, output } = cmd;
        match pipeline.pipe {
            None => {},
            Some(o) => {
                let ghost ov = o@;
                let ghost v0 = sh.fs.fs_view();
                let ghost l00 = self.lines_spec();
                let d = deliver(o, &output, &self.cwd, &mut sh.fs);
                match &d {
                    Delivery::Nothing => {},
                    Delivery::Print(t) => {
                        let ls = split_lines(t.as_slice());
                        let ghost l0 = self.lines_spec();
                        let mut i: usize = 0;
                        while i < ls.len()
                            invariant
                                i <= ls@.len(),
                                self.cols_spec() == old(self).cols_spec(),
                                self.lines_spec() == with_lines(l0, views(ls@).take(i as int), old(self).cols_spec()),
                                self.cwd_spec() == old(self).cwd_spec(),
                                self.input_spec() == old(self).input_spec(),
                                self.id == old(self).id && self.x == old(self).x && self.y == old(self).y,
                                self.w == old(self).w && self.h == old(self).h,
                            decreases ls@.len() - i,
                        {
                            self.push_line(ls[i].as_slice());
                            assert(views(ls@).take(i + 1).drop_last() =~= views(ls@).take(i as int));
                            assert(views(ls@)[i as int] == ls@[i as int]@);
                            i = i + 1;
                        }
                        assert(views(ls@).take(i as int) =~= views(ls@));
                    },
                    Delivery::Info(m) => self.push_line(m.as_slice()),
                    Delivery::Failure(m) => self.push_line(m.as_slice()),
                }
                assert(delivered(d, ov, out_target(output), old(self).cwd_spec(), v0, sh.fs.fs_view()));
            },
        }
    }
}

fn term_redirections_of(line: &[u8]) -> (r: (&[u8], OutputMode, Option<Vec<u8>>))
    ensures
        r.0@ == term_redirections(line@).0,
        out_target(r.1) == term_redirections(line@).1,
        match term_redirections(line@).2 {
            Some(f) => r.2 matches Some(v) && v@ == f,
            None => r.2 is None,
        },
{
    let gg: [u8; 2] = [62u8, 62u8];
    assert(gg@ =~= seq![62u8, 62u8]);
    let mut out = OutputMode::Print;
    let mut end = line.len();
    match rfind_sub(line, &gg) {
        Some(pos) => {
            let f = trim_bytes(&line[pos + 2..line.len()]);
            assert(line@.subrange(pos + 2, line@.len() as int) =~= line@.skip(pos + 2));
            if f.len() > 0 && !contains_byte(f, 124) {
                out = OutputMode::Append(copy_bytes(f));
                end = pos;
            }
        },
        None => match rfind_byte(line, 62) {
            Some(pos) => {
                let f = trim_bytes(&line[pos + 1..line.len()]);
                assert(line@.subrange(pos + 1, line@.len() as int) =~= line@.skip(pos + 1));
                if f.len() > 0 && !contains_byte(f, 124) {
                    out = OutputMode::Write(copy_bytes(f));
                    end = pos;
                }
            },
            None => {},
        },
    }
    let rem = &line[0..end];
    assert(rem@ =~= line@.take(end as int));
    match rfind_byte(rem, 60) {
        Some(pos) => {
            let f = trim_bytes(&rem[pos + 1..rem.len()]);
            assert(rem@.subrange(pos + 1, rem@.len() as int) =~= rem@.skip(pos + 1));
            if f.len() > 0 {
                let pre = &rem[0..pos];
                assert(pre@ =~= rem@.take(pos as int));
                return (pre, out, Some(copy_bytes(f)));
            }
            (rem, out, None)
        },
        None => (rem, out, None),
    }
}


/// The frame after text is drawn from `(x, y)` on a background, its first `n` characters only.
pub open spec fn text_paint_upto(p: Seq<u8>, x: int, y: int, t: Seq<u8>, n: nat, fg: u8, bg: u8) -> Seq<u8>
    decreases t.len(),
{
    if t.len() == 0 {
        p
    } else {
        let prev = text_paint_upto(p, x, y, t.drop_last(), n, fg, bg);
        let k = char_count(t.drop_last());
        if is_continuation(t.last()) || k >= n {
            prev
        } else {
            char_paint(prev, x + 8 * k, y, t.last() as nat, fg, Some(bg))
        }
    }
}

pub open spec fn min_nat(a: nat, b: nat) -> nat {
    if a < b { a } else { b }
}

proof fn lemma_char_count_take(t: Seq<u8>, k: int)
    requires
        0 <= k <= t.len(),
    ensures
        char_count(t.take(k)) <= char_count(t),
    decreases t.len() - k,
{
    if k < t.len() {
        lemma_char_count_take(t, k + 1);
        assert(t.take(k + 1).drop_last() =~= t.take(k));
    } else {
        assert(t.take(k) =~= t);
    }
}

/// Draws the first `n` characters of UTF-8 text on a background; returns how many it drew.
fn draw_upto(fb: &mut Framebuffer, x: i16, y: i16, t: &[u8], n: usize, fg: u8, bg: u8) -> (drawn: usize)
    requires
        old(fb).wf(),
        x + 8 * min_nat(char_count(t@), n as nat) <= 32767,
        y + 8 <= 32768,
    ensures
        final(fb).wf(),
        final(fb)@ == text_paint_upto(old(fb)@, x as int, y as int, t@, n as nat, fg, bg),
        drawn == min_nat(char_count(t@), n as nat),
{
    let ghost p0 = fb@;
    let mut cx = x;
    let mut count: usize = 0;
    let mut i: usize = 0;
    while i < t.len()
        invariant
            fb.wf(),
            i <= t@.len(),
            count == min_nat(char_count(t@.take(i as int)), n as nat),
            cx == x + 8 * count,
            x + 8 * min_nat(char_count(t@), n as nat) <= 32767,
            y + 8 <= 32768,
            fb@ == text_paint_upto(p0, x as int, y as int, t@.take(i as int), n as nat, fg, bg),
        decreases t@.len() - i,
    {
        let b = t[i];
        proof {
            assert(t@.take(i + 1).drop_last() =~= t@.take(i as int));
            lemma_char_count_take(t@, i + 1);
        }
        if !(0x80 <= b && b < 0xC0) && count < n {
            if b < 128 {
                let ch = b as char;
                assert(ch as nat == b as nat);
                draw_char_bg(fb, cx, y, ch, fg, bg);
            }
            cx = cx + 8;
            count = count + 1;
        }
        i = i + 1;
    }
    assert(t@.take(i as int) =~= t@);
    count
}

/// The frame after the scrollback rows are drawn, row `r` at `y + 8 r`, each cut at `cols`.
pub open spec fn rows_paint(p: Seq<u8>, x: int, y: int, rows: Seq<Seq<u8>>, cols: nat, fg: u8, bg: u8) -> Seq<u8>
    decreases rows.len(),
{
    if rows.len() == 0 {
        p
    } else {
        text_paint_upto(
            rows_paint(p, x, y, rows.drop_last(), cols, fg, bg),
            x,
            y + 8 * (rows.len() - 1),
            rows.last(),
            cols,
            fg,
            bg,
        )
    }
}

/// The palette index of the prompt.
pub const PROMPT_COLOR: u8 = 10;

impl TerminalWidget {
    /// The rows of the scrollback that show: the last ones that fit.
    pub open spec fn shown_rows(&self) -> Seq<Seq<u8>> {
        let ls = self.lines_spec();
        if ls.len() > self.rows_spec() {
            ls.skip(ls.len() - self.rows_spec())
        } else {
            ls
        }
    }

    /// How many input characters fit after the prompt.
    pub open spec fn input_room(&self) -> nat {
        let p0 = self.x + 8 * char_count(prompt_text(self.cwd_spec()));
        let room = self.x + self.w - p0;
        if room > 0 { ((room + 7) / 8) as nat } else { 0 }
    }

    /// The frame after the terminal is drawn: the scrollback rows, the prompt,
    /// the input that fits, and the cursor block while it shows.
    pub open spec fn painted(&self, p: Seq<u8>, theme: Theme) -> Seq<u8> {
        let bg = theme.window_bg;
        let fg = theme.text_primary;
        let iy = self.y + 8 * self.rows_spec();
        let pr = prompt_text(self.cwd_spec());
        let p1 = rows_paint(p, self.x as int, self.y as int, self.shown_rows(), self.cols_spec(), fg, bg);
        let p2 = crate::gui::font::text_paint(p1, self.x as int, iy, pr, PROMPT_COLOR, Some(bg));
        let p0x = self.x + 8 * char_count(pr);
        let p3 = text_paint_upto(p2, p0x, iy, self.input_spec(), self.input_room(), fg, bg);
        let cx = p0x + 8 * min_nat(char_count(self.input_spec()), self.input_room());
        if self.cursor_visible_spec() && cx < self.x + self.w {
            paint(p3, rect_brush(cx, iy, 8, 8, fg))
        } else {
            p3
        }
    }

    /// How a key press or a tick changes the terminal, and what it answers.
    pub open spec fn reacts(&self, e: Event, after: &TerminalWidget, r: EventResponse) -> bool {
        match e {
            Event::KeyPress(KeyCode::Char(c)) => {
                &&& r == EventResponse::Consumed
                &&& after.lines_spec() == self.lines_spec()
                &&& after.pending_spec() == self.pending_spec()
                &&& after.input_spec() == if c >= ' ' && self.input_spec().len() < MAX_INPUT {
                    self.input_spec() + vstd::utf8::encode_utf8(seq![c])
                } else {
                    self.input_spec()
                }
            },
            Event::KeyPress(KeyCode::Enter) => {
                &&& r == EventResponse::Consumed
                &&& after.lines_spec() == with_line(
                    self.lines_spec(),
                    prompt_text(self.cwd_spec()) + self.input_spec(),
                    self.cols_spec(),
                )
                &&& after.input_spec() == Seq::<u8>::empty()
                &&& after.pending_spec() == if trim(self.input_spec()).len() == 0 {
                    None
                } else {
                    Some(self.input_spec())
                }
            },
            Event::KeyPress(KeyCode::Backspace) => {
                &&& r == EventResponse::Consumed
                &&& after.lines_spec() == self.lines_spec()
                &&& after.pending_spec() == self.pending_spec()
                &&& after.input_spec() == drop_last_char(self.input_spec())
            },
            Event::Tick => {
                &&& r == EventResponse::Ignored
                &&& after.lines_spec() == self.lines_spec()
                &&& after.input_spec() == self.input_spec()
                &&& after.pending_spec() == self.pending_spec()
                &&& if self.blink_spec() + 1 >= 25 {
                    after.blink_spec() == 0 && after.cursor_visible_spec() == !self.cursor_visible_spec()
                } else {
                    after.blink_spec() == self.blink_spec() + 1 && after.cursor_visible_spec()
                        == self.cursor_visible_spec()
                }
            },
            _ => {
                &&& r == EventResponse::Ignored
                &&& after.lines_spec() == self.lines_spec()
                &&& after.input_spec() == self.input_spec()
                &&& after.pending_spec() == self.pending_spec()
            },
        }
    }
}

impl Widget for TerminalWidget {
    open spec fn id_spec(&self) -> u32 {
        self.id
    }

    open spec fn bounds_spec(&self) -> Rect {
        Rect { x: self.x, y: self.y, w: self.w, h: self.h }
    }

    open spec fn render_ok(&self, theme: Theme) -> bool {
        &&& self.x + self.w + 8 * char_count(prompt_text(self.cwd_spec())) + 16 <= 32767
        &&& self.y + self.h + 16 <= 32767
    }

    open spec fn event_ok(&self) -> bool {
        self.blink < 25
    }

    fn id(&self) -> (r: u32) {
        self.id
    }

    fn bounds(&self) -> (r: Rect) {
        Rect::new(self.x, self.y, self.w, self.h)
    }

    fn set_position(&mut self, x: i16, y: i16)
        ensures
            final(self).x == x && final(self).y == y,
            final(self).w == old(self).w && final(self).h == old(self).h,
            final(self).lines == old(self).lines && final(self).input == old(self).input,
            final(self).cwd == old(self).cwd && final(self).pending == old(self).pending,
            final(self).cursor_visible == old(self).cursor_visible && final(self).blink == old(self).blink,
    {
        self.x = x;
        self.y = y;
    }

    fn render(&mut self, fb: &mut Framebuffer, theme: &Theme)
        ensures
            final(fb)@ == old(self).painted(old(fb)@, *theme),
            *final(self) == *old(self),
    {
        self.draw(fb, theme);
    }

    fn handle_event(&mut self, event: &Event) -> (r: EventResponse)
        ensures
            old(self).reacts(*event, final(self), r),
            final(self).event_ok(),
            final(self).cwd_spec() == old(self).cwd_spec(),
            final(self).x == old(self).x && final(self).y == old(self).y,
            final(self).w == old(self).w && final(self).h == old(self).h,
    {
        match *event {
            Event::KeyPress(KeyCode::Char(ch)) => {
                if ch >= ' ' && self.input.len() < MAX_INPUT {
                    push_char(&mut self.input, ch);
                }
                EventResponse::Consumed
            },
            Event::KeyPress(KeyCode::Enter) => {
                self.submit();
                EventResponse::Consumed
            },
            Event::KeyPress(KeyCode::Backspace) => {
                pop_char(&mut self.input);
                EventResponse::Consumed
            },
            Event::Tick => {
                self.blink = self.blink + 1;
                if self.blink >= 25 {
                    self.blink = 0;
                    self.cursor_visible = !self.cursor_visible;
                }
                EventResponse::Ignored
            },
            _ => EventResponse::Ignored,
        }
    }

    fn focusable(&self) -> (r: bool)
        ensures
            r,
    {
        true
    }
}

impl TerminalWidget {
    pub fn draw(&self, fb: &mut Framebuffer, theme: &Theme)
        requires
            old(fb).wf(),
            self.render_ok(*theme),
        ensures
            final(fb).wf(),
            final(fb)@ == self.painted(old(fb)@, *theme),
    {
        let bg = theme.window_bg;
        let fg = theme.text_primary;
        let cols = self.cols();
        let vis = self.visible_rows();
        let n = self.lines.len();
        let start = if n > vis { n - vis } else { 0 };
        let ghost rows = self.shown_rows();
        let ghost p0 = fb@;
        proof {
            assert(rows =~= views(self.lines@).skip(start as int));
        }
        let mut row: usize = 0;
        while start + row < n
            invariant
                fb.wf(),
                start <= n,
                row <= n - start,
                n == self.lines@.len(),
                n - start <= vis,
                vis == self.rows_spec(),
                cols == self.cols_spec(),
                rows == views(self.lines@).skip(start as int),
                self.render_ok(*theme),
                fb@ == rows_paint(p0, self.x as int, self.y as int, rows.take(row as int), cols as nat, fg, bg),
            decreases n - start - row,
        {
            let line = self.lines[start + row].as_slice();
            proof {
                assert(rows.take(row + 1).drop_last() =~= rows.take(row as int));
                assert(rows.take(row + 1).last() == line@);
                lemma_char_count_upper(line@);
                assert(vis * 8 <= self.h) by (nonlinear_arith)
                    requires vis == (if self.h / 8 >= 1 { (self.h / 8 - 1) as nat } else { 0 });
                assert(cols * 8 <= self.w) by (nonlinear_arith)
                    requires cols == (self.w / 8) as nat;
            }
            let py = (self.y as i32 + row as i32 * 8) as i16;
            draw_upto(fb, self.x, py, line, cols, fg, bg);
            row = row + 1;
        }
        assert(rows.take(row as int) =~= rows);
        proof {
            assert(vis * 8 <= self.h) by (nonlinear_arith)
                requires vis == (if self.h / 8 >= 1 { (self.h / 8 - 1) as nat } else { 0 });
        }
        let iy = (self.y as i32 + vis as i32 * 8) as i16;
        let prompt = self.prompt();
        crate::gui::font::draw_text_bg(fb, self.x, iy, prompt.as_slice(), PROMPT_COLOR, bg);
        let pc = char_count_of(prompt.as_slice());
        let p0x = (self.x as i32 + 8 * pc as i32) as i16;
        let room: i32 = self.x as i32 + self.w as i32 - p0x as i32;
        let k: usize = if room > 0 { ((room + 7) / 8) as usize } else { 0 };
        proof {
            lemma_char_count_upper(self.input@);
        }
        let drawn = draw_upto(fb, p0x, iy, self.input.as_slice(), k, fg, bg);
        let cx = (p0x as i32 + 8 * drawn as i32) as i16;
        if self.cursor_visible && (cx as i32) < self.x as i32 + self.w as i32 {
            fill_rect(fb, cx, iy, 8, 8, fg);
        }
    }
}

/// A text's characters are no more than its bytes.
proof fn lemma_char_count_upper(t: Seq<u8>)
    ensures
        char_count(t) <= t.len(),
    decreases t.len(),
{
    if t.len() > 0 {
        lemma_char_count_upper(t.drop_last());
    }
}

/// How many characters UTF-8 text holds.
pub fn char_count_of(t: &[u8]) -> (r: usize)
    ensures
        r == char_count(t@),
{
    let mut c: usize = 0;
    let mut i: usize = 0;
    while i < t.len()
        invariant
            i <= t@.len(),
            c == char_count(t@.take(i as int)),
            c <= i,
        decreases t@.len() - i,
    {
        assert(t@.take(i + 1).drop_last() =~= t@.take(i as int));
        if !(0x80 <= t[i] && t[i] < 0xC0) {
            c = c + 1;
        }
        i = i + 1;
    }
    assert(t@.take(i as int) =~= t@);
    c
}

} // verus!
