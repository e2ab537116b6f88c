//! The desktop: wallpaper, the terminal icon, and the taskbar with its clock.
use vstd::prelude::*;
use crate::text::{dec, push_decimal, append_bytes};
use crate::gui::event::{Event, MouseButton};
use crate::gui::framebuffer::{Framebuffer, paint};
use crate::gui::theme::Theme;
use crate::gui::primitives::{fill_rect, draw_rect, rect_brush, rect_outline, span, as_i16, fits16, lemma_as_i16};
use crate::gui::font::{draw_text, draw_text_bg, text_paint, char_count};
use crate::gui::widget::{Widget, Rect, EventResponse, rect_has};
use crate::shell::system::{two_digits, FmtBuf, FMT_BUF_SIZE};

verus! {

pub const ICON_X: i16 = 8;
pub const ICON_Y: i16 = 8;
pub const ICON_W: u16 = 32;
pub const ICON_H: u16 = 28;

/// The icon that opens a terminal.
pub open spec fn icon_rect() -> Rect {
    Rect { x: 8, y: 8, w: 32, h: 28 }
}

/// `Term`, under the icon.
pub open spec fn term_label() -> Seq<u8> {
    seq![84u8, 101u8, 114u8, 109u8]
}

/// `PolarOs`, on the taskbar.
pub open spec fn os_label() -> Seq<u8> {
    seq![80u8, 111u8, 108u8, 97u8, 114u8, 79u8, 115u8]
}

/// The clock text for hours, minutes and seconds, cut to sixteen bytes.
pub open spec fn clock_text(h: nat, m: nat, s: nat) -> Seq<u8> {
    let full = dec(h) + seq![58u8] + two_digits(m) + seq![58u8] + two_digits(s);
    full.take(if full.len() <= 16 { full.len() as int } else { 16 })
}

/// `h:mm:ss` in a sixteen-byte buffer.
pub fn format_time(h: u64, m: u64, s: u64) -> (r: Vec<u8>)
    ensures
        r@ == clock_text(h as nat, m as nat, s as nat),
        r@.len() <= 16,
{
    let mut full: Vec<u8> = Vec::new();
    push_decimal(&mut full, h);
    full.push(58u8);
    let mut d: Vec<u8> = Vec::new();
    push_decimal(&mut d, m);
    crate::text::push_padded(&mut full, d.as_slice(), 2);
    full.push(58u8);
    let mut e: Vec<u8> = Vec::new();
    push_decimal(&mut e, s);
    crate::text::push_padded(&mut full, e.as_slice(), 2);
    let n = if full.len() <= 16 { full.len() } else { 16 };
    full.truncate(n);
    full
}

pub struct Desktop {
    pub id: u32,
    pub wallpaper: Vec<u8>,
    pub wallpaper_w: u16,
    pub wallpaper_h: u16,
    /// The timer ticks the clock shows.
    pub clock: u64,
}

/// The frame with the wallpaper copied in, row by row from the top left.
pub open spec fn wallpaper_paint(p: Seq<u8>, wall: Seq<u8>, h: int) -> Seq<u8> {
    paint(p, |px: int, py: int| if 0 <= px < 320 && 0 <= py < h { Some(wall[py * 320 + px]) } else { None })
}

impl Desktop {
    /// A desktop over a pre-drawn wallpaper of the screen's width and the height above the taskbar.
    pub fn new(id: u32, theme: &Theme, wallpaper: Vec<u8>) -> (d: Desktop)
        requires
            theme.taskbar_height <= 200,
            wallpaper@.len() == 320 * (200 - theme.taskbar_height),
        ensures
            d.id == id,
            d.wallpaper == wallpaper,
            d.wallpaper_w == 320,
            d.wallpaper_h == 200 - theme.taskbar_height,
            d.clock == 0,
    {
        Desktop { id, wallpaper, wallpaper_w: 320, wallpaper_h: 200 - theme.taskbar_height, clock: 0 }
    }

    pub fn icon_rect(&self) -> (r: Rect)
        ensures
            r == icon_rect(),
    {
        Rect::new(ICON_X, ICON_Y, ICON_W, ICON_H)
    }

    pub open spec fn taskbar_y(&self, theme: Theme) -> int {
        200 - as_i16(theme.taskbar_height)
    }

    pub open spec fn clock_shown(&self) -> Seq<u8> {
        let secs = self.clock / 100;
        clock_text((secs / 3600) as nat, ((secs % 3600) / 60) as nat, (secs % 60) as nat)
    }

    /// The frame after the desktop is drawn: wallpaper, icon, icon label, taskbar, name, clock.
    pub open spec fn painted(&self, p: Seq<u8>, theme: Theme) -> Seq<u8> {
        let p1 = wallpaper_paint(p, self.wallpaper@, self.wallpaper_h as int);
        let p2 = paint(p1, rect_brush(8, 8, 32, 28, theme.title_bg));
        let p3 = rect_outline(p2, 8, 8, 32, 28, theme.border);
        let p4 = text_paint(p3, 12, 12, seq![62u8, 95u8], theme.text_bright, None);
        let p5 = text_paint(p4, 4, 38, term_label(), theme.text_primary, None);
        let tb = self.taskbar_y(theme);
        let p6 = paint(p5, rect_brush(0, tb, 320, span(theme.taskbar_height), theme.taskbar_bg));
        let p7 = text_paint(p6, 4, tb + 3, os_label(), theme.text_bright, Some(theme.taskbar_bg));
        let t = self.clock_shown();
        text_paint(p7, 320 - 8 * t.len() - 4, tb + 3, t, theme.taskbar_text, Some(theme.taskbar_bg))
    }

    fn blit(&self, fb: &mut Framebuffer)
        requires
            old(fb).wf(),
            self.wallpaper_w == 320,
            self.wallpaper_h <= 200,
            self.wallpaper@.len() >= 320 * self.wallpaper_h,
        ensures
            final(fb).wf(),
            final(fb)@ == wallpaper_paint(old(fb)@, self.wallpaper@, self.wallpaper_h as int),
    {
        let ghost p0 = fb@;
        let ghost wall = self.wallpaper@;
        let h = self.wallpaper_h as usize;
        proof {
            fb.lemma_wf();
            assert(p0 =~= paint(p0, |px: int, py: int| if 0 <= px < 320 && 0 <= py < 0 { Some(wall[py * 320 + px]) } else { None }));
        }
        let mut y: usize = 0;
        while y < h
            invariant
                fb.wf(),
                p0.len() == 64000,
                y <= h,
                h <= 200,
                wall == self.wallpaper@,
                wall.len() >= 320 * h,
                fb@ == paint(p0, |px: int, py: int| if 0 <= px < 320 && 0 <= py < y { Some(wall[py * 320 + px]) } else { None }),
            decreases h - y,
        {
            let mut x: usize = 0;
            while x < 320
                invariant
                    fb.wf(),
                    p0.len() == 64000,
                    x <= 320,
                    y < h,
                    h <= 200,
                    wall == self.wallpaper@,
                    wall.len() >= 320 * h,
                    fb@ == paint(p0, |px: int, py: int| if (0 <= px < 320 && 0 <= py < y) || (0 <= px < x && py == y) { Some(wall[py * 320 + px]) } else { None }),
                decreases 320 - x,
            {
                let color = self.wallpaper[y * 320 + x];
                fb.set_pixel(x as i16, y as i16, color);
                assert(fb@ =~= paint(p0, |px: int, py: int| if (0 <= px < 320 && 0 <= py < y) || (0 <= px < x + 1 && py == y) { Some(wall[py * 320 + px]) } else { None }));
                x = x + 1;
            }
            assert(fb@ =~= paint(p0, |px: int, py: int| if 0 <= px < 320 && 0 <= py < y + 1 { Some(wall[py * 320 + px]) } else { None }));
            y = y + 1;
        }
    }

    pub fn draw(&self, fb: &mut Framebuffer, theme: &Theme)
        requires
            old(fb).wf(),
            self.render_ok(*theme),
        ensures
            final(fb).wf(),
            final(fb)@ == self.painted(old(fb)@, *theme),
    {
        self.blit(fb);
        let ir = self.icon_rect();
        fill_rect(fb, ir.x, ir.y, ir.w, ir.h, theme.title_bg);
        draw_rect(fb, ir.x, ir.y, ir.w, ir.h, theme.border);
        let icon: [u8; 2] = [62u8, 95u8];
        assert(icon@ =~= seq![62u8, 95u8]);
        proof {
            lemma_ascii_count(icon@);
        }
        draw_text(fb, ir.x + 4, ir.y + 4, &icon, theme.text_bright);
        let term: [u8; 4] = [84u8, 101u8, 114u8, 109u8];
        assert(term@ =~= term_label());
        proof {
            lemma_ascii_count(term@);
        }
        draw_text(fb, ir.x - 4, ir.y + ir.h as i16 + 2, &term, theme.text_primary);
        proof {
            lemma_as_i16(theme.taskbar_height);
        }
        let tb_y = 200i16 - theme.taskbar_height as i16;
        fill_rect(fb, 0, tb_y, 320, theme.taskbar_height, theme.taskbar_bg);
        let name: [u8; 7] = [80u8, 111u8, 108u8, 97u8, 114u8, 79u8, 115u8];
        assert(name@ =~= os_label());
        proof {
            lemma_ascii_count(name@);
        }
        draw_text_bg(fb, 4, tb_y + 3, &name, theme.text_bright, theme.taskbar_bg);
        let secs = self.clock / 100;
        let t = format_time(secs / 3600, (secs % 3600) / 60, secs % 60);
        proof {
            lemma_count_upper(t@);
        }
        let tw = t.len() as i16 * 8;
        draw_text_bg(fb, 320 - tw - 4, tb_y + 3, t.as_slice(), theme.taskbar_text, theme.taskbar_bg);
    }
}

/// ASCII text has one character per byte.
proof fn lemma_ascii_count(t: Seq<u8>)
    requires
        forall|i: int| 0 <= i < t.len() ==> t[i] < 128,
    ensures
        char_count(t) == t.len(),
    decreases t.len(),
{
    if t.len() > 0 {
        lemma_ascii_count(t.drop_last());
    }
}

proof fn lemma_count_upper(t: Seq<u8>)
    ensures
        char_count(t) <= t.len(),
    decreases t.len(),
{
    if t.len() > 0 {
        lemma_count_upper(t.drop_last());
    }
}

impl Widget for Desktop {
    open spec fn id_spec(&self) -> u32 {
        self.id
    }

    open spec fn bounds_spec(&self) -> Rect {
        Rect { x: 0, y: 0, w: 320, h: 200 }
    }

    open spec fn render_ok(&self, theme: Theme) -> bool {
        &&& self.wallpaper_w == 320
        &&& self.wallpaper_h <= 200
        &&& self.wallpaper@.len() >= 320 * self.wallpaper_h
        &&& fits16(200 - as_i16(theme.taskbar_height))
        &&& fits16(200 - as_i16(theme.taskbar_height) + 3)
        &&& 200 - as_i16(theme.taskbar_height) + span(theme.taskbar_height) <= 32768
        &&& 200 - as_i16(theme.taskbar_height) + 3 + 8 <= 32768
    }

    open spec fn event_ok(&self) -> bool {
        true
    }

    fn id(&self) -> (r: u32) {
        self.id
    }

    fn bounds(&self) -> (r: Rect) {
        Rect::new(0, 0, 320, 200)
    }

    fn set_position(&mut self, x: i16, y: i16)
        ensures
            *final(self) == *old(self),
    {
    }

    fn render(&mut self, fb: &mut Framebuffer, theme: &Theme)
        ensures
            final(fb)@ == old(self).painted(old(fb)@, *theme),
            *final(self) == *old(self),
    {
        self.draw(fb, theme);
    }

    /// A left press on the icon asks for a new terminal.
    fn handle_event(&mut self, event: &Event) -> (r: EventResponse)
        ensures
            *final(self) == *old(self),
            r == match *event {
                Event::MouseDown { x, y, button: MouseButton::Left } => if rect_has(icon_rect(), x as int, y as int) {
                    EventResponse::OpenTerminal
                } else {
                    EventResponse::Ignored
                },
                _ => EventResponse::Ignored,
            },
    {
        match *event {
            Event::MouseDown { x, y, button: MouseButton::Left } => {
                if self.icon_rect().contains(x, y) {
                    return EventResponse::OpenTerminal;
                }
                EventResponse::Ignored
            },
            _ => EventResponse::Ignored,
        }
    }

    fn focusable(&self) -> (r: bool)
        ensures
            !r,
    {
        false
    }
}

} // verus!
