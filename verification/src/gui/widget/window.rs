//! A window: border, title bar with a close button, and a terminal as content.
use vstd::prelude::*;
use crate::gui::event::{Event, MouseButton};
use crate::gui::framebuffer::{Framebuffer, paint};
use crate::gui::theme::{Theme, default_dark_theme, dark_theme};
use crate::gui::primitives::{fill_rect, draw_rect, rect_brush, rect_outline, span, as_i16, fits16, lemma_as_i16};
use crate::gui::font::{draw_text, text_paint, char_count};
use crate::gui::widget::{Widget, Rect, EventResponse, rect_has, rect_fits};
use crate::gui::widget::terminal::TerminalWidget;

verus! {

pub struct Window {
    pub id: u32,
    pub x: i16,
    pub y: i16,
    pub w: u16,
    pub h: u16,
    pub title: Vec<u8>,
    pub content: Option<TerminalWidget>,
}

/// The close button's square for a window at `(x, y)` of width `w`.
pub open spec fn close_rect_of(x: int, y: int, w: u16, th: u16) -> Rect {
    Rect {
        x: (x + as_i16(w) - as_i16((th - 2) as u16) - 1) as i16,
        y: (y + 1) as i16,
        w: (th - 2) as u16,
        h: (th - 2) as u16,
    }
}

/// The close button's arithmetic fits in `i16`.
pub open spec fn close_rect_ok(x: int, y: int, w: u16, th: u16) -> bool {
    &&& th >= 2
    &&& fits16(x + as_i16(w))
    &&& fits16(x + as_i16(w) - as_i16((th - 2) as u16))
    &&& fits16(x + as_i16(w) - as_i16((th - 2) as u16) - 1)
    &&& fits16(y + 1)
}

impl Window {
    pub fn new(id: u32, x: i16, y: i16, w: u16, h: u16, title: &[u8]) -> (win: Window)
        ensures
            win.id == id && win.x == x && win.y == y && win.w == w && win.h == h,
            win.title@ == title@,
            win.content is None,
    {
        Window { id, x, y, w, h, title: crate::text::copy_bytes(title), content: None }
    }

    pub fn set_content(&mut self, t: TerminalWidget)
        ensures
            final(self).content == Some(t),
            final(self).id == old(self).id && final(self).x == old(self).x && final(self).y == old(self).y,
            final(self).w == old(self).w && final(self).h == old(self).h && final(self).title == old(self).title,
    {
        self.content = Some(t);
    }

    pub fn title_bar_rect(&self, theme: &Theme) -> (r: Rect)
        ensures
            r == (Rect { x: self.x, y: self.y, w: self.w, h: theme.title_height }),
    {
        Rect::new(self.x, self.y, self.w, theme.title_height)
    }

    pub fn close_button_rect(&self, theme: &Theme) -> (r: Rect)
        requires
            close_rect_ok(self.x as int, self.y as int, self.w, theme.title_height),
        ensures
            r == close_rect_of(self.x as int, self.y as int, self.w, theme.title_height),
    {
        let size = theme.title_height - 2;
        proof {
            lemma_as_i16(self.w);
            lemma_as_i16(size);
        }
        Rect::new(self.x + self.w as i16 - size as i16 - 1, self.y + 1, size, size)
    }

    pub open spec fn content_rect_spec(&self, th: u16) -> Rect {
        Rect { x: (self.x + 1) as i16, y: (self.y + as_i16(th)) as i16, w: (self.w - 2) as u16, h: (self.h - th - 1) as u16 }
    }

    pub open spec fn content_rect_ok(&self, th: u16) -> bool {
        &&& self.w >= 2
        &&& self.h >= th + 1
        &&& fits16(self.x + 1)
        &&& fits16(self.y + as_i16(th))
    }

    pub fn content_rect(&self, theme: &Theme) -> (r: Rect)
        requires
            self.content_rect_ok(theme.title_height),
        ensures
            r == self.content_rect_spec(theme.title_height),
    {
        proof {
            lemma_as_i16(theme.title_height);
        }
        Rect::new(self.x + 1, self.y + theme.title_height as i16, self.w - 2, self.h - theme.title_height - 1)
    }

    /// The terminal moved and sized to the content area.
    pub open spec fn placed(&self, t: TerminalWidget, th: u16) -> TerminalWidget {
        let cr = self.content_rect_spec(th);
        TerminalWidget { x: cr.x, y: cr.y, w: cr.w, h: cr.h, ..t }
    }

    /// The frame after the window is drawn: border, title bar, title, close
    /// button, content background, then the content in the content area.
    pub open spec fn painted(&self, p: Seq<u8>, theme: Theme) -> Seq<u8> {
        let th = theme.title_height;
        let p1 = rect_outline(p, self.x as int, self.y as int, self.w, self.h, theme.border);
        let p2 = paint(p1, rect_brush(self.x + 1, self.y + 1, span((self.w - 2) as u16), span((th - 1) as u16), theme.title_bg));
        let p3 = text_paint(p2, self.x + 4, self.y + 2, self.title@, theme.title_text, None);
        let cb = close_rect_of(self.x as int, self.y as int, self.w, th);
        let p4 = paint(p3, rect_brush(cb.x as int, cb.y as int, span(cb.w), span(cb.h), theme.close_btn));
        let p5 = text_paint(p4, cb.x + 1, cb.y + 1, seq![120u8], theme.text_bright, None);
        let cr = self.content_rect_spec(th);
        let p6 = paint(p5, rect_brush(cr.x as int, cr.y as int, span(cr.w), span(cr.h), theme.window_bg));
        match self.content {
            Some(t) => self.placed(t, th).painted(p6, theme),
            None => p6,
        }
    }

    /// What the window answers to an event, given its content's answer `inner`.
    /// Whether the content is handed the event: a left press that is inside
    /// the window and off the close button, or any other event.
    pub open spec fn delivers(&self, e: Event) -> bool {
        match e {
            Event::MouseDown { x, y, button: MouseButton::Left } => !rect_has(
                close_rect_of(self.x as int, self.y as int, self.w, 12),
                x as int,
                y as int,
            ) && rect_has(Rect { x: self.x, y: self.y, w: self.w, h: self.h }, x as int, y as int),
            _ => true,
        }
    }

    /// How the window changes when handed an event, and what it answers:
    /// its frame stays; the content, when the event reaches it, reacts to it
    /// with the answer `inner`, from which the window's own answer follows.
    pub open spec fn steps(&self, e: Event, after: Window, r: EventResponse) -> bool {
        &&& after.id == self.id
        &&& after.x == self.x && after.y == self.y
        &&& after.w == self.w && after.h == self.h
        &&& after.title == self.title
        &&& after.content is Some == self.content is Some
        &&& after.event_ok()
        &&& exists|inner: Option<EventResponse>| {
            &&& r == self.answer(e, inner)
            &&& inner is Some <==> (self.content is Some && self.delivers(e))
            &&& match inner {
                None => after.content == self.content,
                Some(v) => self.content.unwrap().reacts(e, &after.content.unwrap(), v),
            }
        }
    }

    pub open spec fn answer(&self, e: Event, inner: Option<EventResponse>) -> EventResponse {
        match e {
            Event::MouseDown { x, y, button: MouseButton::Left } => if rect_has(
                close_rect_of(self.x as int, self.y as int, self.w, 12),
                x as int,
                y as int,
            ) {
                EventResponse::CloseRequest
            } else if rect_has(Rect { x: self.x, y: self.y, w: self.w, h: self.h }, x as int, y as int) {
                match inner {
                    Some(r) => if r != EventResponse::Ignored { r } else { EventResponse::Consumed },
                    None => EventResponse::Consumed,
                }
            } else {
                EventResponse::Ignored
            },
            _ => match inner {
                Some(r) => r,
                None => EventResponse::Ignored,
            },
        }
    }

    pub fn draw(&mut self, fb: &mut Framebuffer, theme: &Theme)
        requires
            old(fb).wf(),
            old(self).render_ok(*theme),
        ensures
            final(fb).wf(),
            final(fb)@ == old(self).painted(old(fb)@, *theme),
            final(self).id == old(self).id && final(self).x == old(self).x && final(self).y == old(self).y,
            final(self).w == old(self).w && final(self).h == old(self).h && final(self).title == old(self).title,
            final(self).content == match old(self).content {
                Some(t) => Some(old(self).placed(t, theme.title_height)),
                None => None,
            },
    {
        proof {
            lemma_as_i16(self.w);
            lemma_as_i16(self.h);
            lemma_as_i16(theme.title_height);
        }
        draw_rect(fb, self.x, self.y, self.w, self.h, theme.border);
        fill_rect(fb, self.x + 1, self.y + 1, self.w - 2, theme.title_height - 1, theme.title_bg);
        draw_text(fb, self.x + 4, self.y + 2, self.title.as_slice(), theme.title_text);
        let cb = self.close_button_rect(theme);
        fill_rect(fb, cb.x, cb.y, cb.w, cb.h, theme.close_btn);
        let xs: [u8; 1] = [120u8];
        assert(xs@ =~= seq![120u8]);
        proof {
            assert(char_count(seq![120u8]) == 1) by {
                assert(seq![120u8].drop_last() =~= Seq::<u8>::empty());
                assert(char_count(Seq::<u8>::empty()) == 0);
                assert(!crate::text::is_continuation(seq![120u8].last()));
            }
        }
        draw_text(fb, cb.x + 1, cb.y + 1, &xs, theme.text_bright);
        let cr = self.content_rect(theme);
        fill_rect(fb, cr.x, cr.y, cr.w, cr.h, theme.window_bg);
        match self.content.take() {
            Some(t) => {
                let mut t = t;
                t.x = cr.x;
                t.y = cr.y;
                t.w = cr.w;
                t.h = cr.h;
                t.draw(fb, theme);
                self.content = Some(t);
            },
            None => {},
        }
    }
}

impl Widget for Window {
    open spec fn id_spec(&self) -> u32 {
        self.id
    }

    open spec fn bounds_spec(&self) -> Rect {
        Rect { x: self.x, y: self.y, w: self.w, h: self.h }
    }

    open spec fn render_ok(&self, theme: Theme) -> bool {
        let th = theme.title_height;
        let cb = close_rect_of(self.x as int, self.y as int, self.w, th);
        let cr = self.content_rect_spec(th);
        &&& th >= 2
        &&& self.content_rect_ok(th)
        &&& close_rect_ok(self.x as int, self.y as int, self.w, th)
        &&& self.x + span(self.w) <= 32768
        &&& self.y + span(self.h) <= 32768
        &&& fits16(self.y + as_i16(self.h))
        &&& fits16(self.y + as_i16(self.h) - 1)
        &&& fits16(self.x + as_i16(self.w) - 1)
        &&& fits16(self.y + 1)
        &&& self.x + 1 + span((self.w - 2) as u16) <= 32768
        &&& self.y + 1 + span((th - 1) as u16) <= 32768
        &&& fits16(self.x + 4)
        &&& fits16(self.y + 2)
        &&& self.x + 4 + 8 * char_count(self.title@) <= 32767
        &&& self.y + 2 + 8 <= 32768
        &&& cb.x + span(cb.w) <= 32768
        &&& cb.y + span(cb.h) <= 32768
        &&& cb.x + 1 + 8 <= 32767
        &&& cb.y + 1 + 8 <= 32768
        &&& cr.x + span(cr.w) <= 32768
        &&& cr.y + span(cr.h) <= 32768
        &&& match self.content {
            Some(t) => self.placed(t, th).render_ok(theme),
            None => true,
        }
    }

    open spec fn event_ok(&self) -> bool {
        &&& close_rect_ok(self.x as int, self.y as int, self.w, 12)
        &&& rect_fits(close_rect_of(self.x as int, self.y as int, self.w, 12))
        &&& rect_fits(Rect { x: self.x, y: self.y, w: self.w, h: self.h })
        &&& match self.content {
            Some(t) => t.event_ok(),
            None => true,
        }
    }

    fn id(&self) -> (r: u32) {
        self.id
    }

    fn bounds(&self) -> (r: Rect) {
        Rect::new(self.x, self.y, self.w, self.h)
    }

    fn set_position(&mut self, x: i16, y: i16)
        ensures
            final(self).x == x && final(self).y == y,
            final(self).w == old(self).w && final(self).h == old(self).h,
            final(self).title == old(self).title && final(self).content == old(self).content,
    {
        self.x = x;
        self.y = y;
    }

    fn render(&mut self, fb: &mut Framebuffer, theme: &Theme)
        ensures
            final(fb)@ == old(self).painted(old(fb)@, *theme),
    {
        self.draw(fb, theme);
    }

    /// The close button asks to close; a press inside the window goes to the
    /// content and is taken; other events go to the content.
    fn handle_event(&mut self, event: &Event) -> (r: EventResponse)
        ensures
            old(self).steps(*event, *final(self), r),
    {
        let theme = default_dark_theme();
        match *event {
            Event::MouseDown { x, y, button: MouseButton::Left } => {
                let cb = self.close_button_rect(&theme);
                if cb.contains(x, y) {
                    assert(self.answer(*event, None) == EventResponse::CloseRequest);
                    return EventResponse::CloseRequest;
                }
                if self.bounds().contains(x, y) {
                    match self.content.take() {
                        Some(t) => {
                            let mut t = t;
                            let resp = t.handle_event(event);
                            self.content = Some(t);
                            assert(old(self).answer(*event, Some(resp)) == if resp != EventResponse::Ignored { resp } else { EventResponse::Consumed });
                            if resp != EventResponse::Ignored {
                                return resp;
                            }
                            return EventResponse::Consumed;
                        },
                        None => {
                            assert(old(self).answer(*event, None) == EventResponse::Consumed);
                            return EventResponse::Consumed;
                        },
                    }
                }
                assert(old(self).answer(*event, None) == EventResponse::Ignored);
                EventResponse::Ignored
            },
            _ => {
                match self.content.take() {
                    Some(t) => {
                        let mut t = t;
                        let resp = t.handle_event(event);
                        self.content = Some(t);
                        assert(old(self).answer(*event, Some(resp)) == resp);
                        resp
                    },
                    None => {
                        assert(old(self).answer(*event, None) == EventResponse::Ignored);
                        EventResponse::Ignored
                    },
                }
            },
        }
    }

    fn focusable(&self) -> (r: bool)
        ensures
            r,
    {
        true
    }
}

impl Window {
    /// The window's terminal, if it has one.
    pub fn as_terminal(&mut self) -> (r: Option<&mut TerminalWidget>)
        ensures
            old(self).content is None ==> r is None && *final(self) == *old(self),
            old(self).content is Some ==> {
                &&& r is Some
                &&& *r.unwrap() == old(self).content.unwrap()
                &&& final(self).content == Some(*final(r.unwrap()))
                &&& final(self).id == old(self).id && final(self).x == old(self).x && final(self).y == old(self).y
                &&& final(self).w == old(self).w && final(self).h == old(self).h
                &&& final(self).title == old(self).title
            },
    {
        match &mut self.content {
            Some(t) => Some(t),
            None => None,
        }
    }
}

} // verus!


