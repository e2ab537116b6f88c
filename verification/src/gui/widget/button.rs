//! A push button with a centered label.
use vstd::prelude::*;
use crate::gui::event::{Event, MouseButton};
use crate::gui::framebuffer::{Framebuffer, paint};
use crate::gui::theme::Theme;
use crate::gui::primitives::{fill_rect, rect_brush, span, as_i16, fits16, lemma_as_i16};
use crate::gui::font::{draw_text, text_width, text_paint, char_count};
use crate::gui::widget::{Widget, Rect, EventResponse, half, half_i16, rect_has, rect_fits};

verus! {

#[derive(Debug, Clone, Copy, PartialEq, Eq, Structural)]
pub enum ButtonState {
    Normal,
    Hovered,
    Pressed,
}

pub struct Button {
    pub id: u32,
    pub x: i16,
    pub y: i16,
    pub w: u16,
    pub h: u16,
    pub label: Vec<u8>,
    pub state: ButtonState,
}

impl Button {
    pub fn new(id: u32, x: i16, y: i16, w: u16, h: u16, label: &[u8]) -> (b: Button)
        ensures
            b.id == id && b.x == x && b.y == y && b.w == w && b.h == h,
            b.label@ == label@,
            b.state == ButtonState::Normal,
    {
        Button { id, x, y, w, h, label: crate::text::copy_bytes(label), state: ButtonState::Normal }
    }

    pub open spec fn rect(&self) -> Rect {
        Rect { x: self.x, y: self.y, w: self.w, h: self.h }
    }

    pub open spec fn bg(&self, theme: Theme) -> u8 {
        match self.state {
            ButtonState::Normal => theme.button_bg,
            ButtonState::Hovered => theme.button_hover,
            ButtonState::Pressed => theme.button_pressed,
        }
    }

    /// Where the label starts: centered in the button.
    pub open spec fn label_x(&self) -> int {
        self.x + half(as_i16(self.w) - as_i16((self.label@.len() * 8) as u16))
    }

    pub open spec fn label_y(&self) -> int {
        self.y + half(as_i16(self.h) - 8)
    }

    /// The frame after the button is drawn: its background, then its label.
    pub open spec fn painted(&self, p: Seq<u8>, theme: Theme) -> Seq<u8> {
        text_paint(
            paint(p, rect_brush(self.x as int, self.y as int, span(self.w), span(self.h), self.bg(theme))),
            self.label_x(),
            self.label_y(),
            self.label@,
            theme.button_text,
            None,
        )
    }

    /// How a pointer event changes the button's state, and what it answers.
    pub open spec fn react(&self, e: Event) -> (ButtonState, EventResponse) {
        match e {
            Event::MouseMove { x, y } => if rect_has(self.rect(), x as int, y as int) {
                (if self.state != ButtonState::Pressed { ButtonState::Hovered } else { self.state }, EventResponse::Ignored)
            } else {
                (ButtonState::Normal, EventResponse::Ignored)
            },
            Event::MouseDown { x, y, button: MouseButton::Left } => if rect_has(self.rect(), x as int, y as int) {
                (ButtonState::Pressed, EventResponse::Consumed)
            } else {
                (self.state, EventResponse::Ignored)
            },
            Event::MouseUp { x, y, button: MouseButton::Left } => if self.state == ButtonState::Pressed && rect_has(
                self.rect(),
                x as int,
                y as int,
            ) {
                (ButtonState::Hovered, EventResponse::Consumed)
            } else {
                (ButtonState::Normal, EventResponse::Ignored)
            },
            _ => (self.state, EventResponse::Ignored),
        }
    }
}

impl Button {
    /// Draws the button: its background for its state, then its label centered.
    pub fn draw(&self, fb: &mut Framebuffer, theme: &Theme)
        requires
            old(fb).wf(),
            self.render_ok(*theme),
        ensures
            final(fb).wf(),
            final(fb)@ == self.painted(old(fb)@, *theme),
    {
        let bg = match self.state {
            ButtonState::Normal => theme.button_bg,
            ButtonState::Hovered => theme.button_hover,
            ButtonState::Pressed => theme.button_pressed,
        };
        fill_rect(fb, self.x, self.y, self.w, self.h, bg);
        let tw = text_width(self.label.as_slice());
        proof {
            lemma_as_i16(self.w);
            lemma_as_i16(tw);
            lemma_as_i16(self.h);
        }
        let tx = self.x + half_i16(self.w as i16 - tw as i16);
        let ty = self.y + half_i16(self.h as i16 - 8);
        draw_text(fb, tx, ty, self.label.as_slice(), theme.button_text);
    }
}

impl Widget for Button {
    open spec fn id_spec(&self) -> u32 {
        self.id
    }

    open spec fn bounds_spec(&self) -> Rect {
        self.rect()
    }

    open spec fn render_ok(&self, theme: Theme) -> bool {
        &&& self.label@.len() < 8192
        &&& self.x + span(self.w) <= 32768
        &&& self.y + span(self.h) <= 32768
        &&& fits16(as_i16(self.w) - as_i16((self.label@.len() * 8) as u16))
        &&& fits16(self.label_x())
        &&& fits16(as_i16(self.h) - 8)
        &&& fits16(self.label_y())
        &&& self.label_x() + 8 * char_count(self.label@) <= 32767
        &&& self.label_y() + 8 <= 32768
    }

    open spec fn event_ok(&self) -> bool {
        rect_fits(self.rect())
    }

    fn id(&self) -> (r: u32) {
        self.id
    }

    fn bounds(&self) -> (r: Rect) {
        Rect::new(self.x, self.y, self.w, self.h)
    }

    fn set_position(&mut self, x: i16, y: i16)
        ensures
            final(self).x == x && final(self).y == y,
            final(self).w == old(self).w && final(self).h == old(self).h,
            final(self).label == old(self).label && final(self).state == old(self).state,
    {
        self.x = x;
        self.y = y;
    }

    fn render(&mut self, fb: &mut Framebuffer, theme: &Theme)
        ensures
            final(fb)@ == old(self).painted(old(fb)@, *theme),
            *final(self) == *old(self),
    {
        self.draw(fb, theme);
    }

    fn handle_event(&mut self, event: &Event) -> (r: EventResponse)
        ensures
            (final(self).state, r) == old(self).react(*event),
            final(self).x == old(self).x && final(self).y == old(self).y,
            final(self).w == old(self).w && final(self).h == old(self).h,
            final(self).label == old(self).label,
    {
        let r = self.bounds();
        match *event {
            Event::MouseMove { x, y } => {
                if r.contains(x, y) {
                    if self.state != ButtonState::Pressed {
                        self.state = ButtonState::Hovered;
                    }
                } else {
                    self.state = ButtonState::Normal;
                }
                EventResponse::Ignored
            },
            Event::MouseDown { x, y, button: MouseButton::Left } => {
                if r.contains(x, y) {
                    self.state = ButtonState::Pressed;
                    EventResponse::Consumed
                } else {
                    EventResponse::Ignored
                }
            },
            Event::MouseUp { x, y, button: MouseButton::Left } => {
                if self.state == ButtonState::Pressed && r.contains(x, y) {
                    self.state = ButtonState::Hovered;
                    EventResponse::Consumed
                } else {
                    self.state = ButtonState::Normal;
                    EventResponse::Ignored
                }
            },
            _ => EventResponse::Ignored,
        }
    }

    fn focusable(&self) -> (r: bool)
        ensures
            r,
    {
        true
    }
}

} // verus!
