//! A line of text.
use vstd::prelude::*;
use crate::gui::event::Event;
use crate::gui::framebuffer::Framebuffer;
use crate::gui::theme::Theme;
use crate::gui::font::{draw_text, text_width, text_paint, char_count, CHAR_HEIGHT};
use crate::gui::widget::{Widget, Rect, EventResponse};

verus! {

pub struct Label {
    pub id: u32,
    pub x: i16,
    pub y: i16,
    pub text: Vec<u8>,
    pub color: Option<u8>,
}

impl Label {
    pub fn new(id: u32, x: i16, y: i16, text: &[u8]) -> (l: Label)
        ensures
            l.id == id && l.x == x && l.y == y && l.text@ == text@ && l.color is None,
    {
        Label { id, x, y, text: crate::text::copy_bytes(text), color: None }
    }

    /// The label in a color of its own instead of the theme's.
    pub fn with_color(self, color: u8) -> (l: Label)
        ensures
            l.id == self.id && l.x == self.x && l.y == self.y && l.text == self.text && l.color == Some(color),
    {
        let mut l = self;
        l.color = Some(color);
        l
    }

    pub open spec fn color_in(&self, theme: Theme) -> u8 {
        match self.color {
            Some(c) => c,
            None => theme.text_primary,
        }
    }
}

impl Label {
    /// Draws the text in the label's color, or the theme's.
    pub fn draw(&self, fb: &mut Framebuffer, theme: &Theme)
        requires
            old(fb).wf(),
            self.render_ok(*theme),
        ensures
            final(fb).wf(),
            final(fb)@ == text_paint(old(fb)@, self.x as int, self.y as int, self.text@, self.color_in(*theme), None),
    {
        let color = match self.color {
            Some(c) => c,
            None => theme.text_primary,
        };
        draw_text(fb, self.x, self.y, self.text.as_slice(), color);
    }
}

impl Widget for Label {
    open spec fn id_spec(&self) -> u32 {
        self.id
    }

    open spec fn bounds_spec(&self) -> Rect {
        Rect { x: self.x, y: self.y, w: ((self.text@.len() % 8192) * 8) as u16, h: 8 }
    }

    open spec fn render_ok(&self, theme: Theme) -> bool {
        &&& self.x + 8 * char_count(self.text@) <= 32767
        &&& self.y + 8 <= 32768
    }

    open spec fn event_ok(&self) -> bool {
        true
    }

    fn id(&self) -> (r: u32) {
        self.id
    }

    /// Its box: as wide as its bytes take cells (modulo the `u16` range), one line high.
    fn bounds(&self) -> (r: Rect)
        ensures
            self.text@.len() < 8192 ==> r.w == self.text@.len() * 8,
    {
        let w = (self.text.len() % 8192) as u16 * 8;
        Rect::new(self.x, self.y, w, CHAR_HEIGHT)
    }

    fn set_position(&mut self, x: i16, y: i16)
        ensures
            final(self).x == x && final(self).y == y,
            final(self).text == old(self).text && final(self).color == old(self).color,
    {
        self.x = x;
        self.y = y;
    }

    fn render(&mut self, fb: &mut Framebuffer, theme: &Theme)
        ensures
            final(fb)@ == text_paint(old(fb)@, old(self).x as int, old(self).y as int, old(self).text@, old(self).color_in(*theme), None),
            *final(self) == *old(self),
    {
        self.draw(fb, theme);
    }

    fn handle_event(&mut self, event: &Event) -> (r: EventResponse)
        ensures
            r == EventResponse::Ignored,
            *final(self) == *old(self),
    {
        EventResponse::Ignored
    }

    fn focusable(&self) -> (r: bool)
        ensures
            !r,
    {
        false
    }
}

} // verus!
