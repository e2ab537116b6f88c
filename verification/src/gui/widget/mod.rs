pub mod button;
pub mod desktop;
pub mod label;
pub mod panel;
pub mod terminal;
pub mod window;

use vstd::prelude::*;
use crate::gui::event::Event;
use crate::gui::framebuffer::Framebuffer;
use crate::gui::theme::Theme;

verus! {

/// An axis-aligned rectangle in screen coordinates.
#[derive(Clone, Copy, Debug)]
pub struct Rect {
    pub x: i16,
    pub y: i16,
    pub w: u16,
    pub h: u16,
}

/// The rectangle's right and bottom edges fit in an `i16`.
pub open spec fn rect_fits(r: Rect) -> bool {
    &&& r.w <= 0x7fff
    &&& r.h <= 0x7fff
    &&& r.x + r.w <= 0x7fff
    &&& r.y + r.h <= 0x7fff
}

/// The point lies in the half-open rectangle.
pub open spec fn rect_has(r: Rect, px: int, py: int) -> bool {
    &&& r.x <= px < r.x + r.w
    &&& r.y <= py < r.y + r.h
}

impl Rect {
    pub fn new(x: i16, y: i16, w: u16, h: u16) -> (r: Rect)
        ensures
            r == (Rect { x, y, w, h }),
    {
        Rect { x, y, w, h }
    }

    pub fn contains(&self, px: i16, py: i16) -> (b: bool)
        requires
            rect_fits(*self),
        ensures
            b == rect_has(*self, px as int, py as int),
    {
        px >= self.x && px < self.x + self.w as i16 && py >= self.y && py < self.y + self.h as i16
    }
}


/// What a widget makes of an event.
#[derive(Debug, Clone, Copy, PartialEq, Eq, Structural)]
pub enum EventResponse {
    Consumed,
    Ignored,
    CloseRequest,
    OpenTerminal,
}

/// `v / 2` rounded toward zero, as Rust divides.
pub open spec fn half(v: int) -> int {
    if v >= 0 { v / 2 } else { -((-v) / 2) }
}

pub fn half_i16(v: i16) -> (r: i16)
    ensures
        r == half(v as int),
{
    if v >= 0 { v / 2 } else if v == -32768 { -16384 } else { -((-v) / 2) }
}

/// Something on the screen that draws itself and reacts to events.
pub trait Widget {
    spec fn id_spec(&self) -> u32;

    spec fn bounds_spec(&self) -> Rect;

    /// The widget's drawing stays within the arithmetic of screen coordinates.
    spec fn render_ok(&self, theme: Theme) -> bool;

    /// The widget's hit tests stay within the arithmetic of screen coordinates.
    spec fn event_ok(&self) -> bool;

    fn id(&self) -> (r: u32)
        ensures
            r == self.id_spec(),
    ;

    fn bounds(&self) -> (r: Rect)
        ensures
            r == self.bounds_spec(),
    ;

    fn set_position(&mut self, x: i16, y: i16)
        ensures
            final(self).id_spec() == old(self).id_spec(),
    ;

    fn render(&mut self, fb: &mut Framebuffer, theme: &Theme)
        requires
            old(fb).wf(),
            old(self).render_ok(*theme),
        ensures
            final(fb).wf(),
            final(self).id_spec() == old(self).id_spec(),
    ;

    fn handle_event(&mut self, event: &Event) -> (r: EventResponse)
        requires
            old(self).event_ok(),
        ensures
            final(self).id_spec() == old(self).id_spec(),
    ;

    fn focusable(&self) -> bool;
}

} // verus!
