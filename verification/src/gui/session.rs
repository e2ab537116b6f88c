//! Starting the desktop: widget ids and new terminal windows.
use vstd::prelude::*;
use crate::gui::theme::Theme;
use crate::gui::primitives::fits16;
use crate::gui::widget::window::Window;
use crate::gui::widget::terminal::TerminalWidget;

verus! {

/// The ids handed to widgets, counting up from 10.
pub struct IdCounter {
    next: u32,
}

impl IdCounter {
    pub closed spec fn next_spec(&self) -> u32 {
        self.next
    }

    pub fn new() -> (c: IdCounter)
        ensures
            c.next_spec() == 10,
    {
        IdCounter { next: 10 }
    }

    /// A fresh id; the count wraps as an atomic add does.
    pub fn next_id(&mut self) -> (id: u32)
        ensures
            id == old(self).next_spec(),
            final(self).next_spec() == if old(self).next_spec() == u32::MAX { 0 } else { (old(self).next_spec() + 1) as u32 },
    {
        let id = self.next;
        self.next = if self.next == u32::MAX { 0 } else { self.next + 1 };
        id
    }
}

/// `v % 60` with the sign of `v`, as Rust's remainder gives it.
pub open spec fn rem60(v: int) -> int {
    if v >= 0 { v % 60 } else { -((-v) % 60) }
}

/// Where a new window goes: shifted by its id, in steps of 15 pixels, wrapping every 60.
pub open spec fn window_offset(win_id: u32) -> int {
    rem60(((win_id as i16) as int - 10) * 15)
}

/// A new terminal window: 280 by 160, titled `Terminal`, its terminal filling the content area.
pub fn terminal_window(win_id: u32, term_id: u32, theme: &Theme) -> (w: Window)
    requires
        fits16(((win_id as i16) as int - 10) * 15),
        theme.title_height >= 2,
        theme.title_height + 1 <= 160,
    ensures
        w.id == win_id,
        w.x == 20 + window_offset(win_id),
        w.y == 10 + window_offset(win_id),
        w.w == 280 && w.h == 160,
        w.title@ == seq![84u8, 101u8, 114u8, 109u8, 105u8, 110u8, 97u8, 108u8],
        w.content matches Some(t) && t.id == term_id && t.x == w.x + 1 && t.y == w.y + theme.title_height
            && t.w == 278 && t.h == 160 - theme.title_height - 1,
{
    let v = (win_id as i16) as i32 - 10;
    let p = v * 15;
    let offset: i16 = if p >= 0 { (p % 60) as i16 } else { -((-p) % 60) as i16 };
    let x = 20 + offset;
    let y = 10 + offset;
    let title: [u8; 8] = [84u8, 101u8, 114u8, 109u8, 105u8, 110u8, 97u8, 108u8];
    let mut win = Window::new(win_id, x, y, 280, 160, &title);
    assert(title@ =~= seq![84u8, 101u8, 114u8, 109u8, 105u8, 110u8, 97u8, 108u8]);
    let cr = win.content_rect(theme);
    let term = TerminalWidget::new(term_id, cr.x, cr.y, cr.w, cr.h);
    win.set_content(term);
    win
}

} // verus!
