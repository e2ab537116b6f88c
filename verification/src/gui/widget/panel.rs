//! A rectangle that holds buttons and labels.
use vstd::prelude::*;
use crate::gui::event::Event;
use crate::gui::framebuffer::{Framebuffer, paint};
use crate::gui::theme::Theme;
use crate::gui::primitives::{fill_rect, draw_rect, rect_brush, rect_outline, span, as_i16, fits16};
use crate::gui::font::text_paint;
use crate::gui::widget::{Widget, Rect, EventResponse};
use crate::gui::widget::button::Button;
use crate::gui::widget::label::Label;

verus! {

/// A widget a panel holds.
pub enum PanelChild {
    Button(Button),
    Label(Label),
}

pub open spec fn child_render_ok(c: PanelChild, theme: Theme) -> bool {
    match c {
        PanelChild::Button(b) => b.render_ok(theme),
        PanelChild::Label(l) => l.render_ok(theme),
    }
}

pub open spec fn child_event_ok(c: PanelChild) -> bool {
    match c {
        PanelChild::Button(b) => b.event_ok(),
        PanelChild::Label(l) => l.event_ok(),
    }
}

pub open spec fn child_paint(p: Seq<u8>, c: PanelChild, theme: Theme) -> Seq<u8> {
    match c {
        PanelChild::Button(b) => b.painted(p, theme),
        PanelChild::Label(l) => text_paint(p, l.x as int, l.y as int, l.text@, l.color_in(theme), None),
    }
}

/// A child after an event, and its answer: a button reacts, a label ignores it.
pub open spec fn child_react(c: PanelChild, e: Event) -> (PanelChild, EventResponse) {
    match c {
        PanelChild::Button(b) => {
            let (st, r) = b.react(e);
            (PanelChild::Button(Button { state: st, ..b }), r)
        },
        PanelChild::Label(l) => (PanelChild::Label(l), EventResponse::Ignored),
    }
}

/// The children after the event is offered to `cs[..i]`, the last first,
/// until one does not ignore it; and that one's answer, or `Ignored`.
pub open spec fn offer(cs: Seq<PanelChild>, e: Event, i: int) -> (Seq<PanelChild>, EventResponse)
    decreases i,
{
    if i <= 0 || i > cs.len() {
        (cs, EventResponse::Ignored)
    } else {
        let (c2, r) = child_react(cs[i - 1], e);
        let cs2 = cs.update(i - 1, c2);
        if r != EventResponse::Ignored {
            (cs2, r)
        } else {
            offer(cs2, e, i - 1)
        }
    }
}

/// The frame after the children are drawn in order.
pub open spec fn children_paint(p: Seq<u8>, cs: Seq<PanelChild>, theme: Theme) -> Seq<u8>
    decreases cs.len(),
{
    if cs.len() == 0 {
        p
    } else {
        child_paint(children_paint(p, cs.drop_last(), theme), cs.last(), theme)
    }
}

pub struct Panel {
    pub id: u32,
    pub x: i16,
    pub y: i16,
    pub w: u16,
    pub h: u16,
    pub bg_color: Option<u8>,
    pub has_border: bool,
    pub children: Vec<PanelChild>,
}

impl Panel {
    pub fn new(id: u32, x: i16, y: i16, w: u16, h: u16) -> (p: Panel)
        ensures
            p.id == id && p.x == x && p.y == y && p.w == w && p.h == h,
            p.bg_color is None && !p.has_border && p.children@.len() == 0,
    {
        Panel { id, x, y, w, h, bg_color: None, has_border: false, children: Vec::new() }
    }

    /// The panel with a background color.
    pub fn with_bg(self, color: u8) -> (p: Panel)
        ensures
            p.bg_color == Some(color),
            p.id == self.id && p.x == self.x && p.y == self.y && p.w == self.w && p.h == self.h,
            p.has_border == self.has_border && p.children == self.children,
    {
        let mut p = self;
        p.bg_color = Some(color);
        p
    }

    /// The panel with a border.
    pub fn with_border(self) -> (p: Panel)
        ensures
            p.has_border,
            p.id == self.id && p.x == self.x && p.y == self.y && p.w == self.w && p.h == self.h,
            p.bg_color == self.bg_color && p.children == self.children,
    {
        let mut p = self;
        p.has_border = true;
        p
    }

    pub fn add_child(&mut self, child: PanelChild)
        ensures
            final(self).children@ == old(self).children@.push(child),
            final(self).id == old(self).id && final(self).x == old(self).x && final(self).y == old(self).y,
            final(self).w == old(self).w && final(self).h == old(self).h,
            final(self).bg_color == old(self).bg_color && final(self).has_border == old(self).has_border,
    {
        self.children.push(child);
    }

    /// The frame after the panel is drawn: background, border, then children in order.
    pub open spec fn painted(&self, p: Seq<u8>, theme: Theme) -> Seq<u8> {
        let p1 = match self.bg_color {
            Some(bg) => paint(p, rect_brush(self.x as int, self.y as int, span(self.w), span(self.h), bg)),
            None => p,
        };
        let p2 = if self.has_border {
            rect_outline(p1, self.x as int, self.y as int, self.w, self.h, theme.border)
        } else {
            p1
        };
        children_paint(p2, self.children@, theme)
    }

    pub fn draw(&self, fb: &mut Framebuffer, theme: &Theme)
        requires
            old(fb).wf(),
            self.render_ok(*theme),
        ensures
            final(fb).wf(),
            final(fb)@ == self.painted(old(fb)@, *theme),
    {
        match self.bg_color {
            Some(bg) => fill_rect(fb, self.x, self.y, self.w, self.h, bg),
            None => {},
        }
        if self.has_border {
            draw_rect(fb, self.x, self.y, self.w, self.h, theme.border);
        }
        let ghost p2 = fb@;
        let mut i: usize = 0;
        while i < self.children.len()
            invariant
                fb.wf(),
                i <= self.children@.len(),
                forall|k: int| 0 <= k < self.children@.len() ==> child_render_ok(#[trigger] self.children@[k], *theme),
                fb@ == children_paint(p2, self.children@.take(i as int), *theme),
            decreases self.children@.len() - i,
        {
            assert(self.children@.take(i + 1).drop_last() =~= self.children@.take(i as int));
            assert(child_render_ok(self.children@[i as int], *theme));
            match &self.children[i] {
                PanelChild::Button(b) => b.draw(fb, theme),
                PanelChild::Label(l) => l.draw(fb, theme),
            }
            i = i + 1;
        }
        assert(self.children@.take(i as int) =~= self.children@);
    }
}

/// The first answer other than `Ignored` from the children, the last child first.
pub open spec fn first_answer(rs: Seq<EventResponse>) -> EventResponse
    decreases rs.len(),
{
    if rs.len() == 0 {
        EventResponse::Ignored
    } else if rs.last() != EventResponse::Ignored {
        rs.last()
    } else {
        first_answer(rs.drop_last())
    }
}

impl Widget for Panel {
    open spec fn id_spec(&self) -> u32 {
        self.id
    }

    open spec fn bounds_spec(&self) -> Rect {
        Rect { x: self.x, y: self.y, w: self.w, h: self.h }
    }

    open spec fn render_ok(&self, theme: Theme) -> bool {
        &&& self.x + span(self.w) <= 32768
        &&& self.y + span(self.h) <= 32768
        &&& fits16(self.y + as_i16(self.h))
        &&& fits16(self.y + as_i16(self.h) - 1)
        &&& fits16(self.x + as_i16(self.w))
        &&& fits16(self.x + as_i16(self.w) - 1)
        &&& forall|k: int| 0 <= k < self.children@.len() ==> child_render_ok(#[trigger] self.children@[k], theme)
    }

    open spec fn event_ok(&self) -> bool {
        forall|k: int| 0 <= k < self.children@.len() ==> child_event_ok(#[trigger] self.children@[k])
    }

    fn id(&self) -> (r: u32) {
        self.id
    }

    fn bounds(&self) -> (r: Rect) {
        Rect::new(self.x, self.y, self.w, self.h)
    }

    fn set_position(&mut self, x: i16, y: i16)
        ensures
            final(self).x == x && final(self).y == y,
            final(self).w == old(self).w && final(self).h == old(self).h,
            final(self).children == old(self).children,
    {
        self.x = x;
        self.y = y;
    }

    fn render(&mut self, fb: &mut Framebuffer, theme: &Theme)
        ensures
            final(fb)@ == old(self).painted(old(fb)@, *theme),
            *final(self) == *old(self),
    {
        self.draw(fb, theme);
    }

    /// Offers the event to the children, the last added first, until one does not ignore it.
    fn handle_event(&mut self, event: &Event) -> (r: EventResponse)
        ensures
            (final(self).children@, r) == offer(old(self).children@, *event, old(self).children@.len() as int),
            final(self).id == old(self).id,
            final(self).x == old(self).x && final(self).y == old(self).y,
            final(self).w == old(self).w && final(self).h == old(self).h,
            final(self).bg_color == old(self).bg_color && final(self).has_border == old(self).has_border,
    {
        let ghost target = offer(self.children@, *event, self.children@.len() as int);
        let mut cs: Vec<PanelChild> = Vec::new();
        std::mem::swap(&mut cs, &mut self.children);
        let n = cs.len();
        let mut i = n;
        let mut r = EventResponse::Ignored;
        while i > 0
            invariant
                i <= n,
                cs@.len() == n,
                forall|k: int| 0 <= k < n ==> child_event_ok(#[trigger] cs@[k]),
                r == EventResponse::Ignored ==> offer(cs@, *event, i as int) == target,
                r != EventResponse::Ignored ==> (cs@, r) == target && i == 0,
            decreases i,
        {
            let ghost before = cs@;
            let c = cs.remove(i - 1);
            assert(child_event_ok(before[i - 1]));
            let (c2, resp) = match c {
                PanelChild::Button(b) => {
                    let mut b = b;
                    let resp = b.handle_event(event);
                    (PanelChild::Button(b), resp)
                },
                PanelChild::Label(l) => {
                    let mut l = l;
                    let resp = l.handle_event(event);
                    (PanelChild::Label(l), resp)
                },
            };
            assert(child_event_ok(c2));
            assert((c2, resp) == child_react(before[i - 1], *event));
            cs.insert(i - 1, c2);
            assert(cs@ =~= before.update(i - 1, c2));
            assert forall|k: int| 0 <= k < n implies child_event_ok(#[trigger] cs@[k]) by {
                if k != i - 1 {
                    assert(cs@[k] == before[k]);
                }
            }
            if resp != EventResponse::Ignored {
                r = resp;
                i = 0;
            } else {
                i = i - 1;
            }
        }
        self.children = cs;
        r
    }

    fn focusable(&self) -> (r: bool)
        ensures
            !r,
    {
        false
    }
}

} // verus!
