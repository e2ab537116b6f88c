use vstd::prelude::*;
use crate::gui::event::{Event, MouseButton};

verus! {

/// The PS/2 mouse decoder: where it is in a three-byte packet, the packet so
/// far, the pointer position and the buttons last seen.
#[derive(Debug, Clone, Copy, PartialEq, Eq, Structural)]
pub struct MouseState {
    pub cycle: u8,
    pub byte0: u8,
    pub byte1: u8,
    pub byte2: u8,
    pub x: i16,
    pub y: i16,
    pub prev_buttons: u8,
}

/// The pointer stays on the 320x200 screen.
pub open spec fn mouse_wf(s: MouseState) -> bool {
    0 <= s.x <= 319 && 0 <= s.y <= 199
}

pub open spec fn clamp(v: int, lo: int, hi: int) -> int {
    if v < lo {
        lo
    } else if v > hi {
        hi
    } else {
        v
    }
}

/// The press or release of one button between two button states.
pub open spec fn button_events(buttons: u8, prev: u8, mask: u8, b: MouseButton, x: i16, y: i16) -> Seq<Event> {
    if buttons & mask != 0 && prev & mask == 0 {
        seq![Event::MouseDown { x, y, button: b }]
    } else if buttons & mask == 0 && prev & mask != 0 {
        seq![Event::MouseUp { x, y, button: b }]
    } else {
        Seq::empty()
    }
}

/// The decoder's next state and the events one byte produces. A packet starts
/// with a byte whose bit 3 is set; its flags carry the sign bits of the
/// movement (bits 4, 5), overflow bits (6, 7, which drop the packet) and the
/// buttons (left bit 0, right bit 1). The vertical movement points up.
pub open spec fn mouse_step(s: MouseState, byte: u8) -> (MouseState, Seq<Event>) {
    if s.cycle == 0 {
        if byte & 0x08 != 0 {
            (MouseState { byte0: byte, cycle: 1, ..s }, Seq::empty())
        } else {
            (s, Seq::empty())
        }
    } else if s.cycle == 1 {
        (MouseState { byte1: byte, cycle: 2, ..s }, Seq::empty())
    } else if s.cycle == 2 {
        let flags = s.byte0;
        let dx = s.byte1 as int - if flags & 0x10 != 0 { 256int } else { 0 };
        let dy = byte as int - if flags & 0x20 != 0 { 256int } else { 0 };
        if flags & 0xC0 != 0 {
            (MouseState { byte2: byte, cycle: 0, ..s }, Seq::empty())
        } else {
            let nx = clamp(s.x + dx, 0, 319) as i16;
            let ny = clamp(s.y - dy, 0, 199) as i16;
            let buttons = flags & 0x07;
            let moves = if nx != s.x || ny != s.y {
                seq![Event::MouseMove { x: nx, y: ny }]
            } else {
                Seq::empty()
            };
            (
                MouseState { byte2: byte, cycle: 0, x: nx, y: ny, prev_buttons: buttons, ..s },
                moves + button_events(buttons, s.prev_buttons, 0x01, MouseButton::Left, nx, ny)
                    + button_events(buttons, s.prev_buttons, 0x02, MouseButton::Right, nx, ny),
            )
        }
    } else {
        (MouseState { cycle: 0, ..s }, Seq::empty())
    }
}

/// A packet's third byte moves the pointer vertically: without the Y sign
/// bit (bit 5 of the first byte) the pointer goes up by the byte's value,
/// stopping at the top row; with it, the byte is the movement less 256, and
/// the pointer goes down by 256 less the byte, stopping at row 199. The
/// second byte moves it right by its value, or with the X sign bit (bit 4)
/// left by 256 less it, within columns 0 to 319. A move is reported first,
/// at the new place, whenever the pointer moved.
pub proof fn law_mouse_packet(s: MouseState, b: u8)
    requires
        mouse_wf(s),
        s.cycle == 2,
        s.byte0 & 0xC0 == 0,
    ensures
        ({
            let (t, ev) = mouse_step(s, b);
            let up = s.y - b;
            let down = s.y + (256 - b);
            let right = s.x + s.byte1;
            let left = s.x - (256 - s.byte1);
            &&& t.cycle == 0
            &&& s.byte0 & 0x20 == 0 ==> t.y == if up < 0 { 0 } else { up }
            &&& s.byte0 & 0x20 != 0 ==> t.y == if down > 199 { 199 } else { down }
            &&& s.byte0 & 0x10 == 0 ==> t.x == if right > 319 { 319 } else { right }
            &&& s.byte0 & 0x10 != 0 ==> t.x == if left < 0 { 0 } else { left }
            &&& (t.x != s.x || t.y != s.y) ==> ev.len() >= 1 && ev[0] == Event::MouseMove { x: t.x, y: t.y }
        }),
{
}

/// The buttons of a completed packet: pressing the left (bit 0) or right
/// (bit 1) button reports its press at the pointer's new place, letting it go
/// reports its release there, after any move; the buttons seen are kept for
/// the next packet. A packet with an overflow bit reports nothing and leaves
/// the pointer where it was; a first byte without bit 3 is not a packet's
/// start and is dropped.
pub proof fn law_mouse_buttons(s: MouseState, b: u8)
    requires
        mouse_wf(s),
    ensures
        s.cycle == 2 && s.byte0 & 0xC0 == 0 ==> {
            let (t, ev) = mouse_step(s, b);
            let moved = t.x != s.x || t.y != s.y;
            let k: int = if moved { 1 } else { 0 };
            let left_down = s.byte0 & 1 != 0 && s.prev_buttons & 1 == 0;
            let left_up = s.byte0 & 1 == 0 && s.prev_buttons & 1 != 0;
            &&& t.prev_buttons == s.byte0 & 0x07
            &&& left_down ==> ev[k] == Event::MouseDown { x: t.x, y: t.y, button: MouseButton::Left }
            &&& left_up ==> ev[k] == Event::MouseUp { x: t.x, y: t.y, button: MouseButton::Left }
            &&& !left_down && !left_up && s.byte0 & 2 != 0 && s.prev_buttons & 2 == 0 ==> ev[k] == Event::MouseDown {
                x: t.x,
                y: t.y,
                button: MouseButton::Right,
            }
            &&& ev.len() == k + (if left_down || left_up { 1int } else { 0 }) + (if (s.byte0 & 2 != 0)
                != (s.prev_buttons & 2 != 0) { 1int } else { 0 })
        },
        s.cycle == 2 && s.byte0 & 0xC0 != 0 ==> mouse_step(s, b).1.len() == 0 && mouse_step(s, b).0.x == s.x
            && mouse_step(s, b).0.y == s.y && mouse_step(s, b).0.cycle == 0,
        s.cycle == 0 && b & 0x08 == 0 ==> mouse_step(s, b) == (s, Seq::<Event>::empty()),
{
    let flags = s.byte0;
    assert(flags & 0x07 & 1 == flags & 1) by (bit_vector);
    assert(flags & 0x07 & 2 == flags & 2) by (bit_vector);
}

impl MouseState {
    /// At rest in the middle of the screen.
    pub fn new() -> (s: MouseState)
        ensures
            mouse_wf(s),
            s == (MouseState { cycle: 0, byte0: 0, byte1: 0, byte2: 0, x: 160, y: 100, prev_buttons: 0 }),
    {
        MouseState { cycle: 0, byte0: 0, byte1: 0, byte2: 0, x: 160, y: 100, prev_buttons: 0 }
    }
}

fn emit_button_event(
    out: &mut Vec<Event>,
    buttons: u8,
    prev: u8,
    mask: u8,
    button: MouseButton,
    x: i16,
    y: i16,
)
    ensures
        final(out)@ == old(out)@ + button_events(buttons, prev, mask, button, x, y),
{
    if buttons & mask != 0 && prev & mask == 0 {
        out.push(Event::MouseDown { x, y, button });
    }
    if buttons & mask == 0 && prev & mask != 0 {
        out.push(Event::MouseUp { x, y, button });
    }
    assert(final(out)@ =~= old(out)@ + button_events(buttons, prev, mask, button, x, y));
}

/// Feeds one byte from the mouse to the decoder; returns the events it completes.
pub fn handle_byte(state: &mut MouseState, byte: u8) -> (events: Vec<Event>)
    requires
        mouse_wf(*old(state)),
    ensures
        mouse_wf(*final(state)),
        (*final(state), events@) == mouse_step(*old(state), byte),
{
    let mut events: Vec<Event> = Vec::new();
    if state.cycle == 0 {
        if byte & 0x08 != 0 {
            state.byte0 = byte;
            state.cycle = 1;
        }
    } else if state.cycle == 1 {
        state.byte1 = byte;
        state.cycle = 2;
    } else if state.cycle == 2 {
        state.byte2 = byte;
        state.cycle = 0;
        let flags = state.byte0;
        let mut dx = state.byte1 as i16;
        let mut dy = byte as i16;
        if flags & 0x10 != 0 {
            dx = dx - 256;
        }
        if flags & 0x20 != 0 {
            dy = dy - 256;
        }
        if flags & 0xC0 != 0 {
            return events;
        }
        dy = -dy;
        let old_x = state.x;
        let old_y = state.y;
        let mut nx = state.x + dx;
        if nx < 0 {
            nx = 0;
        }
        if nx > 319 {
            nx = 319;
        }
        let mut ny = state.y + dy;
        if ny < 0 {
            ny = 0;
        }
        if ny > 199 {
            ny = 199;
        }
        state.x = nx;
        state.y = ny;
        if nx != old_x || ny != old_y {
            events.push(Event::MouseMove { x: nx, y: ny });
        }
        let buttons = flags & 0x07;
        let prev = state.prev_buttons;
        state.prev_buttons = buttons;
        emit_button_event(&mut events, buttons, prev, 0x01, MouseButton::Left, nx, ny);
        emit_button_event(&mut events, buttons, prev, 0x02, MouseButton::Right, nx, ny);
    } else {
        state.cycle = 0;
    }
    assert(events@ =~= mouse_step(*old(state), byte).1);
    events
}

} // verus!
