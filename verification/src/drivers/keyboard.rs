use vstd::prelude::*;
use crate::gui::event::{Event, KeyCode as GuiKeyCode};
use crate::text::bytes_eq;
use vstd::string::StringSliceAdditionalSpecFns;

verus! {

/// Available keyboard layouts.
#[derive(Debug, Clone, Copy, PartialEq, Eq, Structural)]
pub enum LayoutId {
    Us104,
    Uk105,
    De105,
    Azerty,
    Dvorak,
    Colemak,
}

/// The number under which a layout is stored.
pub open spec fn layout_code(id: LayoutId) -> u8 {
    match id {
        LayoutId::Us104 => 0,
        LayoutId::Uk105 => 1,
        LayoutId::De105 => 2,
        LayoutId::Azerty => 3,
        LayoutId::Dvorak => 4,
        LayoutId::Colemak => 5,
    }
}

/// The stored number for `layout`: what selecting it records.
pub fn set_layout(layout: LayoutId) -> (code: u8)
    ensures
        code == layout_code(layout),
{
    match layout {
        LayoutId::Us104 => 0,
        LayoutId::Uk105 => 1,
        LayoutId::De105 => 2,
        LayoutId::Azerty => 3,
        LayoutId::Dvorak => 4,
        LayoutId::Colemak => 5,
    }
}

/// The layout a stored number selects; unknown numbers select US.
pub fn current_layout(code: u8) -> (id: LayoutId)
    ensures
        code <= 5 ==> layout_code(id) == code,
        code > 5 ==> id == LayoutId::Us104,
{
    match code {
        0 => LayoutId::Us104,
        1 => LayoutId::Uk105,
        2 => LayoutId::De105,
        3 => LayoutId::Azerty,
        4 => LayoutId::Dvorak,
        5 => LayoutId::Colemak,
        _ => LayoutId::Us104,
    }
}

/// Each layout is stored under a number of its own, from 0 to 5, so that
/// `current_layout` gives back the layout that `set_layout` stored.
pub proof fn law_layout_round_trip(l: LayoutId)
    ensures
        layout_code(l) <= 5,
        forall|m: LayoutId| #[trigger] layout_code(m) == layout_code(l) ==> m == l,
{
}

pub open spec fn layout_name_spec(id: LayoutId) -> Seq<char> {
    match id {
        LayoutId::Us104 => "us"@,
        LayoutId::Uk105 => "uk"@,
        LayoutId::De105 => "de"@,
        LayoutId::Azerty => "fr"@,
        LayoutId::Dvorak => "dvorak"@,
        LayoutId::Colemak => "colemak"@,
    }
}

/// The short name of a layout.
pub fn layout_name(id: LayoutId) -> (name: &'static str)
    ensures
        name@ == layout_name_spec(id),
{
    match id {
        LayoutId::Us104 => "us",
        LayoutId::Uk105 => "uk",
        LayoutId::De105 => "de",
        LayoutId::Azerty => "fr",
        LayoutId::Dvorak => "dvorak",
        LayoutId::Colemak => "colemak",
    }
}

/// The layout a name selects: each layout's short name, or "azerty" for the French one.
pub open spec fn layout_for_name(n: Seq<u8>) -> Option<LayoutId> {
    if n == "us".spec_bytes() {
        Some(LayoutId::Us104)
    } else if n == "uk".spec_bytes() {
        Some(LayoutId::Uk105)
    } else if n == "de".spec_bytes() {
        Some(LayoutId::De105)
    } else if n == "fr".spec_bytes() || n == "azerty".spec_bytes() {
        Some(LayoutId::Azerty)
    } else if n == "dvorak".spec_bytes() {
        Some(LayoutId::Dvorak)
    } else if n == "colemak".spec_bytes() {
        Some(LayoutId::Colemak)
    } else {
        None
    }
}

/// Each layout's short name, spelled in bytes, selects that layout again;
/// "azerty" selects the French layout too; any other text selects none: the
/// names are matched exactly, letter case included.
pub proof fn law_layout_names(id: LayoutId, n: Seq<u8>)
    ensures
        layout_for_name(layout_name_spec(id).map_values(|c: char| c as u8)) == Some(id),
        layout_for_name("azerty".spec_bytes()) == Some(LayoutId::Azerty),
        layout_for_name(n) is Some <==> (n == "us".spec_bytes() || n == "uk".spec_bytes() || n
            == "de".spec_bytes() || n == "fr".spec_bytes() || n == "azerty".spec_bytes() || n
            == "dvorak".spec_bytes() || n == "colemak".spec_bytes()),
{
    reveal_strlit("us");
    vstd::string::is_ascii_spec_bytes("us");
    reveal_strlit("uk");
    vstd::string::is_ascii_spec_bytes("uk");
    reveal_strlit("de");
    vstd::string::is_ascii_spec_bytes("de");
    reveal_strlit("fr");
    vstd::string::is_ascii_spec_bytes("fr");
    reveal_strlit("azerty");
    vstd::string::is_ascii_spec_bytes("azerty");
    reveal_strlit("dvorak");
    vstd::string::is_ascii_spec_bytes("dvorak");
    reveal_strlit("colemak");
    vstd::string::is_ascii_spec_bytes("colemak");
    let b = layout_name_spec(id).map_values(|c: char| c as u8);
    let us = "us".spec_bytes();
    let uk = "uk".spec_bytes();
    let de = "de".spec_bytes();
    let fr = "fr".spec_bytes();
    let dv = "dvorak".spec_bytes();
    // the names differ in their first or second byte, or in length
    assert(us[1] != uk[1] && us[0] != de[0] && us[0] != fr[0] && uk[0] != de[0] && uk[0] != fr[0]
        && de[0] != fr[0]);
    assert(us != uk && us != de && us != fr && uk != de && uk != fr && de != fr);
    assert(dv.len() == 6 && "azerty".spec_bytes().len() == 6 && dv[0] != "azerty".spec_bytes()[0]);
    assert(dv != "azerty".spec_bytes());
    match id {
        LayoutId::Us104 => assert(b =~= "us".spec_bytes()),
        LayoutId::Uk105 => assert(b =~= "uk".spec_bytes()),
        LayoutId::De105 => assert(b =~= "de".spec_bytes()),
        LayoutId::Azerty => assert(b =~= "fr".spec_bytes()),
        LayoutId::Dvorak => assert(b =~= "dvorak".spec_bytes()),
        LayoutId::Colemak => assert(b =~= "colemak".spec_bytes()),
    }
}

pub fn layout_from_name(name: &[u8]) -> (r: Option<LayoutId>)
    ensures
        r == layout_for_name(name@),
{
    if bytes_eq(name, "us".as_bytes()) {
        Some(LayoutId::Us104)
    } else if bytes_eq(name, "uk".as_bytes()) {
        Some(LayoutId::Uk105)
    } else if bytes_eq(name, "de".as_bytes()) {
        Some(LayoutId::De105)
    } else if bytes_eq(name, "fr".as_bytes()) || bytes_eq(name, "azerty".as_bytes()) {
        Some(LayoutId::Azerty)
    } else if bytes_eq(name, "dvorak".as_bytes()) {
        Some(LayoutId::Dvorak)
    } else if bytes_eq(name, "colemak".as_bytes()) {
        Some(LayoutId::Colemak)
    } else {
        None
    }
}

/// How the layout decodes a key: a fixed character, or as the selected layout's table does.
#[derive(Debug, Clone, Copy, PartialEq, Eq, Structural)]
pub enum LayoutChoice {
    Fixed(char),
    Table(LayoutId),
}

/// The US table lacks the ANSI backslash key (`Oem7`): it gives `\`, or `|` when shifted.
/// Every other key goes to the selected layout's table.
pub fn polar_layout_choice(layout: LayoutId, is_oem7: bool, shifted: bool) -> (c: LayoutChoice)
    ensures
        c == if layout == LayoutId::Us104 && is_oem7 {
            LayoutChoice::Fixed(if shifted { '|' } else { '\\' })
        } else {
            LayoutChoice::Table(layout)
        },
{
    match layout {
        LayoutId::Us104 => {
            if is_oem7 {
                if shifted {
                    LayoutChoice::Fixed('|')
                } else {
                    LayoutChoice::Fixed('\\')
                }
            } else {
                LayoutChoice::Table(LayoutId::Us104)
            }
        },
        other => LayoutChoice::Table(other),
    }
}

/// The raw keys the system reacts to; every other raw key is `Other`.
#[derive(Debug, Clone, Copy, PartialEq, Eq, Structural)]
pub enum RawKey {
    ArrowUp,
    ArrowDown,
    ArrowLeft,
    ArrowRight,
    Escape,
    F1,
    F2,
    F3,
    Other,
}

/// A decoded key press: a character, or a raw key.
#[derive(Debug, Clone, Copy, PartialEq, Eq, Structural)]
pub enum DecodedKey {
    Unicode(char),
    RawKey(RawKey),
}

pub open spec fn gui_key_spec(key: DecodedKey) -> Option<Event> {
    match key {
        DecodedKey::Unicode(c) => Some(
            Event::KeyPress(
                if c == '\n' {
                    GuiKeyCode::Enter
                } else if c == '\u{8}' {
                    GuiKeyCode::Backspace
                } else if c == '\t' {
                    GuiKeyCode::Tab
                } else if c == '\u{1b}' {
                    GuiKeyCode::Escape
                } else {
                    GuiKeyCode::Char(c)
                },
            ),
        ),
        DecodedKey::RawKey(RawKey::ArrowUp) => Some(Event::KeyPress(GuiKeyCode::ArrowUp)),
        DecodedKey::RawKey(RawKey::ArrowDown) => Some(Event::KeyPress(GuiKeyCode::ArrowDown)),
        DecodedKey::RawKey(RawKey::ArrowLeft) => Some(Event::KeyPress(GuiKeyCode::ArrowLeft)),
        DecodedKey::RawKey(RawKey::ArrowRight) => Some(Event::KeyPress(GuiKeyCode::ArrowRight)),
        DecodedKey::RawKey(RawKey::Escape) => Some(Event::KeyPress(GuiKeyCode::Escape)),
        DecodedKey::RawKey(RawKey::F1) => Some(Event::KeyPress(GuiKeyCode::F1)),
        DecodedKey::RawKey(RawKey::F2) => Some(Event::KeyPress(GuiKeyCode::F2)),
        DecodedKey::RawKey(RawKey::F3) => Some(Event::KeyPress(GuiKeyCode::F3)),
        DecodedKey::RawKey(RawKey::Other) => None,
    }
}

/// In the desktop, a typed character becomes a key press of that character,
/// except newline, backspace, tab and escape, which become their own keys;
/// the arrows, escape and F1 to F3 become their keys, and other raw keys
/// nothing.
pub proof fn law_gui_keys(c: char)
    ensures
        c != '\n' && c != '\u{8}' && c != '\t' && c != '\u{1b}' ==> gui_key_spec(DecodedKey::Unicode(c))
            == Some(Event::KeyPress(GuiKeyCode::Char(c))),
        gui_key_spec(DecodedKey::Unicode('\n')) == Some(Event::KeyPress(GuiKeyCode::Enter)),
        gui_key_spec(DecodedKey::Unicode('\u{8}')) == Some(Event::KeyPress(GuiKeyCode::Backspace)),
        gui_key_spec(DecodedKey::RawKey(RawKey::ArrowLeft)) == Some(Event::KeyPress(GuiKeyCode::ArrowLeft)),
        gui_key_spec(DecodedKey::RawKey(RawKey::Other)) is None,
{
}

/// The GUI event a decoded key press becomes, if any.
pub fn gui_event_for_key(key: DecodedKey) -> (r: Option<Event>)
    ensures
        r == gui_key_spec(key),
{
    match key {
        DecodedKey::Unicode(c) => {
            let code = if c == '\n' {
                GuiKeyCode::Enter
            } else if c == '\u{8}' {
                GuiKeyCode::Backspace
            } else if c == '\t' {
                GuiKeyCode::Tab
            } else if c == '\u{1b}' {
                GuiKeyCode::Escape
            } else {
                GuiKeyCode::Char(c)
            };
            Some(Event::KeyPress(code))
        },
        DecodedKey::RawKey(RawKey::ArrowUp) => Some(Event::KeyPress(GuiKeyCode::ArrowUp)),
        DecodedKey::RawKey(RawKey::ArrowDown) => Some(Event::KeyPress(GuiKeyCode::ArrowDown)),
        DecodedKey::RawKey(RawKey::ArrowLeft) => Some(Event::KeyPress(GuiKeyCode::ArrowLeft)),
        DecodedKey::RawKey(RawKey::ArrowRight) => Some(Event::KeyPress(GuiKeyCode::ArrowRight)),
        DecodedKey::RawKey(RawKey::Escape) => Some(Event::KeyPress(GuiKeyCode::Escape)),
        DecodedKey::RawKey(RawKey::F1) => Some(Event::KeyPress(GuiKeyCode::F1)),
        DecodedKey::RawKey(RawKey::F2) => Some(Event::KeyPress(GuiKeyCode::F2)),
        DecodedKey::RawKey(RawKey::F3) => Some(Event::KeyPress(GuiKeyCode::F3)),
        DecodedKey::RawKey(RawKey::Other) => None,
    }
}

/// A key press as the text shell reads it.
#[derive(Debug, Clone, Copy, PartialEq, Eq, Structural)]
pub enum KeyEvent {
    Char(char),
    ArrowUp,
    ArrowDown,
}

/// The shell's key event for a decoded key press; other raw keys are skipped.
pub fn key_event_for(key: DecodedKey) -> (r: Option<KeyEvent>)
    ensures
        r == match key {
            DecodedKey::Unicode(c) => Some(KeyEvent::Char(c)),
            DecodedKey::RawKey(RawKey::ArrowUp) => Some(KeyEvent::ArrowUp),
            DecodedKey::RawKey(RawKey::ArrowDown) => Some(KeyEvent::ArrowDown),
            DecodedKey::RawKey(_) => None::<KeyEvent>,
        },
{
    match key {
        DecodedKey::Unicode(c) => Some(KeyEvent::Char(c)),
        DecodedKey::RawKey(RawKey::ArrowUp) => Some(KeyEvent::ArrowUp),
        DecodedKey::RawKey(RawKey::ArrowDown) => Some(KeyEvent::ArrowDown),
        DecodedKey::RawKey(_) => None,
    }
}

/// How many scancodes the buffer holds at most.
pub const BUF_SIZE: usize = 128;

/// A bounded first-in first-out buffer of scancodes, in a ring.
pub struct ScancodeBuffer {
    buf: Vec<u8>,
    read_pos: usize,
    write_pos: usize,
    count: usize,
    queued: Ghost<Seq<u8>>,
}

impl View for ScancodeBuffer {
    type V = Seq<u8>;

    closed spec fn view(&self) -> Seq<u8> {
        self.queued@
    }
}

impl ScancodeBuffer {
    pub closed spec fn wf(&self) -> bool {
        &&& self.buf@.len() == BUF_SIZE
        &&& self.read_pos < BUF_SIZE
        &&& self.write_pos < BUF_SIZE
        &&& self.count <= BUF_SIZE
        &&& self.count == self.queued@.len()
        &&& self.write_pos == (self.read_pos + self.count) % (BUF_SIZE as int)
        &&& forall|i: int|
            0 <= i < self.count ==> #[trigger] self.buf@[(self.read_pos + i) % (BUF_SIZE as int)]
                == self.queued@[i]
    }

    pub fn new() -> (q: ScancodeBuffer)
        ensures
            q.wf(),
            q@ == Seq::<u8>::empty(),
    {
        ScancodeBuffer {
            buf: vec![0u8; BUF_SIZE],
            read_pos: 0,
            write_pos: 0,
            count: 0,
            queued: Ghost(Seq::empty()),
        }
    }

    /// Appends a scancode; a full buffer drops it.
    pub fn push(&mut self, scancode: u8)
        requires
            old(self).wf(),
        ensures
            final(self).wf(),
            final(self)@ == if old(self)@.len() < BUF_SIZE {
                old(self)@.push(scancode)
            } else {
                old(self)@
            },
    {
        if self.count < BUF_SIZE {
            let ghost old_q = self.queued@;
            let ghost rp = self.read_pos as int;
            let wp = self.write_pos;
            self.buf.set(wp, scancode);
            self.write_pos = (self.write_pos + 1) % BUF_SIZE;
            self.count = self.count + 1;
            self.queued = Ghost(old_q.push(scancode));
            assert forall|i: int| 0 <= i < self.count implies #[trigger] self.buf@[(
            self.read_pos + i) % (BUF_SIZE as int)] == self.queued@[i] by {
                if i < self.count - 1 {
                    assert((rp + i) % 128 != wp as int);
                }
            }
        }
    }

    /// Takes the oldest scancode.
    pub fn pop(&mut self) -> (r: Option<u8>)
        requires
            old(self).wf(),
        ensures
            final(self).wf(),
            old(self)@.len() == 0 ==> r is None && final(self)@ == old(self)@,
            old(self)@.len() > 0 ==> r == Some(old(self)@[0]) && final(self)@ == old(self)@.drop_first(),
    {
        if self.count == 0 {
            return None;
        }
        let ghost old_q = self.queued@;
        let rp = self.read_pos;
        assert(self.buf@[(rp + 0) % 128] == old_q[0]);
        let scancode = self.buf[rp];
        self.read_pos = (self.read_pos + 1) % BUF_SIZE;
        self.count = self.count - 1;
        self.queued = Ghost(old_q.drop_first());
        assert forall|i: int| 0 <= i < self.count implies #[trigger] self.buf@[(self.read_pos
            + i) % (BUF_SIZE as int)] == self.queued@[i] by {
            assert((rp + 1 + i) % 128 == ((rp + 1) % 128 + i) % 128);
            assert(old_q.drop_first()[i] == old_q[i + 1]);
            assert(self.buf@[(rp + (i + 1)) % 128] == old(self).buf@[(rp + (i + 1)) % 128]);
        }
        Some(scancode)
    }
}

/// Queues a scancode from the keyboard interrupt.
pub fn add_scancode(queue: &mut ScancodeBuffer, scancode: u8)
    requires
        old(queue).wf(),
    ensures
        final(queue).wf(),
        final(queue)@ == if old(queue)@.len() < BUF_SIZE {
            old(queue)@.push(scancode)
        } else {
            old(queue)@
        },
{
    queue.push(scancode);
}

} // verus!
