//! The mouse pointer: an 8x12 arrow with a dark outline.
use vstd::prelude::*;
use crate::gui::framebuffer::{Framebuffer, paint};

verus! {

/// The arrow's filled pixels, one row per entry, the leftmost column in the high bit.
pub open spec fn fill_row(row: int) -> u8 {
    if row == 0 { 0x80 }
    else if row == 1 { 0xC0 }
    else if row == 2 { 0xE0 }
    else if row == 3 { 0xF0 }
    else if row == 4 { 0xF8 }
    else if row == 5 { 0xFC }
    else if row == 6 { 0xFE }
    else if row == 7 { 0xF0 }
    else if row == 8 { 0xD8 }
    else if row == 9 { 0x8C }
    else if row == 10 { 0x06 }
    else { 0x03 }
}

/// The arrow's outline pixels, one row per entry.
pub open spec fn outline_row(row: int) -> u8 {
    if row == 0 { 0x80 }
    else if row == 1 { 0xC0 }
    else if row == 2 { 0xA0 }
    else if row == 3 { 0x90 }
    else if row == 4 { 0x88 }
    else if row == 5 { 0x84 }
    else if row == 6 { 0x82 }
    else if row == 7 { 0x90 }
    else if row == 8 { 0xD8 }
    else if row == 9 { 0x8C }
    else if row == 10 { 0x06 }
    else { 0x03 }
}

/// Column `col` (from the left) of a bitmap row is set.
pub open spec fn col_set(bits: u8, col: int) -> bool {
    bits & (0x80u8 >> (col as u8)) != 0
}

/// The arrow at `(x, y)`: outline pixels black (15), filled ones bright (8).
pub open spec fn cursor_brush(x: int, y: int) -> spec_fn(int, int) -> Option<u8> {
    |px: int, py: int|
        if 0 <= px - x < 8 && 0 <= py - y < 12 {
            if col_set(outline_row(py - y), px - x) {
                Some(15u8)
            } else if col_set(fill_row(py - y), px - x) {
                Some(8u8)
            } else {
                None
            }
        } else {
            None
        }
}

fn fill_row_exec(row: usize) -> (b: u8)
    requires
        row < 12,
    ensures
        b == fill_row(row as int),
{
    if row == 0 { 0x80 }
    else if row == 1 { 0xC0 }
    else if row == 2 { 0xE0 }
    else if row == 3 { 0xF0 }
    else if row == 4 { 0xF8 }
    else if row == 5 { 0xFC }
    else if row == 6 { 0xFE }
    else if row == 7 { 0xF0 }
    else if row == 8 { 0xD8 }
    else if row == 9 { 0x8C }
    else if row == 10 { 0x06 }
    else { 0x03 }
}

fn outline_row_exec(row: usize) -> (b: u8)
    requires
        row < 12,
    ensures
        b == outline_row(row as int),
{
    if row == 0 { 0x80 }
    else if row == 1 { 0xC0 }
    else if row == 2 { 0xA0 }
    else if row == 3 { 0x90 }
    else if row == 4 { 0x88 }
    else if row == 5 { 0x84 }
    else if row == 6 { 0x82 }
    else if row == 7 { 0x90 }
    else if row == 8 { 0xD8 }
    else if row == 9 { 0x8C }
    else if row == 10 { 0x06 }
    else { 0x03 }
}

pub struct Cursor {
    pub x: i16,
    pub y: i16,
    pub visible: bool,
}

impl Cursor {
    pub fn new(x: i16, y: i16) -> (c: Cursor)
        ensures
            c == (Cursor { x, y, visible: true }),
    {
        Cursor { x, y, visible: true }
    }

    /// Draws the arrow when it is visible.
    pub fn render(&self, fb: &mut Framebuffer)
        requires
            old(fb).wf(),
            self.x + 8 <= 32768,
            self.y + 12 <= 32768,
        ensures
            final(fb).wf(),
            final(fb)@ == if self.visible { paint(old(fb)@, cursor_brush(self.x as int, self.y as int)) } else { old(fb)@ },
    {
        if !self.visible {
            return;
        }
        let ghost p0 = fb@;
        let ghost x = self.x as int;
        let ghost y = self.y as int;
        proof {
            fb.lemma_wf();
            assert(p0 =~= paint(p0, |px: int, py: int| if 0 <= px - x < 8 && 0 <= py - y < 0 { cursor_brush(x, y)(px, py) } else { None }));
        }
        let mut row: usize = 0;
        while row < 12
            invariant
                fb.wf(),
                p0.len() == 64000,
                row <= 12,
                x == self.x,
                y == self.y,
                self.x + 8 <= 32768,
                self.y + 12 <= 32768,
                fb@ == paint(p0, |px: int, py: int| if 0 <= px - x < 8 && 0 <= py - y < row { cursor_brush(x, y)(px, py) } else { None }),
            decreases 12 - row,
        {
            let fill_bits = fill_row_exec(row);
            let outline_bits = outline_row_exec(row);
            let mut col: usize = 0;
            while col < 8
                invariant
                    fb.wf(),
                    p0.len() == 64000,
                    row < 12,
                    col <= 8,
                    x == self.x,
                    y == self.y,
                    fill_bits == fill_row(row as int),
                    outline_bits == outline_row(row as int),
                    self.x + 8 <= 32768,
                    self.y + 12 <= 32768,
                    fb@ == paint(p0, |px: int, py: int| if (0 <= px - x < 8 && 0 <= py - y < row) || (0 <= px - x < col && py - y == row) { cursor_brush(x, y)(px, py) } else { None }),
                decreases 8 - col,
            {
                let mask = 0x80u8 >> (col as u8);
                let px = self.x + col as i16;
                let py = self.y + row as i16;
                if outline_bits & mask != 0 {
                    fb.set_pixel(px, py, 15);
                } else if fill_bits & mask != 0 {
                    fb.set_pixel(px, py, 8);
                }
                assert(fb@ =~= paint(p0, |px: int, py: int| if (0 <= px - x < 8 && 0 <= py - y < row) || (0 <= px - x < col + 1 && py - y == row) { cursor_brush(x, y)(px, py) } else { None }));
                col = col + 1;
            }
            assert(fb@ =~= paint(p0, |px: int, py: int| if 0 <= px - x < 8 && 0 <= py - y < row + 1 { cursor_brush(x, y)(px, py) } else { None }));
            row = row + 1;
        }
        assert(fb@ =~= paint(p0, cursor_brush(x, y)));
    }
}

} // verus!
