//! Text in the 8x8 font of `font8x8`.
use vstd::prelude::*;
use crate::gui::framebuffer::{Framebuffer, paint};
use crate::text::is_continuation;

verus! {

pub const CHAR_WIDTH: u16 = 8;
pub const CHAR_HEIGHT: u16 = 8;

/// The eight rows of the font's glyph for an ASCII code.
pub uninterp spec fn legacy_glyph(code: nat) -> Seq<u8>;

/// `font8x8::legacy::BASIC_LEGACY[code]`: the eight rows of the glyph for an
/// ASCII code, bit `k` of a row lighting column `k` from the left. The claim is
/// only that the result is the table's entry for `code`, named `legacy_glyph`.
#[verifier::external_body]
fn basic_glyph(code: usize) -> (r: [u8; 8])
    requires
        code < 128,
    ensures
        r@ == legacy_glyph(code as nat),
{
    font8x8::legacy::BASIC_LEGACY[code]
}

/// Column `col` of a glyph row is lit.
pub open spec fn lit(bits: u8, col: int) -> bool {
    (bits >> (col as u8)) & 1u8 == 1u8
}

/// The brush of a glyph at `(x, y)`: lit pixels in `fg`; the others in `bg`, or left alone.
pub open spec fn glyph_brush(x: int, y: int, g: Seq<u8>, fg: u8, bg: Option<u8>) -> spec_fn(int, int) -> Option<u8> {
    |px: int, py: int|
        if 0 <= px - x < 8 && 0 <= py - y < 8 {
            if lit(g[py - y], px - x) {
                Some(fg)
            } else {
                bg
            }
        } else {
            None
        }
}

/// Draws a glyph's lit pixels in `fg`, and the others in `bg` when it is given.
pub fn draw_glyph(fb: &mut Framebuffer, x: i16, y: i16, glyph: [u8; 8], fg: u8, bg: Option<u8>)
    requires
        old(fb).wf(),
        x + 8 <= 32768,
        y + 8 <= 32768,
    ensures
        final(fb).wf(),
        final(fb)@ == paint(old(fb)@, glyph_brush(x as int, y as int, glyph@, fg, bg)),
{
    let ghost p0 = fb@;
    let ghost g = glyph@;
    proof {
        fb.lemma_wf();
    }
    let mut row: usize = 0;
    assert(p0 =~= paint(p0, |px: int, py: int| if 0 <= px - x < 8 && 0 <= py - y < 0 { glyph_brush(x as int, y as int, g, fg, bg)(px, py) } else { None }));
    while row < 8
        invariant
            fb.wf(),
            p0.len() == 64000,
            row <= 8,
            g == glyph@,
            x + 8 <= 32768,
            y + 8 <= 32768,
            fb@ == paint(p0, |px: int, py: int| if 0 <= px - x < 8 && 0 <= py - y < row { glyph_brush(x as int, y as int, g, fg, bg)(px, py) } else { None }),
        decreases 8 - row,
    {
        let bits = glyph[row];
        let mut col: usize = 0;
        while col < 8
            invariant
                fb.wf(),
                p0.len() == 64000,
                row < 8,
                col <= 8,
                g == glyph@,
                bits == g[row as int],
                x + 8 <= 32768,
                y + 8 <= 32768,
                fb@ == paint(p0, |px: int, py: int| if (0 <= px - x < 8 && 0 <= py - y < row) || (0 <= px - x < col && py - y == row) { glyph_brush(x as int, y as int, g, fg, bg)(px, py) } else { None }),
            decreases 8 - col,
        {
            let on = (bits >> (col as u8)) & 1u8 == 1u8;
            if on {
                fb.set_pixel(x + col as i16, y + row as i16, fg);
            } else {
                match bg {
                    Some(b) => fb.set_pixel(x + col as i16, y + row as i16, b),
                    None => {},
                }
            }
            assert(fb@ =~= paint(p0, |px: int, py: int| if (0 <= px - x < 8 && 0 <= py - y < row) || (0 <= px - x < col + 1 && py - y == row) { glyph_brush(x as int, y as int, g, fg, bg)(px, py) } else { None }));
            col = col + 1;
        }
        assert(fb@ =~= paint(p0, |px: int, py: int| if 0 <= px - x < 8 && 0 <= py - y < row + 1 { glyph_brush(x as int, y as int, g, fg, bg)(px, py) } else { None }));
        row = row + 1;
    }
    assert(fb@ =~= paint(p0, glyph_brush(x as int, y as int, g, fg, bg)));
}

/// The frame after drawing one character at `(x, y)`: its glyph when it is ASCII, else nothing.
pub open spec fn char_paint(p: Seq<u8>, x: int, y: int, code: nat, fg: u8, bg: Option<u8>) -> Seq<u8> {
    if code < 128 {
        paint(p, glyph_brush(x, y, legacy_glyph(code), fg, bg))
    } else {
        p
    }
}

/// Draws the lit pixels of a character's glyph; a character without one is skipped.
pub fn draw_char(fb: &mut Framebuffer, x: i16, y: i16, ch: char, color: u8)
    requires
        old(fb).wf(),
        x + 8 <= 32768,
        y + 8 <= 32768,
    ensures
        final(fb).wf(),
        final(fb)@ == char_paint(old(fb)@, x as int, y as int, ch as nat, color, None),
{
    let code = ch as u32;
    if code >= 128 {
        return;
    }
    let g = basic_glyph(code as usize);
    draw_glyph(fb, x, y, g, color, None);
}

/// Draws a character's glyph on a background color; a character without one is skipped.
pub fn draw_char_bg(fb: &mut Framebuffer, x: i16, y: i16, ch: char, fg: u8, bg: u8)
    requires
        old(fb).wf(),
        x + 8 <= 32768,
        y + 8 <= 32768,
    ensures
        final(fb).wf(),
        final(fb)@ == char_paint(old(fb)@, x as int, y as int, ch as nat, fg, Some(bg)),
{
    let code = ch as u32;
    if code >= 128 {
        return;
    }
    let g = basic_glyph(code as usize);
    draw_glyph(fb, x, y, g, fg, Some(bg));
}

/// How many characters UTF-8 text holds: its bytes that start one.
pub open spec fn char_count(t: Seq<u8>) -> nat
    decreases t.len(),
{
    if t.len() == 0 {
        0
    } else if is_continuation(t.last()) {
        char_count(t.drop_last())
    } else {
        char_count(t.drop_last()) + 1
    }
}

/// The frame after drawing UTF-8 text from `(x, y)`: one 8-pixel cell per
/// character, the glyph of each ASCII character in its cell.
pub open spec fn text_paint(p: Seq<u8>, x: int, y: int, t: Seq<u8>, fg: u8, bg: Option<u8>) -> Seq<u8>
    decreases t.len(),
{
    if t.len() == 0 {
        p
    } else {
        let prev = text_paint(p, x, y, t.drop_last(), fg, bg);
        if is_continuation(t.last()) {
            prev
        } else {
            char_paint(prev, x + 8 * char_count(t.drop_last()), y, t.last() as nat, fg, bg)
        }
    }
}

/// Draws UTF-8 text with its glyphs' lit pixels in `fg`, the others in `bg` when given.
fn draw_run(fb: &mut Framebuffer, x: i16, y: i16, text: &[u8], fg: u8, bg: Option<u8>)
    requires
        old(fb).wf(),
        x + 8 * char_count(text@) <= 32767,
        y + 8 <= 32768,
    ensures
        final(fb).wf(),
        final(fb)@ == text_paint(old(fb)@, x as int, y as int, text@, fg, bg),
{
    let ghost p0 = fb@;
    let mut cx = x;
    let mut i: usize = 0;
    while i < text.len()
        invariant
            fb.wf(),
            i <= text@.len(),
            cx == x + 8 * char_count(text@.take(i as int)),
            x + 8 * char_count(text@) <= 32767,
            y + 8 <= 32768,
            fb@ == text_paint(p0, x as int, y as int, text@.take(i as int), fg, bg),
        decreases text@.len() - i,
    {
        let b = text[i];
        proof {
            let t = text@.take(i + 1);
            assert(t.drop_last() =~= text@.take(i as int));
            lemma_char_count_prefix(text@, i + 1);
        }
        if !(0x80 <= b && b < 0xC0) {
            if b < 128 {
                let g = basic_glyph(b as usize);
                draw_glyph(fb, cx, y, g, fg, bg);
            }
            cx = cx + 8;
        }
        i = i + 1;
    }
    assert(text@.take(i as int) =~= text@);
}

/// The characters of a prefix are no more than those of the whole.
proof fn lemma_char_count_prefix(t: Seq<u8>, k: int)
    requires
        0 <= k <= t.len(),
    ensures
        char_count(t.take(k)) <= char_count(t),
    decreases t.len() - k,
{
    if k < t.len() {
        lemma_char_count_prefix(t, k + 1);
        let u = t.take(k + 1);
        assert(u.drop_last() =~= t.take(k));
    } else {
        assert(t.take(k) =~= t);
    }
}

/// Draws UTF-8 text, one 8-pixel cell per character.
pub fn draw_text(fb: &mut Framebuffer, x: i16, y: i16, text: &[u8], color: u8)
    requires
        old(fb).wf(),
        x + 8 * char_count(text@) <= 32767,
        y + 8 <= 32768,
    ensures
        final(fb).wf(),
        final(fb)@ == text_paint(old(fb)@, x as int, y as int, text@, color, None),
{
    draw_run(fb, x, y, text, color, None);
}

/// Draws UTF-8 text on a background color, one 8-pixel cell per character.
pub fn draw_text_bg(fb: &mut Framebuffer, x: i16, y: i16, text: &[u8], fg: u8, bg: u8)
    requires
        old(fb).wf(),
        x + 8 * char_count(text@) <= 32767,
        y + 8 <= 32768,
    ensures
        final(fb).wf(),
        final(fb)@ == text_paint(old(fb)@, x as int, y as int, text@, fg, Some(bg)),
{
    draw_run(fb, x, y, text, fg, Some(bg));
}

/// The width of text in pixels, counted by its bytes as `str::len` does.
pub fn text_width(text: &[u8]) -> (w: u16)
    requires
        text@.len() < 8192,
    ensures
        w == text@.len() * 8,
{
    text.len() as u16 * CHAR_WIDTH
}

} // verus!
