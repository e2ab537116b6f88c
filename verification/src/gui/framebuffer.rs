//! The off-screen frame: 320 by 200 pixels of one palette index each.
use vstd::prelude::*;

verus! {

pub const SCREEN_WIDTH: u16 = 320;
pub const SCREEN_HEIGHT: u16 = 200;
/// Pixels in a frame.
pub const FB_SIZE: usize = 64000;

/// The point lies on the screen.
pub open spec fn on_screen(x: int, y: int) -> bool {
    0 <= x < 320 && 0 <= y < 200
}

/// Where a pixel lies in the frame, row by row.
pub open spec fn px_index(x: int, y: int) -> int {
    y * 320 + x
}

/// A brush: the color it gives a point, if it paints it.
pub open spec fn paint(p: Seq<u8>, brush: spec_fn(int, int) -> Option<u8>) -> Seq<u8> {
    Seq::new(
        p.len(),
        |i: int|
            match brush(i % 320, i / 320) {
                Some(c) => c,
                None => p[i],
            },
    )
}

/// The brush that paints one point.
pub open spec fn point_brush(x: int, y: int, c: u8) -> spec_fn(int, int) -> Option<u8> {
    |px: int, py: int| if px == x && py == y { Some(c) } else { None }
}

/// A point's row and column from its index, and back.
pub proof fn lemma_index(x: int, y: int)
    requires
        0 <= x < 320,
        0 <= y,
    ensures
        px_index(x, y) % 320 == x,
        px_index(x, y) / 320 == y,
{
    vstd::arithmetic::div_mod::lemma_fundamental_div_mod_converse(px_index(x, y), 320, y, x);
}

/// Setting the pixel at an on-screen point is painting that point.
pub proof fn lemma_set_is_paint(p: Seq<u8>, x: int, y: int, c: u8)
    requires
        p.len() == 64000,
        on_screen(x, y),
    ensures
        p.update(px_index(x, y), c) == paint(p, point_brush(x, y, c)),
{
    lemma_index(x, y);
    assert forall|i: int| 0 <= i < 64000 implies #[trigger] p.update(px_index(x, y), c)[i] == paint(
        p,
        point_brush(x, y, c),
    )[i] by {
        vstd::arithmetic::div_mod::lemma_fundamental_div_mod(i, 320);
        if i % 320 == x && i / 320 == y {
            assert(i == px_index(x, y));
        }
    }
    assert(p.update(px_index(x, y), c) =~= paint(p, point_brush(x, y, c)));
}

/// Painting an off-screen point changes nothing.
pub proof fn lemma_off_screen_paint(p: Seq<u8>, x: int, y: int, c: u8)
    requires
        p.len() == 64000,
        !on_screen(x, y),
    ensures
        p == paint(p, point_brush(x, y, c)),
{
    assert forall|i: int| 0 <= i < 64000 implies #[trigger] p[i] == paint(p, point_brush(x, y, c))[i] by {
        vstd::arithmetic::div_mod::lemma_fundamental_div_mod(i, 320);
        assert(0 <= i % 320 < 320);
        assert(0 <= i / 320 < 200) by (nonlinear_arith)
            requires 0 <= i < 64000, i == 320 * (i / 320) + i % 320, 0 <= i % 320 < 320;
    }
    assert(p =~= paint(p, point_brush(x, y, c)));
}

/// The frame being drawn before it is shown.
pub struct Framebuffer {
    buffer: Vec<u8>,
}

impl View for Framebuffer {
    type V = Seq<u8>;

    closed spec fn view(&self) -> Seq<u8> {
        self.buffer@
    }
}

impl Framebuffer {
    pub closed spec fn wf(&self) -> bool {
        self.buffer@.len() == 64000
    }

    /// The color of an on-screen pixel.
    pub open spec fn pixel(&self, x: int, y: int) -> u8 {
        self@[px_index(x, y)]
    }

    pub proof fn lemma_wf(&self)
        requires
            self.wf(),
        ensures
            self@.len() == 64000,
    {
    }

    /// A black frame.
    pub fn new() -> (fb: Framebuffer)
        ensures
            fb.wf(),
            fb@ == Seq::new(64000, |i: int| 0u8),
    {
        let mut buffer: Vec<u8> = Vec::new();
        let mut i: usize = 0;
        while i < FB_SIZE
            invariant
                i <= FB_SIZE,
                buffer@ == Seq::new(i as nat, |j: int| 0u8),
            decreases FB_SIZE - i,
        {
            buffer.push(0u8);
            assert(buffer@ =~= Seq::new((i + 1) as nat, |j: int| 0u8));
            i = i + 1;
        }
        Framebuffer { buffer }
    }

    /// Sets one pixel; a point off the screen is skipped.
    pub fn set_pixel(&mut self, x: i16, y: i16, color: u8)
        requires
            old(self).wf(),
        ensures
            final(self).wf(),
            final(self)@ == paint(old(self)@, point_brush(x as int, y as int, color)),
    {
        if x >= 0 && x < 320 && y >= 0 && y < 200 {
            let idx = y as usize * 320 + x as usize;
            self.buffer.set(idx, color);
            proof {
                lemma_set_is_paint(old(self)@, x as int, y as int, color);
            }
        } else {
            proof {
                lemma_off_screen_paint(old(self)@, x as int, y as int, color);
            }
        }
    }

    /// The color of a pixel; 0 off the screen.
    pub fn get_pixel(&self, x: i16, y: i16) -> (c: u8)
        requires
            self.wf(),
        ensures
            c == if on_screen(x as int, y as int) { self.pixel(x as int, y as int) } else { 0 },
    {
        if x >= 0 && x < 320 && y >= 0 && y < 200 {
            self.buffer[y as usize * 320 + x as usize]
        } else {
            0
        }
    }

    /// Inverts all bits of one pixel; a point off the screen is skipped.
    pub fn xor_pixel(&mut self, x: i16, y: i16)
        requires
            old(self).wf(),
        ensures
            final(self).wf(),
            on_screen(x as int, y as int) ==> final(self)@ == old(self)@.update(
                px_index(x as int, y as int),
                old(self).pixel(x as int, y as int) ^ 0xFF,
            ),
            !on_screen(x as int, y as int) ==> final(self)@ == old(self)@,
    {
        if x >= 0 && x < 320 && y >= 0 && y < 200 {
            let idx = y as usize * 320 + x as usize;
            let v = self.buffer[idx];
            self.buffer.set(idx, v ^ 0xFF);
        }
    }

    /// Fills the whole frame with one color.
    pub fn clear(&mut self, color: u8)
        requires
            old(self).wf(),
        ensures
            final(self).wf(),
            final(self)@ == Seq::new(64000, |i: int| color),
    {
        let mut i: usize = 0;
        while i < self.buffer.len()
            invariant
                self.buffer@.len() == 64000,
                i <= 64000,
                forall|j: int| 0 <= j < i ==> self.buffer@[j] == color,
            decreases 64000 - i,
        {
            self.buffer.set(i, color);
            i = i + 1;
        }
        assert(self.buffer@ =~= Seq::new(64000, |i: int| color));
    }

    /// The frame's bytes, row by row, for the screen.
    pub fn as_bytes(&self) -> (r: &[u8])
        ensures
            r@ == self@,
    {
        self.buffer.as_slice()
    }
}

} // verus!
