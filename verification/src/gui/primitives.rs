//! Filled and outlined rectangles and lines on the frame.
use vstd::prelude::*;
use crate::gui::framebuffer::{Framebuffer, paint, point_brush, on_screen};

verus! {

/// `as i16` on a `u16` is `as_i16`.
pub proof fn lemma_as_i16(w: u16)
    ensures
        (w as i16) as int == as_i16(w),
{
    if w <= 32767 {
        assert(w <= 32767 ==> (w as i16) as int == w as int) by (bit_vector);
    } else {
        assert(w > 32767 ==> (w as i16) as int == w as int - 65536) by (bit_vector);
    }
}

/// A value that an `i16` holds.
pub open spec fn fits16(v: int) -> bool {
    -32768 <= v <= 32767
}

/// A `u16` read as an `i16`, as `as i16` does.
pub open spec fn as_i16(w: u16) -> int {
    if w <= 32767 { w as int } else { w - 65536 }
}

/// How many steps a loop `0..w as i16` takes.
pub open spec fn span(w: u16) -> int {
    if w <= 32767 { w as int } else { 0 }
}

/// The brush that fills a rectangle.
pub open spec fn rect_brush(x: int, y: int, w: int, h: int, c: u8) -> spec_fn(int, int) -> Option<u8> {
    |px: int, py: int| if x <= px < x + w && y <= py < y + h { Some(c) } else { None }
}

/// A rectangle filled up to row `dy`, and along row `dy` up to column `dx`.
spec fn fill_progress(x: int, y: int, w: int, dy: int, dx: int, c: u8) -> spec_fn(int, int) -> Option<u8> {
    |px: int, py: int|
        if (x <= px < x + w && y <= py < y + dy) || (x <= px < x + dx && py == y + dy) {
            Some(c)
        } else {
            None
        }
}

/// Fills a rectangle; the parts off the screen are skipped.
pub fn fill_rect(fb: &mut Framebuffer, x: i16, y: i16, w: u16, h: u16, color: u8)
    requires
        old(fb).wf(),
        x + span(w) <= 32768,
        y + span(h) <= 32768,
    ensures
        final(fb).wf(),
        final(fb)@ == paint(old(fb)@, rect_brush(x as int, y as int, span(w), span(h), color)),
{
    let ww: i16 = if w <= 32767 { w as i16 } else { 0 };
    let hh: i16 = if h <= 32767 { h as i16 } else { 0 };
    let ghost p0 = fb@;
    proof {
        fb.lemma_wf();
        assert(p0 =~= paint(p0, fill_progress(x as int, y as int, ww as int, 0, 0, color)));
    }
    let mut dy: i16 = 0;
    while dy < hh
        invariant
            fb.wf(),
            p0.len() == 64000,
            0 <= dy <= hh,
            hh == span(h),
            ww == span(w),
            x + ww <= 32768,
            y + hh <= 32768,
            fb@ == paint(p0, fill_progress(x as int, y as int, ww as int, dy as int, 0, color)),
        decreases hh - dy,
    {
        let mut dx: i16 = 0;
        while dx < ww
            invariant
                fb.wf(),
                p0.len() == 64000,
                0 <= dx <= ww,
                0 <= dy < hh,
                x + ww <= 32768,
                y + hh <= 32768,
                fb@ == paint(p0, fill_progress(x as int, y as int, ww as int, dy as int, dx as int, color)),
            decreases ww - dx,
        {
            let ghost before = fb@;
            fb.set_pixel(x + dx, y + dy, color);
            assert(fb@ =~= paint(p0, fill_progress(x as int, y as int, ww as int, dy as int, dx + 1, color)));
            dx = dx + 1;
        }
        assert(fb@ =~= paint(p0, fill_progress(x as int, y as int, ww as int, dy + 1, 0, color)));
        dy = dy + 1;
    }
    assert(fb@ =~= paint(p0, rect_brush(x as int, y as int, span(w), span(h), color)));
}

/// A horizontal line of `w` pixels from `(x, y)`.
pub fn draw_hline(fb: &mut Framebuffer, x: i16, y: i16, w: u16, color: u8)
    requires
        old(fb).wf(),
        x + span(w) <= 32768,
    ensures
        final(fb).wf(),
        final(fb)@ == paint(old(fb)@, rect_brush(x as int, y as int, span(w), 1, color)),
{
    let ww: i16 = if w <= 32767 { w as i16 } else { 0 };
    let ghost p0 = fb@;
    proof {
        fb.lemma_wf();
        assert(p0 =~= paint(p0, rect_brush(x as int, y as int, 0, 1, color)));
    }
    let mut dx: i16 = 0;
    while dx < ww
        invariant
            fb.wf(),
            p0.len() == 64000,
            0 <= dx <= ww,
            ww == span(w),
            x + ww <= 32768,
            fb@ == paint(p0, rect_brush(x as int, y as int, dx as int, 1, color)),
        decreases ww - dx,
    {
        fb.set_pixel(x + dx, y, color);
        assert(fb@ =~= paint(p0, rect_brush(x as int, y as int, dx + 1, 1, color)));
        dx = dx + 1;
    }
}

/// A vertical line of `h` pixels from `(x, y)`.
pub fn draw_vline(fb: &mut Framebuffer, x: i16, y: i16, h: u16, color: u8)
    requires
        old(fb).wf(),
        y + span(h) <= 32768,
    ensures
        final(fb).wf(),
        final(fb)@ == paint(old(fb)@, rect_brush(x as int, y as int, 1, span(h), color)),
{
    let hh: i16 = if h <= 32767 { h as i16 } else { 0 };
    let ghost p0 = fb@;
    proof {
        fb.lemma_wf();
        assert(p0 =~= paint(p0, rect_brush(x as int, y as int, 1, 0, color)));
    }
    let mut dy: i16 = 0;
    while dy < hh
        invariant
            fb.wf(),
            p0.len() == 64000,
            0 <= dy <= hh,
            hh == span(h),
            y + hh <= 32768,
            fb@ == paint(p0, rect_brush(x as int, y as int, 1, dy as int, color)),
        decreases hh - dy,
    {
        fb.set_pixel(x, y + dy, color);
        assert(fb@ =~= paint(p0, rect_brush(x as int, y as int, 1, dy + 1, color)));
        dy = dy + 1;
    }
}

/// The frame after `draw_rect`: the top edge, the bottom edge, the left edge, the right edge.
pub open spec fn rect_outline(p: Seq<u8>, x: int, y: int, w: u16, h: u16, c: u8) -> Seq<u8> {
    let p1 = paint(p, rect_brush(x, y, span(w), 1, c));
    let p2 = paint(p1, rect_brush(x, y + as_i16(h) - 1, span(w), 1, c));
    let p3 = paint(p2, rect_brush(x, y, 1, span(h), c));
    paint(p3, rect_brush(x + as_i16(w) - 1, y, 1, span(h), c))
}

/// The outline of a rectangle, one pixel wide.
pub fn draw_rect(fb: &mut Framebuffer, x: i16, y: i16, w: u16, h: u16, color: u8)
    requires
        old(fb).wf(),
        x + span(w) <= 32768,
        y + span(h) <= 32768,
        fits16(y + as_i16(h)),
        fits16(y + as_i16(h) - 1),
        fits16(x + as_i16(w)),
        fits16(x + as_i16(w) - 1),
    ensures
        final(fb).wf(),
        final(fb)@ == rect_outline(old(fb)@, x as int, y as int, w, h, color),
{
    proof {
        lemma_as_i16(w);
        lemma_as_i16(h);
    }
    draw_hline(fb, x, y, w, color);
    draw_hline(fb, x, y + h as i16 - 1, w, color);
    draw_vline(fb, x, y, h, color);
    draw_vline(fb, x + w as i16 - 1, y, h, color);
}

/// The absolute value.
pub open spec fn iabs(v: int) -> int {
    if v < 0 { -v } else { v }
}

/// `v` lies between `a` and `b`, both included.
pub open spec fn between(v: int, a: int, b: int) -> bool {
    (a <= v <= b) || (b <= v <= a)
}

/// Steps left from `(x, y)` to `(x1, y1)`, along each axis.
pub open spec fn dist(x: int, y: int, x1: int, y1: int) -> int {
    iabs(x1 - x) + iabs(y1 - y)
}

/// One step of the line walk from `(x0, y0)` to `(x1, y1)` at `(x, y)` with
/// error term `err`: a step along x when twice the error reaches `-dy`, a step
/// along y when it stays within `dx`, the error adjusted for each.
pub open spec fn line_step(x: int, y: int, err: int, x0: int, y0: int, x1: int, y1: int) -> (int, int, int) {
    let dx = iabs(x1 - x0);
    let dy = iabs(y1 - y0);
    let sx: int = if x0 < x1 { 1 } else { -1 };
    let sy: int = if y0 < y1 { 1 } else { -1 };
    let e2 = 2 * err;
    let xs = e2 >= -dy;
    let ys = e2 <= dx;
    let nx = if xs { x + sx } else { x };
    let ny = if ys { y + sy } else { y };
    let ne = err - (if xs { dy } else { 0 }) + (if ys { dx } else { 0 });
    (nx, ny, ne)
}

/// The points the walk visits from `(x, y)` on, up to `(x1, y1)`; the walk
/// stops early only at a step that brings it no closer, which never happens
/// on a line's own walk (see `law_line_path`).
pub open spec fn line_from(x: int, y: int, err: int, x0: int, y0: int, x1: int, y1: int) -> Seq<(int, int)>
    decreases dist(x, y, x1, y1),
{
    if x == x1 && y == y1 {
        seq![(x, y)]
    } else {
        let s = line_step(x, y, err, x0, y0, x1, y1);
        if dist(s.0, s.1, x1, y1) < dist(x, y, x1, y1) {
            seq![(x, y)] + line_from(s.0, s.1, s.2, x0, y0, x1, y1)
        } else {
            seq![(x, y)]
        }
    }
}

/// The points of the line from `(x0, y0)` to `(x1, y1)`, in the order drawn.
pub open spec fn line_points(x0: int, y0: int, x1: int, y1: int) -> Seq<(int, int)> {
    line_from(x0, y0, iabs(x1 - x0) - iabs(y1 - y0), x0, y0, x1, y1)
}

/// The brush that paints a set of points.
pub open spec fn points_brush(pts: Seq<(int, int)>, c: u8) -> spec_fn(int, int) -> Option<u8> {
    |px: int, py: int| if pts.contains((px, py)) { Some(c) } else { None }
}

/// What holds at each point of a line's walk: the point lies in the line's
/// box, and the error term is `dx * (1 + j) - dy * (1 + i)` after `i` steps
/// along x and `j` along y, within `-2 * dy` and `2 * dx`.
pub open spec fn walk_inv(x: int, y: int, err: int, x0: int, y0: int, x1: int, y1: int) -> bool {
    let dx = iabs(x1 - x0);
    let dy = iabs(y1 - y0);
    &&& between(x, x0, x1)
    &&& between(y, y0, y1)
    &&& err == dx * (1 + iabs(y - y0)) - dy * (1 + iabs(x - x0))
    &&& -2 * dy <= err <= 2 * dx
}

/// Two points one step apart toward the end: each coordinate keeps or moves
/// by one toward its end value, and not both keep.
pub open spec fn forward_step(p: (int, int), q: (int, int), x0: int, y0: int, x1: int, y1: int) -> bool {
    let sx: int = if x0 < x1 { 1 } else { -1 };
    let sy: int = if y0 < y1 { 1 } else { -1 };
    &&& (q.0 == p.0 || q.0 == p.0 + sx)
    &&& (q.1 == p.1 || q.1 == p.1 + sy)
    &&& q != p
}

proof fn lemma_mul_le(a: int, b: int, c: int)
    requires
        0 <= a,
        b <= c,
    ensures
        a * b <= a * c,
{
    assert(a * b <= a * c) by (nonlinear_arith)
        requires
            0 <= a,
            b <= c,
    ;
}

proof fn lemma_mul_succ(a: int, b: int)
    ensures
        a * (b + 1) == a * b + a,
{
    assert(a * (b + 1) == a * b + a) by (nonlinear_arith);
}

/// A step of the walk short of the end keeps the invariant, moves one step
/// toward the end, and brings the walk closer.
proof fn lemma_line_step(x: int, y: int, err: int, x0: int, y0: int, x1: int, y1: int)
    requires
        walk_inv(x, y, err, x0, y0, x1, y1),
        !(x == x1 && y == y1),
    ensures
        ({
            let s = line_step(x, y, err, x0, y0, x1, y1);
            &&& walk_inv(s.0, s.1, s.2, x0, y0, x1, y1)
            &&& dist(s.0, s.1, x1, y1) < dist(x, y, x1, y1)
            &&& forward_step((x, y), (s.0, s.1), x0, y0, x1, y1)
        }),
{
    let dx = iabs(x1 - x0);
    let dy = iabs(y1 - y0);
    let i = iabs(x - x0);
    let j = iabs(y - y0);
    let e2 = 2 * err;
    assert(dx == iabs(x1 - x) + i);
    assert(dy == iabs(y1 - y) + j);
    if x == x1 {
        // no step along x is left: twice the error is below -dy
        lemma_mul_le(dx, 1 + j, dy);
        assert(dx * dy == dy * dx) by (nonlinear_arith);
        lemma_mul_succ(dy, dx);
        assert(dy * (1 + dx) == dy * dx + dy) by (nonlinear_arith);
        assert(e2 < -dy);
    }
    if y == y1 {
        // no step along y is left: twice the error is above dx
        lemma_mul_le(dy, 1 + i, dx);
        assert(dx * dy == dy * dx) by (nonlinear_arith);
        assert(dx * (1 + dy) == dx + dx * dy) by (nonlinear_arith);
        assert(e2 > dx);
    }
    let xs = e2 >= -dy;
    let ys = e2 <= dx;
    assert(xs || ys);
    assert(dy * (1 + (i + 1)) == dy * (1 + i) + dy) by (nonlinear_arith);
    assert(dx * (1 + (j + 1)) == dx * (1 + j) + dx) by (nonlinear_arith);
}

/// The line walk from any point of a line's walk reaches the line's end,
/// one forward step at a time, inside the line's box.
proof fn lemma_line_from(x: int, y: int, err: int, x0: int, y0: int, x1: int, y1: int)
    requires
        walk_inv(x, y, err, x0, y0, x1, y1),
    ensures
        ({
            let s = line_from(x, y, err, x0, y0, x1, y1);
            &&& s.len() >= 1
            &&& s[0] == (x, y)
            &&& s.last() == (x1, y1)
            &&& forall|k: int| 0 <= k < s.len() - 1 ==> forward_step(#[trigger] s[k], s[k + 1], x0, y0, x1, y1)
            &&& forall|k: int| 0 <= k < s.len() ==> between((#[trigger] s[k]).0, x0, x1) && between(s[k].1, y0, y1)
        }),
    decreases dist(x, y, x1, y1),
{
    if !(x == x1 && y == y1) {
        lemma_line_step(x, y, err, x0, y0, x1, y1);
        let st = line_step(x, y, err, x0, y0, x1, y1);
        lemma_line_from(st.0, st.1, st.2, x0, y0, x1, y1);
        let rest = line_from(st.0, st.1, st.2, x0, y0, x1, y1);
        let s = line_from(x, y, err, x0, y0, x1, y1);
        assert(s == seq![(x, y)] + rest);
        assert forall|k: int| 0 <= k < s.len() - 1 implies forward_step(#[trigger] s[k], s[k + 1], x0, y0, x1, y1) by {
            if k > 0 {
                assert(s[k] == rest[k - 1]);
                assert(s[k + 1] == rest[k]);
            }
        }
        assert forall|k: int| 0 <= k < s.len() implies between((#[trigger] s[k]).0, x0, x1) && between(s[k].1, y0, y1) by {
            if k > 0 {
                assert(s[k] == rest[k - 1]);
            }
        }
    }
}

/// A line's points run from its start to its end, each one step further
/// along each axis (or staying), never standing still, all inside the box
/// the two ends span.
pub proof fn law_line_path(x0: int, y0: int, x1: int, y1: int)
    ensures
        ({
            let s = line_points(x0, y0, x1, y1);
            &&& s.len() >= 1
            &&& s[0] == (x0, y0)
            &&& s.last() == (x1, y1)
            &&& forall|k: int| 0 <= k < s.len() - 1 ==> forward_step(#[trigger] s[k], s[k + 1], x0, y0, x1, y1)
            &&& forall|k: int| 0 <= k < s.len() ==> between((#[trigger] s[k]).0, x0, x1) && between(s[k].1, y0, y1)
        }),
{
    let dx = iabs(x1 - x0);
    let dy = iabs(y1 - y0);
    assert(dx * (1 + 0) - dy * (1 + 0) == dx - dy) by (nonlinear_arith);
    assert(walk_inv(x0, y0, dx - dy, x0, y0, x1, y1));
    lemma_line_from(x0, y0, dx - dy, x0, y0, x1, y1);
}

/// Painting one more point after a set of points is painting the set with the point added.
proof fn lemma_paint_push(p: Seq<u8>, w: Seq<(int, int)>, x: int, y: int, c: u8)
    ensures
        paint(paint(p, points_brush(w, c)), point_brush(x, y, c)) == paint(p, points_brush(w.push((x, y)), c)),
{
    let w2 = w.push((x, y));
    assert forall|r: (int, int)| w2.contains(r) == (w.contains(r) || r == (x, y)) by {
        if w.contains(r) {
            let k = choose|k: int| 0 <= k < w.len() && w[k] == r;
            assert(w2[k] == r);
        }
        if r == (x, y) {
            assert(w2[w.len() as int] == r);
        }
        if w2.contains(r) {
            let k = choose|k: int| 0 <= k < w2.len() && w2[k] == r;
            if k < w.len() {
                assert(w[k] == r);
            }
        }
    }
    assert(paint(paint(p, points_brush(w, c)), point_brush(x, y, c)) =~= paint(p, points_brush(w2, c)));
}

/// A line from `(x0, y0)` to `(x1, y1)`, both ends included; its points off
/// the screen are skipped.
pub fn draw_line(fb: &mut Framebuffer, x0: i16, y0: i16, x1: i16, y1: i16, color: u8)
    requires
        old(fb).wf(),
        -32767 <= x1 - x0 <= 32767,
        -32767 <= y1 - y0 <= 32767,
    ensures
        final(fb).wf(),
        final(fb)@ == paint(old(fb)@, points_brush(line_points(x0 as int, y0 as int, x1 as int, y1 as int), color)),
{
    let ghost p0 = fb@;
    let ghost full = line_points(x0 as int, y0 as int, x1 as int, y1 as int);
    let dx: i32 = if x1 >= x0 { (x1 - x0) as i32 } else { (x0 - x1) as i32 };
    let dy: i32 = if y1 >= y0 { (y1 - y0) as i32 } else { (y0 - y1) as i32 };
    let sx: i16 = if x0 < x1 { 1 } else { -1 };
    let sy: i16 = if y0 < y1 { 1 } else { -1 };
    let mut x = x0;
    let mut y = y0;
    let mut err: i32 = dx - dy;
    let ghost mut walked: Seq<(int, int)> = Seq::empty();
    proof {
        fb.lemma_wf();
        assert(dx * (1 + 0) - dy * (1 + 0) == dx - dy) by (nonlinear_arith);
        assert(p0 =~= paint(p0, points_brush(walked, color)));
    }
    loop
        invariant_except_break
            walked + line_from(x as int, y as int, err as int, x0 as int, y0 as int, x1 as int, y1 as int) == full,
            fb@ == paint(p0, points_brush(walked, color)),
        invariant
            fb.wf(),
            p0.len() == 64000,
            dx == iabs(x1 - x0),
            dy == iabs(y1 - y0),
            sx == (if x0 < x1 { 1int } else { -1int }),
            sy == (if y0 < y1 { 1int } else { -1int }),
            walk_inv(x as int, y as int, err as int, x0 as int, y0 as int, x1 as int, y1 as int),
            full == line_points(x0 as int, y0 as int, x1 as int, y1 as int),
        ensures
            fb.wf(),
            fb@ == paint(p0, points_brush(full, color)),
        decreases dist(x as int, y as int, x1 as int, y1 as int),
    {
        fb.set_pixel(x, y, color);
        proof {
            lemma_paint_push(p0, walked, x as int, y as int, color);
            walked = walked.push((x as int, y as int));
        }
        if x == x1 && y == y1 {
            proof {
                assert(walked =~= full);
            }
            break;
        }
        let ghost (gx, gy, ge) = (x as int, y as int, err as int);
        proof {
            lemma_line_step(gx, gy, ge, x0 as int, y0 as int, x1 as int, y1 as int);
        }
        let e2 = 2 * err;
        let xs = e2 >= -dy;
        let ys = e2 <= dx;
        if xs {
            err = err - dy;
            x = x + sx;
        }
        if ys {
            err = err + dx;
            y = y + sy;
        }
        proof {
            let st = line_step(gx, gy, ge, x0 as int, y0 as int, x1 as int, y1 as int);
            assert(st == (x as int, y as int, err as int));
            assert(line_from(gx, gy, ge, x0 as int, y0 as int, x1 as int, y1 as int) == seq![(gx, gy)]
                + line_from(x as int, y as int, err as int, x0 as int, y0 as int, x1 as int, y1 as int));
            assert(walked + line_from(x as int, y as int, err as int, x0 as int, y0 as int, x1 as int, y1 as int) =~= full);
        }
    }
}

} // verus!
