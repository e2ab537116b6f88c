//! The 256-color palette: named UI colors and ramps, as 6-bit DAC values.
use vstd::prelude::*;

verus! {

pub const BG_DARK: u8 = 0;
pub const BG_BASE: u8 = 1;
pub const BG_SURFACE: u8 = 2;
pub const BG_ELEVATED: u8 = 3;
pub const BG_HIGHLIGHT: u8 = 4;
pub const BORDER: u8 = 5;
pub const TEXT_MUTED: u8 = 6;
pub const TEXT_PRIMARY: u8 = 7;
pub const TEXT_BRIGHT: u8 = 8;
pub const ACCENT_BLUE: u8 = 9;
pub const ACCENT_HOVER: u8 = 10;
pub const SUCCESS: u8 = 11;
pub const WARNING: u8 = 12;
pub const ERROR: u8 = 13;
pub const ACCENT_PURPLE: u8 = 14;
pub const BLACK: u8 = 15;

/// An 8-bit color as the DAC's 6-bit one.
pub open spec fn dac(r: u8, g: u8, b: u8) -> (u8, u8, u8) {
    (r >> 2, g >> 2, b >> 2)
}

pub fn rgb(r: u8, g: u8, b: u8) -> (c: (u8, u8, u8))
    ensures
        c == dac(r, g, b),
{
    (r >> 2, g >> 2, b >> 2)
}

/// Step `t` of `steps` from `a` to `b`, in whole numbers.
pub open spec fn lerp_spec(a: u8, b: u8, t: u8, steps: u8) -> u8 {
    ((a + (b - a) * t / (steps as int)) % 256) as u8
}

pub fn lerp(a: u8, b: u8, t: u8, steps: u8) -> (r: u8)
    requires
        a <= b,
        steps > 0,
    ensures
        r == lerp_spec(a, b, t, steps),
{
    let a16 = a as u16;
    let b16 = b as u16;
    let t16 = t as u16;
    let s16 = steps as u16;
    assert((b16 - a16) * t16 <= 255 * 255) by (nonlinear_arith)
        requires b16 - a16 <= 255, t16 <= 255;
    let q = (b16 - a16) * t16 / s16;
    assert(q <= 255 * 255);
    ((a16 + q) % 256) as u8
}

/// The colors of a ramp of `count` entries from one color to another, in 8 bits.
pub open spec fn ramp_color(c0: (u8, u8, u8), c1: (u8, u8, u8), i: u8, count: u8) -> (u8, u8, u8) {
    (
        lerp_spec(c0.0, c1.0, i, (count - 1) as u8),
        lerp_spec(c0.1, c1.1, i, (count - 1) as u8),
        lerp_spec(c0.2, c1.2, i, (count - 1) as u8),
    )
}

/// The named UI colors, in 8 bits.
pub open spec fn core_color(i: int) -> (u8, u8, u8) {
    if i == 0 { (0x14, 0x14, 0x20) }
    else if i == 1 { (0x20, 0x20, 0x30) }
    else if i == 2 { (0x2C, 0x2C, 0x40) }
    else if i == 3 { (0x38, 0x38, 0x50) }
    else if i == 4 { (0x48, 0x48, 0x60) }
    else if i == 5 { (0x64, 0x64, 0x78) }
    else if i == 6 { (0x80, 0x80, 0x90) }
    else if i == 7 { (0xC0, 0xC0, 0xC8) }
    else if i == 8 { (0xF0, 0xF0, 0xFC) }
    else if i == 9 { (0x38, 0x58, 0xC8) }
    else if i == 10 { (0x50, 0x78, 0xE8) }
    else if i == 11 { (0x20, 0xA0, 0x80) }
    else if i == 12 { (0xDC, 0x8C, 0x20) }
    else if i == 13 { (0xC8, 0x30, 0x30) }
    else if i == 14 { (0x70, 0x38, 0xC0) }
    else { (0x00, 0x00, 0x00) }
}

/// The ends of the ramp `k` (0 to 6): gray, blue, purple, teal, green, orange, red.
pub open spec fn ramp_ends(k: int) -> ((u8, u8, u8), (u8, u8, u8)) {
    if k == 0 { ((0x08, 0x08, 0x08), (0xF8, 0xF8, 0xF8)) }
    else if k == 1 { ((0x08, 0x08, 0x30), (0x60, 0x90, 0xF0)) }
    else if k == 2 { ((0x20, 0x08, 0x30), (0xB0, 0x60, 0xF0)) }
    else if k == 3 { ((0x08, 0x20, 0x20), (0x40, 0xE0, 0xD0)) }
    else if k == 4 { ((0x08, 0x20, 0x08), (0x50, 0xE0, 0x50)) }
    else if k == 5 { ((0x30, 0x18, 0x08), (0xF0, 0xA0, 0x30)) }
    else { ((0x30, 0x08, 0x08), (0xF0, 0x40, 0x40)) }
}

/// The 8-bit color of palette entry `i`: named colors, then seven ramps of
/// sixteen, then black.
pub open spec fn palette_color(i: int) -> (u8, u8, u8) {
    if i < 16 {
        core_color(i)
    } else if i < 128 {
        let k = (i - 16) / 16;
        ramp_color(ramp_ends(k).0, ramp_ends(k).1, ((i - 16) % 16) as u8, 16)
    } else {
        (0, 0, 0)
    }
}

/// The palette as the DAC takes it: 256 entries of 6-bit red, green, blue.
pub open spec fn palette_dac(i: int) -> (u8, u8, u8) {
    dac(palette_color(i).0, palette_color(i).1, palette_color(i).2)
}

fn core_color_exec(i: u8) -> (c: (u8, u8, u8))
    requires
        i < 16,
    ensures
        c == core_color(i as int),
{
    if i == 0 { (0x14, 0x14, 0x20) }
    else if i == 1 { (0x20, 0x20, 0x30) }
    else if i == 2 { (0x2C, 0x2C, 0x40) }
    else if i == 3 { (0x38, 0x38, 0x50) }
    else if i == 4 { (0x48, 0x48, 0x60) }
    else if i == 5 { (0x64, 0x64, 0x78) }
    else if i == 6 { (0x80, 0x80, 0x90) }
    else if i == 7 { (0xC0, 0xC0, 0xC8) }
    else if i == 8 { (0xF0, 0xF0, 0xFC) }
    else if i == 9 { (0x38, 0x58, 0xC8) }
    else if i == 10 { (0x50, 0x78, 0xE8) }
    else if i == 11 { (0x20, 0xA0, 0x80) }
    else if i == 12 { (0xDC, 0x8C, 0x20) }
    else if i == 13 { (0xC8, 0x30, 0x30) }
    else if i == 14 { (0x70, 0x38, 0xC0) }
    else { (0x00, 0x00, 0x00) }
}

fn ramp_ends_exec(k: u8) -> (r: ((u8, u8, u8), (u8, u8, u8)))
    requires
        k < 7,
    ensures
        r == ramp_ends(k as int),
{
    if k == 0 { ((0x08, 0x08, 0x08), (0xF8, 0xF8, 0xF8)) }
    else if k == 1 { ((0x08, 0x08, 0x30), (0x60, 0x90, 0xF0)) }
    else if k == 2 { ((0x20, 0x08, 0x30), (0xB0, 0x60, 0xF0)) }
    else if k == 3 { ((0x08, 0x20, 0x20), (0x40, 0xE0, 0xD0)) }
    else if k == 4 { ((0x08, 0x20, 0x08), (0x50, 0xE0, 0x50)) }
    else if k == 5 { ((0x30, 0x18, 0x08), (0xF0, 0xA0, 0x30)) }
    else { ((0x30, 0x08, 0x08), (0xF0, 0x40, 0x40)) }
}

/// The ramp of `count` colors from `c0` to `c1`, in 8 bits.
pub fn ramp(c0: (u8, u8, u8), c1: (u8, u8, u8), count: u8) -> (r: Vec<(u8, u8, u8)>)
    requires
        count > 1,
        c0.0 <= c1.0 && c0.1 <= c1.1 && c0.2 <= c1.2,
    ensures
        r@.len() == count,
        forall|i: int| 0 <= i < count ==> #[trigger] r@[i] == ramp_color(c0, c1, i as u8, count),
{
    let mut out: Vec<(u8, u8, u8)> = Vec::new();
    let mut i: u8 = 0;
    while i < count
        invariant
            i <= count,
            count > 1,
            c0.0 <= c1.0 && c0.1 <= c1.1 && c0.2 <= c1.2,
            out@.len() == i,
            forall|j: int| 0 <= j < i ==> #[trigger] out@[j] == ramp_color(c0, c1, j as u8, count),
        decreases count - i,
    {
        let r = lerp(c0.0, c1.0, i, count - 1);
        let g = lerp(c0.1, c1.1, i, count - 1);
        let b = lerp(c0.2, c1.2, i, count - 1);
        out.push((r, g, b));
        i = i + 1;
    }
    out
}

/// The whole palette, entry by entry, as the DAC takes it.
pub fn load_palette() -> (r: Vec<(u8, u8, u8)>)
    ensures
        r@.len() == 256,
        forall|i: int| 0 <= i < 256 ==> #[trigger] r@[i] == palette_dac(i),
{
    let mut out: Vec<(u8, u8, u8)> = Vec::new();
    let mut i: u8 = 0;
    while i < 16
        invariant
            i <= 16,
            out@.len() == i,
            forall|j: int| 0 <= j < i ==> #[trigger] out@[j] == palette_dac(j),
        decreases 16 - i,
    {
        let c = core_color_exec(i);
        out.push(rgb(c.0, c.1, c.2));
        i = i + 1;
    }
    let mut k: u8 = 0;
    while k < 7
        invariant
            k <= 7,
            out@.len() == 16 + 16 * k,
            forall|j: int| 0 <= j < 16 + 16 * k ==> #[trigger] out@[j] == palette_dac(j),
        decreases 7 - k,
    {
        let ends = ramp_ends_exec(k);
        let colors = ramp(ends.0, ends.1, 16);
        let mut m: usize = 0;
        while m < 16
            invariant
                k < 7,
                m <= 16,
                ends == ramp_ends(k as int),
                colors@.len() == 16,
                forall|t: int| 0 <= t < 16 ==> #[trigger] colors@[t] == ramp_color(ends.0, ends.1, t as u8, 16),
                out@.len() == 16 + 16 * k + m,
                forall|j: int| 0 <= j < 16 + 16 * k + m ==> #[trigger] out@[j] == palette_dac(j),
            decreases 16 - m,
        {
            let c = colors[m];
            out.push(rgb(c.0, c.1, c.2));
            proof {
                let j = 16 + 16 * k + m;
                assert((j - 16) / 16 == k as int && (j - 16) % 16 == m as int) by (nonlinear_arith)
                    requires j == 16 + 16 * k + m, 0 <= m < 16, 0 <= k;
                assert(j < 128);
                assert(palette_color(j) == ramp_color(ends.0, ends.1, m as u8, 16));
                assert(out@[j] == palette_dac(j));
            }
            m = m + 1;
        }
        k = k + 1;
    }
    while out.len() < 256
        invariant
            128 <= out@.len() <= 256,
            forall|j: int| 0 <= j < out@.len() ==> #[trigger] out@[j] == palette_dac(j),
        decreases 256 - out@.len(),
    {
        out.push(rgb(0, 0, 0));
    }
    out
}


/// Every palette entry is a valid DAC color: each of red, green and blue below 64.
pub proof fn law_palette_six_bit(i: int)
    ensures
        palette_dac(i).0 < 64,
        palette_dac(i).1 < 64,
        palette_dac(i).2 < 64,
{
    let c = palette_color(i);
    let (r, g, b) = (c.0, c.1, c.2);
    assert(r >> 2 < 64) by (bit_vector);
    assert(g >> 2 < 64) by (bit_vector);
    assert(b >> 2 < 64) by (bit_vector);
}

} // verus!
