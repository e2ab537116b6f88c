//! Filling the wallpaper logo's polygons, row by row: where each row crosses
//! the polygon's edges, in increasing order, and the spans between pairs of
//! crossings.
use vstd::prelude::*;
use vstd::relations::{sorted_by, total_ordering};

verus! {

/// The order crossings are sorted in.
pub open spec fn leq16() -> spec_fn(i16, i16) -> bool {
    |a: i16, b: i16| a <= b
}

proof fn lemma_leq16_total()
    ensures
        total_ordering(leq16()),
{
}

/// Swaps the neighbours at `j - 1` and `j`.
fn swap_down(v: &mut Vec<i16>, j: usize)
    requires
        0 < j < old(v)@.len(),
    ensures
        final(v)@ == old(v)@.update(j - 1, old(v)@[j as int]).update(j as int, old(v)@[j - 1]),
        final(v)@.to_multiset() == old(v)@.to_multiset(),
{
    let a = v[j - 1];
    let b = v[j];
    v.set(j - 1, b);
    v.set(j, a);
    proof {
        broadcast use vstd::seq_lib::group_to_multiset_ensures;
        broadcast use vstd::multiset::group_multiset_axioms;
        let s = old(v)@;
        let s1 = s.update(j - 1, b);
        vstd::seq_lib::to_multiset_update(s, j - 1, b);
        vstd::seq_lib::to_multiset_update(s1, j as int, a);
        assert(s1[j as int] == b);
        assert(v@.to_multiset() =~= s.to_multiset());
    }
}

/// Sorts the crossings in increasing order, by insertion.
fn sort_crossings(v: &mut Vec<i16>)
    ensures
        final(v)@ == old(v)@.sort_by(leq16()),
{
    let n = v.len();
    let mut i: usize = 1;
    if n == 0 {
        proof {
            lemma_leq16_total();
            old(v)@.lemma_sort_by_ensures(leq16());
            vstd::seq_lib::lemma_sorted_unique(v@, old(v)@.sort_by(leq16()), leq16());
        }
        return;
    }
    while i < n
        invariant
            1 <= i <= n,
            n == v@.len(),
            v@.to_multiset() == old(v)@.to_multiset(),
            sorted_by(v@.take(i as int), leq16()),
        decreases n - i,
    {
        let mut j = i;
        proof {
            assert forall|a: int, b: int| 0 <= a < b < j implies v@[a] <= v@[b] by {
                assert(leq16()(v@.take(i as int)[a], v@.take(i as int)[b]));
            }
        }
        while j > 0 && v[j - 1] > v[j]
            invariant
                0 <= j <= i < n,
                n == v@.len(),
                v@.to_multiset() == old(v)@.to_multiset(),
                forall|a: int, b: int| 0 <= a < b < j ==> v@[a] <= v@[b],
                forall|a: int, b: int| j <= a < b <= i ==> v@[a] <= v@[b],
                forall|a: int, b: int| 0 <= a < j && j < b <= i ==> v@[a] <= v@[b],
            decreases j,
        {
            swap_down(v, j);
            j = j - 1;
        }
        proof {
            assert forall|a: int, b: int| 0 <= a < b < i + 1 implies #[trigger] leq16()(v@.take(i + 1)[a], v@.take(i + 1)[b]) by {
                assert(v@.take(i + 1)[a] == v@[a]);
                assert(v@.take(i + 1)[b] == v@[b]);
                if a < j && b == j {
                    assert(v@[a] <= v@[j - 1]);
                }
            }
        }
        i = i + 1;
    }
    proof {
        lemma_leq16_total();
        assert(v@.take(n as int) =~= v@);
        old(v)@.lemma_sort_by_ensures(leq16());
        vstd::seq_lib::lemma_sorted_unique(v@, old(v)@.sort_by(leq16()), leq16());
    }
}


/// The absolute value.
pub open spec fn abs_int(v: int) -> int {
    if v < 0 { -v } else { v }
}

/// `a / b` rounded toward zero, as Rust divides integers.
pub open spec fn trunc_div(a: int, b: int) -> int {
    if (a >= 0) == (b >= 0) {
        abs_int(a) / abs_int(b)
    } else {
        -(abs_int(a) / abs_int(b))
    }
}

/// The edge from `p` to `q` spans row `y`: one end at or above it, the other below.
pub open spec fn crosses(p: (i16, i16), q: (i16, i16), y: int) -> bool {
    (p.1 <= y && q.1 > y) || (q.1 <= y && p.1 > y)
}

/// Where the edge from `p` to `q` crosses row `y`, in whole pixels, cut to 16 bits.
pub open spec fn cross_x(p: (i16, i16), q: (i16, i16), y: int) -> i16 {
    (p.0 + trunc_div((y - p.1) * (q.0 - p.0), q.1 - p.1)) as i16
}

/// The crossings of row `y` with the first `k` edges, the edge `i` running
/// from vertex `i` to the next (the last back to the first); at most 64 are kept.
pub open spec fn crossings(vs: Seq<(i16, i16)>, y: int, k: int) -> Seq<i16>
    decreases k,
{
    if k <= 0 {
        Seq::empty()
    } else {
        let prev = crossings(vs, y, k - 1);
        let p = vs[k - 1];
        let q = vs[k % (vs.len() as int)];
        if crosses(p, q, y) && prev.len() < 64 {
            prev.push(cross_x(p, q, y))
        } else {
            prev
        }
    }
}

/// The crossings of row `y` with all the edges, in increasing order.
pub open spec fn row_crossings(vs: Seq<(i16, i16)>, y: int) -> Seq<i16> {
    crossings(vs, y, vs.len() as int).sort_by(leq16())
}

/// Column `x` lies in the span between crossings `j` and `j + 1`, clipped to
/// the row's `w` columns.
pub open spec fn pair_has(s: Seq<i16>, j: int, x: int, w: int) -> bool {
    let lo = if s[j] < 0 { 0 } else { s[j] as int };
    let hi0 = if s[j + 1] < 0 { 0 } else { s[j + 1] as int };
    let hi = if hi0 < w - 1 { hi0 } else { w - 1 };
    lo <= x <= hi
}

/// Column `x` lies in a span of the pairs that start below index `k`: the
/// crossings pair up from the first, a last odd one left alone.
pub open spec fn spans_below(s: Seq<i16>, k: int, x: int, w: int) -> bool
    decreases k,
{
    if k <= 0 {
        false
    } else {
        (((k - 1) % 2 == 0 && k < s.len() && pair_has(s, k - 1, x, w)) || spans_below(s, k - 1, x, w))
    }
}

/// Column `x` of a row lies in one of the row's spans.
pub open spec fn in_spans(s: Seq<i16>, x: int, w: int) -> bool {
    spans_below(s, s.len() as int, x, w)
}

/// The lowest and highest vertex rows among the first `k`.
pub open spec fn min_row(vs: Seq<(i16, i16)>, k: int) -> int
    decreases k,
{
    if k <= 1 {
        vs[0].1 as int
    } else {
        let m = min_row(vs, k - 1);
        if vs[k - 1].1 < m { vs[k - 1].1 as int } else { m }
    }
}

pub open spec fn max_row(vs: Seq<(i16, i16)>, k: int) -> int
    decreases k,
{
    if k <= 1 {
        vs[0].1 as int
    } else {
        let m = max_row(vs, k - 1);
        if vs[k - 1].1 > m { vs[k - 1].1 as int } else { m }
    }
}

/// The rows filled: from the lowest vertex row, not above the first row, to
/// the highest, not below the last.
pub open spec fn first_row(vs: Seq<(i16, i16)>) -> int {
    let m = min_row(vs, vs.len() as int);
    if m < 0 { 0 } else { m }
}

pub open spec fn last_row(vs: Seq<(i16, i16)>, height: int) -> int {
    let m = max_row(vs, vs.len() as int);
    if m < height - 1 { m } else { height - 1 }
}

/// The buffer with rows `lo` to `hi - 1` filled in `color` within the polygon's spans.
pub open spec fn rows_filled(b: Seq<u8>, w: int, vs: Seq<(i16, i16)>, lo: int, hi: int, color: u8) -> Seq<u8> {
    Seq::new(
        b.len(),
        |c: int|
            if lo <= c / w < hi && in_spans(row_crossings(vs, c / w), c % w, w) {
                color
            } else {
                b[c]
            },
    )
}

/// The buffer after the polygon is filled: nothing for fewer than three vertices.
pub open spec fn polygon_filled(b: Seq<u8>, w: int, h: int, vs: Seq<(i16, i16)>, color: u8) -> Seq<u8> {
    if vs.len() < 3 {
        b
    } else {
        rows_filled(b, w, vs, first_row(vs), last_row(vs, h) + 1, color)
    }
}

/// Where the edge crosses the row, as `cross_x` says.
fn edge_cross(p: (i16, i16), q: (i16, i16), y: i16) -> (r: i16)
    requires
        p.1 != q.1,
    ensures
        r == cross_x(p, q, y as int),
{
    let dy: i64 = y as i64 - p.1 as i64;
    let dx: i64 = q.0 as i64 - p.0 as i64;
    assert(-65535 * 65535 <= dy * dx <= 65535 * 65535) by (nonlinear_arith)
        requires
            -65535 <= dy <= 65535,
            -65535 <= dx <= 65535,
    ;
    let num: i64 = dy * dx;
    let den: i64 = q.1 as i64 - p.1 as i64;
    let an: u64 = if num < 0 { (-num) as u64 } else { num as u64 };
    let ad: u64 = if den < 0 { (-den) as u64 } else { den as u64 };
    let q0: u64 = an / ad;
    assert(q0 <= an) by (nonlinear_arith)
        requires
            q0 == an / ad,
            ad >= 1,
    ;
    let d: i64 = if (num >= 0) == (den >= 0) { q0 as i64 } else { -(q0 as i64) };
    let x: i64 = p.0 as i64 + d;
    x as i16
}

/// The crossings of row `y` with every edge, as `crossings` says.
fn crossings_of(vertices: &[(i16, i16)], y: i16) -> (r: Vec<i16>)
    requires
        vertices@.len() >= 1,
    ensures
        r@ == crossings(vertices@, y as int, vertices@.len() as int),
{
    let n = vertices.len();
    let mut out: Vec<i16> = Vec::new();
    let mut i: usize = 0;
    while i < n
        invariant
            n == vertices@.len(),
            n >= 1,
            i <= n,
            out@ == crossings(vertices@, y as int, i as int),
        decreases n - i,
    {
        let p = vertices[i];
        let q = vertices[(i + 1) % n];
        if ((p.1 <= y && q.1 > y) || (q.1 <= y && p.1 > y)) && out.len() < 64 {
            let x = edge_cross(p, q, y);
            out.push(x);
        }
        i = i + 1;
    }
    out
}

/// The lowest and the highest vertex row.
fn row_range(vertices: &[(i16, i16)]) -> (r: (i16, i16))
    requires
        vertices@.len() >= 1,
    ensures
        r.0 == min_row(vertices@, vertices@.len() as int),
        r.1 == max_row(vertices@, vertices@.len() as int),
{
    let mut lo = vertices[0].1;
    let mut hi = vertices[0].1;
    let mut i: usize = 1;
    while i < vertices.len()
        invariant
            1 <= i <= vertices@.len(),
            lo == min_row(vertices@, i as int),
            hi == max_row(vertices@, i as int),
        decreases vertices@.len() - i,
    {
        let v = vertices[i].1;
        if v < lo {
            lo = v;
        }
        if v > hi {
            hi = v;
        }
        i = i + 1;
    }
    (lo, hi)
}


proof fn lemma_cell(y: int, x: int, w: int)
    requires
        0 <= x < w,
        0 <= y,
    ensures
        (y * w + x) / w == y,
        (y * w + x) % w == x,
{
    vstd::arithmetic::div_mod::lemma_fundamental_div_mod_converse(y * w + x, w, y, x);
}

/// Fills row `y` of a buffer `w` columns wide within the spans of the sorted
/// crossings `s`.
fn fill_row(buffer: &mut [u8], w: usize, y: usize, s: &Vec<i16>, color: u8)
    requires
        w >= 1,
        (y + 1) * w <= old(buffer)@.len(),
    ensures
        final(buffer)@ == Seq::new(
            old(buffer)@.len(),
            |c: int| if c / (w as int) == y && in_spans(s@, c % (w as int), w as int) { color } else { old(buffer)@[c] },
        ),
{
    let ghost b0 = buffer@;
    let ghost wi = w as int;
    let blen = buffer.len();
    let n = s.len();
    let mut i: usize = 0;
    assert((y + 1) * w == y * w + w) by (nonlinear_arith);
    assert(buffer@ =~= Seq::new(b0.len(), |c: int| if c / wi == y && spans_below(s@, 0, c % wi, wi) { color } else { b0[c] }));
    while i + 1 < n
        invariant
            n == s@.len(),
            i % 2 == 0,
            i <= n,
            w >= 1,
            wi == w,
            (y + 1) * w <= b0.len(),
            (y + 1) * w == y * w + w,
            blen == b0.len(),
            buffer@.len() == b0.len(),
            buffer@ == Seq::new(b0.len(), |c: int| if c / wi == y && spans_below(s@, i as int, c % wi, wi) { color } else { b0[c] }),
        decreases n - i,
    {
        let a = s[i];
        let b = s[i + 1];
        let x_start: usize = if a < 0 { 0 } else { a as usize };
        let hi0: usize = if b < 0 { 0 } else { b as usize };
        let x_end: usize = if hi0 < w - 1 { hi0 } else { w - 1 };
        let mut x = x_start;
        assert(buffer@ =~= Seq::new(
            b0.len(),
            |c: int|
                if c / wi == y && (spans_below(s@, i as int, c % wi, wi) || (x_start <= c % wi < x)) {
                    color
                } else {
                    b0[c]
                },
        ));
        while x <= x_end
            invariant
                n == s@.len(),
                i + 1 < n,
                w >= 1,
                wi == w,
                x_end <= w - 1,
                x_start <= x <= x_end + 1 || x == x_start,
                (y + 1) * w <= b0.len(),
                (y + 1) * w == y * w + w,
                blen == b0.len(),
                buffer@.len() == b0.len(),
                buffer@ == Seq::new(
                    b0.len(),
                    |c: int|
                        if c / wi == y && (spans_below(s@, i as int, c % wi, wi) || (x_start <= c % wi < x)) {
                            color
                        } else {
                            b0[c]
                        },
                ),
            decreases x_end + 1 - x,
        {
            proof {
                lemma_cell(y as int, x as int, wi);
            }
            let ghost before = buffer@;
            buffer[y * w + x] = color;
            proof {
                assert forall|c: int| 0 <= c < b0.len() && c != y * w + x implies #[trigger] buffer@[c] == before[c] by {}
                assert forall|c: int| 0 <= c < b0.len() && c / wi == y && #[trigger] (c % wi) == x implies c == y * wi + x by {
                    vstd::arithmetic::div_mod::lemma_fundamental_div_mod(c, wi);
                    assert(wi * (c / wi) == y * wi) by (nonlinear_arith)
                        requires
                            c / wi == y,
                    ;
                }
                assert(buffer@ =~= Seq::new(
                    b0.len(),
                    |c: int|
                        if c / wi == y && (spans_below(s@, i as int, c % wi, wi) || (x_start <= c % wi < x + 1)) {
                            color
                        } else {
                            b0[c]
                        },
                ));
            }
            x = x + 1;
        }
        proof {
            assert forall|c: int| #![trigger spans_below(s@, i + 2, c, wi)] true implies spans_below(s@, i + 2, c, wi)
                == (spans_below(s@, i as int, c, wi) || pair_has(s@, i as int, c, wi)) by {
                assert(spans_below(s@, i + 1, c, wi) == (pair_has(s@, i as int, c, wi) || spans_below(s@, i as int, c, wi)));
            }
            assert(buffer@ =~= Seq::new(b0.len(), |c: int| if c / wi == y && spans_below(s@, i + 2, c % wi, wi) { color } else { b0[c] }));
        }
        i = i + 2;
    }
    proof {
        assert forall|c: int| #![trigger spans_below(s@, n as int, c, wi)] true implies spans_below(s@, n as int, c, wi)
            == spans_below(s@, i as int, c, wi) by {
            if i < n {
                assert(spans_below(s@, n as int, c, wi) == spans_below(s@, n - 1, c, wi));
            }
        }
        assert(buffer@ =~= Seq::new(b0.len(), |c: int| if c / wi == y && in_spans(s@, c % wi, wi) { color } else { b0[c] }));
    }
}

/// Fills a polygon in `color` in a buffer of `width` by `height` pixels, row
/// by row between pairs of the sorted crossings of the row with the edges.
pub fn fill_polygon(buffer: &mut [u8], width: usize, height: usize, vertices: &[(i16, i16)], color: u8)
    requires
        old(buffer)@.len() == width * height,
        width >= 1,
        height <= 32767,
    ensures
        final(buffer)@ == polygon_filled(old(buffer)@, width as int, height as int, vertices@, color),
{
    if vertices.len() < 3 {
        return;
    }
    let ghost b0 = buffer@;
    let ghost w = width as int;
    let (lo, hi) = row_range(vertices);
    let min_y: i16 = if lo < 0 { 0 } else { lo };
    let hmax: i16 = height as i16 - 1;
    let max_y: i16 = if hi < hmax { hi } else { hmax };
    let mut y = min_y;
    assert(buffer@ =~= rows_filled(b0, w, vertices@, min_y as int, y as int, color));
    while y <= max_y
        invariant
            b0.len() == width * height,
            width >= 1,
            w == width,
            height <= 32767,
            vertices@.len() >= 3,
            0 <= min_y <= y,
            y <= max_y + 1 || y == min_y,
            max_y <= height - 1,
            buffer@.len() == b0.len(),
            buffer@ == rows_filled(b0, w, vertices@, min_y as int, y as int, color),
        decreases max_y + 1 - y,
    {
        let mut ix = crossings_of(vertices, y);
        sort_crossings(&mut ix);
        let yu = y as usize;
        assert((yu + 1) * width <= height * width) by (nonlinear_arith)
            requires
                yu + 1 <= height,
        ;
        assert(height * width == width * height) by (nonlinear_arith);
        let ghost before = buffer@;
        fill_row(buffer, width, yu, &ix, color);
        assert(buffer@ =~= rows_filled(b0, w, vertices@, min_y as int, y + 1, color));
        y = y + 1;
    }
    assert(buffer@ =~= rows_filled(b0, w, vertices@, first_row(vertices@), last_row(vertices@, height as int) + 1, color));
}


/// The first index from `i` on that is not a separator (`,` or a space).
pub open spec fn skip_seps(b: Seq<u8>, i: int) -> int
    decreases b.len() - i,
{
    if 0 <= i < b.len() && (b[i] == 44 || b[i] == 32) {
        skip_seps(b, i + 1)
    } else {
        i
    }
}

/// The first index from `i` on that is not a decimal digit.
pub open spec fn skip_digits(b: Seq<u8>, i: int) -> int
    decreases b.len() - i,
{
    if 0 <= i < b.len() && 48 <= b[i] <= 57 {
        skip_digits(b, i + 1)
    } else {
        i
    }
}

pub open spec fn is_letter(c: u8) -> bool {
    (65 <= c <= 90) || (97 <= c <= 122)
}

/// The next number of a path's text from `p`: past the separators, an
/// optional sign, digits, and a fraction after a dot; where the number's
/// bytes lie, and where reading stops. A letter or the end gives none.
pub open spec fn number_at(b: Seq<u8>, p: int) -> (Option<(int, int)>, int) {
    let s = skip_seps(b, p);
    if s >= b.len() || is_letter(b[s]) {
        (None, s)
    } else {
        let a = if b[s] == 45 || b[s] == 43 { s + 1 } else { s };
        let d = skip_digits(b, a);
        let e = if d < b.len() && b[d] == 46 { skip_digits(b, d + 1) } else { d };
        if e == s {
            (None, e)
        } else {
            (Some((s, e)), e)
        }
    }
}

fn digits_end(b: &[u8], i: usize) -> (r: usize)
    requires
        i <= b@.len(),
    ensures
        r == skip_digits(b@, i as int),
{
    let mut k = i;
    while k < b.len() && 48 <= b[k] && b[k] <= 57
        invariant
            i <= k <= b@.len(),
            skip_digits(b@, k as int) == skip_digits(b@, i as int),
        decreases b@.len() - k,
    {
        k = k + 1;
    }
    k
}

/// Finds the next number of a path's text from `pos`, as `number_at` says:
/// the bytes that hold it, and where reading goes on.
pub fn number_span(b: &[u8], pos: usize) -> (r: (Option<(usize, usize)>, usize))
    requires
        pos <= b@.len(),
    ensures
        ({
            let (n, q) = number_at(b@, pos as int);
            &&& r.1 == q
            &&& match n {
                Some((s, e)) => r.0 == Some((s as usize, e as usize)),
                None => r.0 is None,
            }
        }),
{
    let mut s = pos;
    while s < b.len() && (b[s] == 44 || b[s] == 32)
        invariant
            pos <= s <= b@.len(),
            skip_seps(b@, s as int) == skip_seps(b@, pos as int),
        decreases b@.len() - s,
    {
        s = s + 1;
    }
    if s >= b.len() {
        return (None, s);
    }
    let c = b[s];
    if (65 <= c && c <= 90) || (97 <= c && c <= 122) {
        return (None, s);
    }
    let a = if c == 45 || c == 43 { s + 1 } else { s };
    let d = digits_end(b, a);
    let e = if d < b.len() && b[d] == 46 { digits_end(b, d + 1) } else { d };
    if e == s {
        (None, e)
    } else {
        (Some((s, e)), e)
    }
}

} // verus!
