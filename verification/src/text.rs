use vstd::prelude::*;
use vstd::string::StringSliceAdditionalSpecFns;

verus! {

/// Byte-wise lexicographic order, the order in which the file system keeps
/// the names of a directory.
pub open spec fn lex_lt(a: Seq<u8>, b: Seq<u8>) -> bool
    decreases a.len(),
{
    if a.len() == 0 {
        b.len() > 0
    } else if b.len() == 0 {
        false
    } else if a[0] < b[0] {
        true
    } else if a[0] > b[0] {
        false
    } else {
        lex_lt(a.drop_first(), b.drop_first())
    }
}

pub proof fn lemma_lex_irreflexive(a: Seq<u8>)
    ensures
        !lex_lt(a, a),
    decreases a.len(),
{
    if a.len() > 0 {
        lemma_lex_irreflexive(a.drop_first());
    }
}

pub proof fn lemma_lex_transitive(a: Seq<u8>, b: Seq<u8>, c: Seq<u8>)
    requires
        lex_lt(a, b),
        lex_lt(b, c),
    ensures
        lex_lt(a, c),
    decreases a.len(),
{
    if a.len() > 0 && b.len() > 0 && c.len() > 0 {
        if a[0] == b[0] && b[0] == c[0] {
            lemma_lex_transitive(a.drop_first(), b.drop_first(), c.drop_first());
        }
    }
}

pub proof fn lemma_lex_total(a: Seq<u8>, b: Seq<u8>)
    ensures
        a =~= b || lex_lt(a, b) || lex_lt(b, a),
    decreases a.len(),
{
    if a.len() > 0 && b.len() > 0 && a[0] == b[0] {
        lemma_lex_total(a.drop_first(), b.drop_first());
        if a.drop_first() =~= b.drop_first() {
            assert(a =~= seq![a[0]] + a.drop_first());
            assert(b =~= seq![b[0]] + b.drop_first());
        }
    }
}

pub proof fn lemma_lex_asymmetric(a: Seq<u8>, b: Seq<u8>)
    requires
        lex_lt(a, b),
    ensures
        !lex_lt(b, a),
        a != b,
{
    if lex_lt(b, a) {
        lemma_lex_transitive(a, b, a);
        lemma_lex_irreflexive(a);
    }
    lemma_lex_irreflexive(a);
}

proof fn lemma_lex_skip(a: Seq<u8>, b: Seq<u8>, i: int)
    requires
        0 <= i < a.len(),
        i < b.len(),
        a.subrange(0, i) =~= b.subrange(0, i),
        a[i] == b[i],
    ensures
        lex_lt(a.skip(i), b.skip(i)) == lex_lt(a.skip(i + 1), b.skip(i + 1)),
{
    assert(a.skip(i).drop_first() =~= a.skip(i + 1));
    assert(b.skip(i).drop_first() =~= b.skip(i + 1));
}

/// Whether two byte strings are equal.
pub fn bytes_eq(a: &[u8], b: &[u8]) -> (r: bool)
    ensures
        r == (a@ == b@),
{
    if a.len() != b.len() {
        return false;
    }
    let mut i: usize = 0;
    while i < a.len()
        invariant
            0 <= i <= a.len(),
            a.len() == b.len(),
            a@.subrange(0, i as int) =~= b@.subrange(0, i as int),
        decreases a.len() - i,
    {
        if a[i] != b[i] {
            assert(a@[i as int] != b@[i as int]);
            return false;
        }
        assert(a@.subrange(0, i + 1) =~= a@.subrange(0, i as int).push(a@[i as int]));
        assert(b@.subrange(0, i + 1) =~= b@.subrange(0, i as int).push(b@[i as int]));
        i = i + 1;
    }
    assert(a@ =~= a@.subrange(0, a@.len() as int));
    assert(b@ =~= b@.subrange(0, b@.len() as int));
    true
}

/// Whether `a` comes strictly before `b` in byte-wise lexicographic order.
pub fn bytes_lt(a: &[u8], b: &[u8]) -> (r: bool)
    ensures
        r == lex_lt(a@, b@),
{
    let mut i: usize = 0;
    assert(a@.skip(0) =~= a@);
    assert(b@.skip(0) =~= b@);
    while i < a.len() && i < b.len()
        invariant
            0 <= i <= a.len(),
            i <= b.len(),
            a@.subrange(0, i as int) =~= b@.subrange(0, i as int),
            lex_lt(a@, b@) == lex_lt(a@.skip(i as int), b@.skip(i as int)),
        decreases a.len() - i,
    {
        if a[i] != b[i] {
            return a[i] < b[i];
        }
        proof {
            lemma_lex_skip(a@, b@, i as int);
            assert(a@.subrange(0, i + 1) =~= a@.subrange(0, i as int).push(a@[i as int]));
            assert(b@.subrange(0, i + 1) =~= b@.subrange(0, i as int).push(b@[i as int]));
        }
        i = i + 1;
    }
    i < b.len()
}


/// Appends a byte string.
pub fn append_bytes(out: &mut Vec<u8>, s: &[u8])
    ensures
        final(out)@ == old(out)@ + s@,
{
    out.extend_from_slice(s);
    assert(final(out)@ =~= old(out)@ + s@);
}


/// ASCII whitespace: space, and tab through carriage return.
pub open spec fn is_space(b: u8) -> bool {
    b == 32 || (9 <= b && b <= 13)
}

/// The three-byte UTF-8 forms of the whitespace characters U+1680,
/// U+2000..U+200A, U+2028, U+2029, U+202F, U+205F and U+3000.
pub open spec fn is_space3(a: u8, b: u8, c: u8) -> bool {
    ||| a == 0xE1 && b == 0x9A && c == 0x80
    ||| a == 0xE2 && b == 0x80 && ((0x80 <= c && c <= 0x8A) || c == 0xA8 || c == 0xA9 || c == 0xAF)
    ||| a == 0xE2 && b == 0x81 && c == 0x9F
    ||| a == 0xE3 && b == 0x80 && c == 0x80
}

/// The length in bytes of the whitespace character that starts at `i`, or 0
/// where none does. The whitespace characters are those that
/// `char::is_whitespace` accepts: the ASCII ones, U+0085 and U+00A0 in two
/// bytes, and the rest in three.
pub open spec fn space_len(s: Seq<u8>, i: int) -> int {
    if i < 0 || i >= s.len() {
        0
    } else if is_space(s[i]) {
        1
    } else if i + 1 < s.len() && s[i] == 0xC2 && (s[i + 1] == 0x85 || s[i + 1] == 0xA0) {
        2
    } else if i + 2 < s.len() && is_space3(s[i], s[i + 1], s[i + 2]) {
        3
    } else {
        0
    }
}

/// The length in bytes of the whitespace character that ends at `j`, or 0.
pub open spec fn space_len_before(s: Seq<u8>, j: int) -> int {
    if j >= 1 && space_len(s, j - 1) == 1 {
        1
    } else if j >= 2 && space_len(s, j - 2) == 2 {
        2
    } else if j >= 3 && space_len(s, j - 3) == 3 {
        3
    } else {
        0
    }
}

fn is_space3_bytes(a: u8, b: u8, c: u8) -> (r: bool)
    ensures
        r == is_space3(a, b, c),
{
    (a == 0xE1 && b == 0x9A && c == 0x80)
        || (a == 0xE2 && b == 0x80 && ((0x80 <= c && c <= 0x8A) || c == 0xA8 || c == 0xA9 || c == 0xAF))
        || (a == 0xE2 && b == 0x81 && c == 0x9F)
        || (a == 0xE3 && b == 0x80 && c == 0x80)
}

pub fn space_len_at(s: &[u8], i: usize) -> (k: usize)
    ensures
        k == space_len(s@, i as int),
        k <= 3,
        k > 0 ==> i + k <= s@.len(),
{
    let n = s.len();
    if i >= n {
        0
    } else if is_space_byte(s[i]) {
        1
    } else if n - i > 1 && s[i] == 0xC2 && (s[i + 1] == 0x85 || s[i + 1] == 0xA0) {
        2
    } else if n - i > 2 && is_space3_bytes(s[i], s[i + 1], s[i + 2]) {
        3
    } else {
        0
    }
}

pub fn space_len_before_at(s: &[u8], j: usize) -> (k: usize)
    requires
        j <= s@.len(),
    ensures
        k == space_len_before(s@, j as int),
        k <= j,
{
    if j >= 1 && space_len_at(s, j - 1) == 1 {
        1
    } else if j >= 2 && space_len_at(s, j - 2) == 2 {
        2
    } else if j >= 3 && space_len_at(s, j - 3) == 3 {
        3
    } else {
        0
    }
}

pub fn is_space_byte(b: u8) -> (r: bool)
    ensures
        r == is_space(b),
{
    b == 32 || (9 <= b && b <= 13)
}

/// The first index at or after `i` where no whitespace character starts, or
/// the length.
pub open spec fn next_nonspace(s: Seq<u8>, i: int) -> int
    decreases s.len() - i,
{
    if i >= s.len() || i < 0 || space_len(s, i) == 0 {
        i
    } else {
        next_nonspace(s, i + space_len(s, i))
    }
}

/// The first index at or after `i` where a whitespace character starts, or the length.
pub open spec fn next_space(s: Seq<u8>, i: int) -> int
    decreases s.len() - i,
{
    if i >= s.len() || i < 0 || space_len(s, i) > 0 {
        i
    } else {
        next_space(s, i + 1)
    }
}

pub proof fn lemma_next_nonspace(s: Seq<u8>, i: int)
    requires
        0 <= i <= s.len(),
    ensures
        i <= next_nonspace(s, i) <= s.len(),
        next_nonspace(s, i) < s.len() ==> space_len(s, next_nonspace(s, i)) == 0,
    decreases s.len() - i,
{
    if i < s.len() && space_len(s, i) > 0 {
        lemma_next_nonspace(s, i + space_len(s, i));
    }
}

pub proof fn lemma_next_space(s: Seq<u8>, i: int)
    requires
        0 <= i <= s.len(),
    ensures
        i <= next_space(s, i) <= s.len(),
        next_space(s, i) < s.len() ==> space_len(s, next_space(s, i)) > 0,
        i < s.len() && space_len(s, i) == 0 ==> next_space(s, i) > i,
    decreases s.len() - i,
{
    if i < s.len() && space_len(s, i) == 0 {
        lemma_next_space(s, i + 1);
    }
}

/// The whitespace-separated words of `s` from index `i` on, as `split_whitespace` gives them.
pub open spec fn words_from(s: Seq<u8>, i: int) -> Seq<Seq<u8>>
    decreases s.len() - i,
{
    if i < 0 || i >= s.len() {
        Seq::empty()
    } else {
        let a = next_nonspace(s, i);
        if a >= s.len() {
            Seq::empty()
        } else {
            let b = next_space(s, a);
            proof {
                lemma_next_nonspace(s, i);
                lemma_next_space(s, a);
            }
            if b <= i {
                Seq::empty()
            } else {
                seq![s.subrange(a, b)] + words_from(s, b)
            }
        }
    }
}

pub open spec fn words(s: Seq<u8>) -> Seq<Seq<u8>> {
    words_from(s, 0)
}

/// The views of a vector of byte strings.
pub open spec fn views(v: Seq<Vec<u8>>) -> Seq<Seq<u8>> {
    v.map_values(|x: Vec<u8>| x@)
}

/// A copy of `s[a..b]`.
pub fn copy_range(s: &[u8], a: usize, b: usize) -> (v: Vec<u8>)
    requires
        a <= b <= s@.len(),
    ensures
        v@ == s@.subrange(a as int, b as int),
{
    let mut v: Vec<u8> = Vec::new();
    v.extend_from_slice(&s[a..b]);
    assert(v@ =~= s@.subrange(a as int, b as int));
    v
}

/// The whitespace-separated words of `s`.
pub fn split_words(s: &[u8]) -> (r: Vec<Vec<u8>>)
    ensures
        views(r@) == words(s@),
{
    let mut out: Vec<Vec<u8>> = Vec::new();
    let mut i: usize = 0;
    while i < s.len()
        invariant
            i <= s@.len(),
            views(out@) + words_from(s@, i as int) == words(s@),
        decreases s@.len() - i,
    {
        let ghost i0 = i as int;
        proof {
            lemma_next_nonspace(s@, i0);
        }
        let mut a = i;
        while a < s.len() && space_len_at(s, a) > 0
            invariant
                i0 <= a <= s@.len(),
                next_nonspace(s@, i0) == next_nonspace(s@, a as int),
            decreases s@.len() - a,
        {
            a = a + space_len_at(s, a);
        }
        if a >= s.len() {
            assert(words_from(s@, i0) =~= Seq::<Seq<u8>>::empty());
            assert(views(out@) + words_from(s@, s@.len() as int) =~= words(s@));
            i = s.len();
        } else {
            proof {
                lemma_next_space(s@, a as int);
            }
            let mut b = a;
            while b < s.len() && space_len_at(s, b) == 0
                invariant
                    a <= b <= s@.len(),
                    next_space(s@, a as int) == next_space(s@, b as int),
                decreases s@.len() - b,
            {
                b = b + 1;
            }
            let w = copy_range(s, a, b);
            let ghost before = views(out@);
            out.push(w);
            proof {
                assert(views(out@) =~= before.push(s@.subrange(a as int, b as int)));
                assert(words_from(s@, i0) == seq![s@.subrange(a as int, b as int)] + words_from(
                    s@,
                    b as int,
                ));
                assert(views(out@) + words_from(s@, b as int) =~= before + words_from(s@, i0));
            }
            i = b;
        }
    }
    assert(words_from(s@, i as int) =~= Seq::<Seq<u8>>::empty());
    assert(views(out@) =~= words(s@));
    out
}

/// The first index `k >= i` holding `c`, or the length.
pub open spec fn next_byte(s: Seq<u8>, i: int, c: u8) -> int
    decreases s.len() - i,
{
    if i >= s.len() || i < 0 || s[i] == c {
        i
    } else {
        next_byte(s, i + 1, c)
    }
}

pub proof fn lemma_next_byte(s: Seq<u8>, i: int, c: u8)
    requires
        0 <= i <= s.len(),
    ensures
        i <= next_byte(s, i, c) <= s.len(),
        next_byte(s, i, c) < s.len() ==> s[next_byte(s, i, c)] == c,
        forall|k: int| i <= k < next_byte(s, i, c) ==> #[trigger] s[k] != c,
    decreases s.len() - i,
{
    if i < s.len() && s[i] != c {
        lemma_next_byte(s, i + 1, c);
    }
}

/// The first index at or after `i` that holds `c`, or the length.
pub fn find_byte(s: &[u8], i: usize, c: u8) -> (r: usize)
    requires
        i <= s@.len(),
    ensures
        r == next_byte(s@, i as int, c),
{
    let mut k = i;
    while k < s.len() && s[k] != c
        invariant
            i <= k <= s@.len(),
            next_byte(s@, i as int, c) == next_byte(s@, k as int, c),
        decreases s@.len() - k,
    {
        k = k + 1;
    }
    k
}

/// The last index holding `c`, if any.
pub open spec fn last_index(s: Seq<u8>, c: u8) -> Option<int> {
    if exists|k: int| 0 <= k < s.len() && s[k] == c {
        Some(choose|k: int| 0 <= k < s.len() && s[k] == c && forall|j: int| k < j < s.len() ==> s[j] != c)
    } else {
        None
    }
}

pub fn rfind_byte(s: &[u8], c: u8) -> (r: Option<usize>)
    ensures
        match r {
            Some(k) => k < s@.len() && s@[k as int] == c && forall|j: int| k < j < s@.len() ==> s@[j] != c,
            None => forall|j: int| 0 <= j < s@.len() ==> s@[j] != c,
        },
        r matches Some(k) ==> last_index(s@, c) == Some(k as int),
        r is None ==> last_index(s@, c) is None,
        s@.len() <= usize::MAX,
{
    let mut k = s.len();
    while k > 0
        invariant
            k <= s@.len(),
            forall|j: int| k <= j < s@.len() ==> s@[j] != c,
        decreases k,
    {
        if s[k - 1] == c {
            let r = k - 1;
            proof {
                let w = choose|w: int| 0 <= w < s@.len() && s@[w] == c && forall|j: int| w < j < s@.len() ==> s@[j] != c;
                assert(0 <= r < s@.len() && s@[r as int] == c && forall|j: int| r < j < s@.len() ==> s@[j] != c);
                if w < r {
                    assert(s@[r as int] != c);
                } else if w > r {
                    assert(s@[w] != c);
                }
            }
            return Some(r);
        }
        k = k - 1;
    }
    None
}

/// Splits at the first `c`: the bytes before it and after it.
pub open spec fn split_once(s: Seq<u8>, c: u8) -> Option<(Seq<u8>, Seq<u8>)> {
    let k = next_byte(s, 0, c);
    if k < s.len() {
        Some((s.take(k), s.skip(k + 1)))
    } else {
        None
    }
}

pub fn split_once_at(s: &[u8], c: u8) -> (r: Option<(&[u8], &[u8])>)
    ensures
        match split_once(s@, c) {
            Some((a, b)) => r matches Some((x, y)) && x@ == a && y@ == b,
            None => r is None,
        },
{
    let k = find_byte(s, 0, c);
    proof {
        lemma_next_byte(s@, 0, c);
    }
    if k < s.len() {
        let x = &s[0..k];
        let y = &s[k + 1..s.len()];
        assert(x@ =~= s@.take(k as int));
        assert(y@ =~= s@.skip(k + 1));
        Some((x, y))
    } else {
        None
    }
}

/// The end of `s[..j]` once trailing whitespace is dropped.
pub open spec fn trim_end(s: Seq<u8>, j: int) -> int
    decreases j,
{
    if j <= 0 || j > s.len() || space_len_before(s, j) == 0 {
        j
    } else {
        trim_end(s, j - space_len_before(s, j))
    }
}

/// `s` without leading and trailing whitespace, as `str::trim` gives it.
pub open spec fn trim(s: Seq<u8>) -> Seq<u8> {
    let a = next_nonspace(s, 0);
    if a >= s.len() {
        Seq::empty()
    } else {
        s.subrange(a, trim_end(s, s.len() as int))
    }
}

/// No whitespace character that starts before `a` reaches past it.
spec fn no_cross(s: Seq<u8>, a: int) -> bool {
    forall|q: int| 0 <= q < a && space_len(s, q) > 0 ==> q + space_len(s, q) <= a
}

/// Stepping over whitespace characters from the start keeps every earlier
/// character on its side: no byte inside a multi-byte whitespace character
/// starts another.
proof fn lemma_no_cross(s: Seq<u8>, i: int)
    requires
        0 <= i <= s.len(),
        no_cross(s, i),
    ensures
        no_cross(s, next_nonspace(s, i)),
    decreases s.len() - i,
{
    if i < s.len() && space_len(s, i) > 0 {
        let k = space_len(s, i);
        assert forall|q: int| 0 <= q < i + k && space_len(s, q) > 0 implies q + space_len(s, q) <= i + k by {
            if i < q {
                assert(space_len(s, q) == 0);
            }
        }
        lemma_no_cross(s, i + k);
    }
}

proof fn lemma_trim_end_le(s: Seq<u8>, j: int)
    ensures
        trim_end(s, j) <= j,
    decreases j,
{
    if j > 0 && j <= s.len() && space_len_before(s, j) > 0 {
        lemma_trim_end_le(s, j - space_len_before(s, j));
    }
}

proof fn lemma_trim_end(s: Seq<u8>, j: int, a: int)
    requires
        0 <= a < j <= s.len(),
        space_len(s, a) == 0,
        no_cross(s, a),
    ensures
        a < trim_end(s, j) <= j,
    decreases j,
{
    let k = space_len_before(s, j);
    if k > 0 {
        let q = j - k;
        assert(space_len(s, q) == k);
        if q < a {
            assert(q + space_len(s, q) <= a);
        }
        lemma_trim_end(s, q, a);
    }
}

pub fn trim_bytes(s: &[u8]) -> (r: &[u8])
    ensures
        r@ == trim(s@),
{
    proof {
        lemma_next_nonspace(s@, 0);
    }
    let mut a: usize = 0;
    while a < s.len() && space_len_at(s, a) > 0
        invariant
            a <= s@.len(),
            next_nonspace(s@, 0) == next_nonspace(s@, a as int),
        decreases s@.len() - a,
    {
        a = a + space_len_at(s, a);
    }
    if a >= s.len() {
        let r = &s[0..0];
        assert(r@ =~= trim(s@));
        return r;
    }
    proof {
        lemma_no_cross(s@, 0);
        lemma_trim_end(s@, s@.len() as int, a as int);
    }
    let mut b = s.len();
    while space_len_before_at(s, b) > 0
        invariant
            a < b <= s@.len(),
            trim_end(s@, s@.len() as int) == trim_end(s@, b as int),
            a < trim_end(s@, b as int),
        decreases b,
    {
        b = b - space_len_before_at(s, b);
        proof {
            lemma_trim_end_le(s@, b as int);
        }
    }
    let r = &s[a..b];
    assert(r@ =~= trim(s@));
    r
}

/// `s` with one trailing carriage return dropped.
pub open spec fn strip_cr(s: Seq<u8>) -> Seq<u8> {
    if s.len() > 0 && s.last() == 13 {
        s.drop_last()
    } else {
        s
    }
}

/// The lines of `s` from index `i` on, as `str::lines` gives them: split at
/// `\n`, a `\r` before the `\n` dropped, no empty line after a final `\n`.
pub open spec fn lines_from(s: Seq<u8>, i: int) -> Seq<Seq<u8>>
    decreases s.len() - i,
{
    if i < 0 || i >= s.len() {
        Seq::empty()
    } else {
        let j = next_byte(s, i, 10);
        proof {
            lemma_next_byte(s, i, 10);
        }
        if j >= s.len() {
            seq![s.subrange(i, s.len() as int)]
        } else {
            seq![strip_cr(s.subrange(i, j))] + lines_from(s, j + 1)
        }
    }
}

pub open spec fn lines(s: Seq<u8>) -> Seq<Seq<u8>> {
    lines_from(s, 0)
}

pub fn split_lines(s: &[u8]) -> (r: Vec<Vec<u8>>)
    ensures
        views(r@) == lines(s@),
{
    let mut out: Vec<Vec<u8>> = Vec::new();
    let mut i: usize = 0;
    while i < s.len()
        invariant
            i <= s@.len(),
            views(out@) + lines_from(s@, i as int) == lines(s@),
        decreases s@.len() - i,
    {
        let j = find_byte(s, i, 10);
        proof {
            lemma_next_byte(s@, i as int, 10);
        }
        let ghost before = views(out@);
        if j >= s.len() {
            out.push(copy_range(s, i, s.len()));
            proof {
                assert(views(out@) =~= before.push(s@.subrange(i as int, s@.len() as int)));
                assert(lines_from(s@, s@.len() as int) =~= Seq::<Seq<u8>>::empty());
                assert(views(out@) + lines_from(s@, s@.len() as int) =~= before + lines_from(s@, i as int));
            }
            i = s.len();
        } else {
            let end = if j > i && s[j - 1] == 13 { j - 1 } else { j };
            out.push(copy_range(s, i, end));
            proof {
                assert(strip_cr(s@.subrange(i as int, j as int)) =~= s@.subrange(i as int, end as int));
                assert(views(out@) =~= before.push(s@.subrange(i as int, end as int)));
                assert(views(out@) + lines_from(s@, j + 1) =~= before + lines_from(s@, i as int));
            }
            i = j + 1;
        }
    }
    assert(lines_from(s@, i as int) =~= Seq::<Seq<u8>>::empty());
    assert(views(out@) =~= lines(s@));
    out
}

/// Lines joined with `\n` between them.
pub open spec fn join_lines(ls: Seq<Seq<u8>>) -> Seq<u8>
    decreases ls.len(),
{
    if ls.len() == 0 {
        Seq::empty()
    } else if ls.len() == 1 {
        ls[0]
    } else {
        join_lines(ls.drop_last()) + seq![10u8] + ls.last()
    }
}

pub fn join_lines_exec(ls: &Vec<Vec<u8>>) -> (r: Vec<u8>)
    ensures
        r@ == join_lines(views(ls@)),
{
    let mut out: Vec<u8> = Vec::new();
    let mut i: usize = 0;
    while i < ls.len()
        invariant
            i <= ls@.len(),
            out@ == join_lines(views(ls@).take(i as int)),
        decreases ls@.len() - i,
    {
        let ghost before = out@;
        if i > 0 {
            out.push(10u8);
        }
        append_bytes(&mut out, ls[i].as_slice());
        proof {
            let t = views(ls@).take(i + 1);
            assert(t.drop_last() =~= views(ls@).take(i as int));
            assert(t.last() == ls@[i as int]@);
            if i == 0 {
                assert(out@ =~= join_lines(t));
            } else {
                assert(out@ =~= join_lines(t));
            }
        }
        i = i + 1;
    }
    assert(views(ls@).take(i as int) =~= views(ls@));
    out
}

/// `p` occurs in `s`.
pub open spec fn has_sub(s: Seq<u8>, p: Seq<u8>) -> bool {
    exists|i: int| 0 <= i && i + p.len() <= s.len() && #[trigger] s.subrange(i, i + p.len()) == p
}

pub fn contains_bytes(s: &[u8], p: &[u8]) -> (r: bool)
    ensures
        r == has_sub(s@, p@),
{
    if p.len() > s.len() {
        return false;
    }
    let mut i: usize = 0;
    let last = s.len() - p.len();
    while i <= last
        invariant
            p@.len() <= s@.len(),
            last == s@.len() - p@.len(),
            i <= last + 1,
            forall|k: int| 0 <= k < i ==> #[trigger] s@.subrange(k, k + p@.len()) != p@,
        decreases last + 1 - i,
    {
        let e = i + (s.len() - last);
        assert(e == i + p@.len());
        if bytes_eq(&s[i..e], p) {
            assert(s@.subrange(i as int, i + p@.len()) =~= s@.subrange(i as int, i + p@.len()));
            return true;
        }
        if i == last {
            return false;
        }
        i = i + 1;
    }
    false
}

pub open spec fn starts_with(s: Seq<u8>, p: Seq<u8>) -> bool {
    p.len() <= s.len() && s.take(p.len() as int) == p
}

pub fn starts_with_bytes(s: &[u8], p: &[u8]) -> (r: bool)
    ensures
        r == starts_with(s@, p@),
{
    if p.len() > s.len() {
        return false;
    }
    let r = bytes_eq(&s[0..p.len()], p);
    assert(s@.subrange(0, p@.len() as int) =~= s@.take(p@.len() as int));
    r
}

/// The decimal digits of `n`.
pub open spec fn dec(n: nat) -> Seq<u8>
    decreases n,
{
    if n < 10 {
        seq![(48 + n) as u8]
    } else {
        dec(n / 10).push((48 + n % 10) as u8)
    }
}

/// Appends the decimal digits of `n`.
pub fn push_decimal(out: &mut Vec<u8>, n: u64)
    ensures
        final(out)@ == old(out)@ + dec(n as nat),
    decreases n,
{
    if n >= 10 {
        push_decimal(out, n / 10);
    }
    out.push((48 + n % 10) as u8);
    assert(final(out)@ =~= old(out)@ + dec(n as nat));
}

/// At least `w` digits, zeros in front.
pub open spec fn pad_zero(d: Seq<u8>, w: nat) -> Seq<u8>
    decreases w,
{
    if d.len() >= w {
        d
    } else {
        seq![48u8] + pad_zero(d, (w - 1) as nat)
    }
}

/// The lowercase hexadecimal digit of `v` (below 16).
pub open spec fn hex_digit(v: nat) -> u8 {
    if v < 10 {
        (48 + v) as u8
    } else {
        (87 + v) as u8
    }
}

/// The lowercase hexadecimal digits of `n`.
pub open spec fn hex(n: nat) -> Seq<u8>
    decreases n,
{
    if n < 16 {
        seq![hex_digit(n)]
    } else {
        hex(n / 16).push(hex_digit(n % 16))
    }
}

pub fn push_hex(out: &mut Vec<u8>, n: u64)
    ensures
        final(out)@ == old(out)@ + hex(n as nat),
    decreases n,
{
    if n >= 16 {
        push_hex(out, n / 16);
    }
    let v = n % 16;
    if v < 10 {
        out.push((48 + v) as u8);
    } else {
        out.push((87 + v) as u8);
    }
    assert(final(out)@ =~= old(out)@ + hex(n as nat));
}

/// Appends `d` padded with zeros in front to at least `w` bytes.
pub fn push_padded(out: &mut Vec<u8>, d: &[u8], w: usize)
    ensures
        final(out)@ == old(out)@ + pad_zero(d@, w as nat),
    decreases w,
{
    if d.len() < w {
        out.push(48u8);
        push_padded(out, d, w - 1);
        assert(final(out)@ =~= old(out)@ + pad_zero(d@, w as nat));
    } else {
        append_bytes(out, d);
    }
}

pub open spec fn is_digit(b: u8) -> bool {
    48 <= b && b <= 57
}

/// The value of a string of decimal digits.
pub open spec fn digits_value(s: Seq<u8>) -> nat
    decreases s.len(),
{
    if s.len() == 0 {
        0
    } else {
        digits_value(s.drop_last()) * 10 + (s.last() - 48) as nat
    }
}

/// An unsigned number as `str::parse` reads it: an optional `+`, then one or more digits.
pub open spec fn parse_nat(s: Seq<u8>) -> Option<nat> {
    if all_digits(num_body(s)) {
        Some(digits_value(num_body(s)))
    } else {
        None
    }
}

/// A number's digits: `s` without a leading `+`.
pub open spec fn num_body(s: Seq<u8>) -> Seq<u8> {
    if s.len() > 0 && s[0] == 43 {
        s.drop_first()
    } else {
        s
    }
}

/// One or more decimal digits.
pub open spec fn all_digits(d: Seq<u8>) -> bool {
    d.len() > 0 && forall|i: int| 0 <= i < d.len() ==> is_digit(#[trigger] d[i])
}

/// `s` as a 64-bit unsigned number; `None` where it is no number or too large.
pub fn parse_u64(s: &[u8]) -> (r: Option<u64>)
    ensures
        match parse_nat(s@) {
            Some(v) => if v <= u64::MAX {
                r == Some(v as u64)
            } else {
                r is None
            },
            None => r is None,
        },
{
    let start: usize = if s.len() > 0 && s[0] == 43 { 1 } else { 0 };
    let ghost d = num_body(s@);
    assert(d =~= s@.skip(start as int));
    if start >= s.len() {
        return None;
    }
    let mut v: u64 = 0;
    let mut i = start;
    let mut overflow = false;
    while i < s.len()
        invariant
            start <= i <= s@.len(),
            d =~= s@.skip(start as int),
            d == num_body(s@),
            forall|k: int| start <= k < i ==> is_digit(#[trigger] s@[k]),
            !overflow ==> v as nat == digits_value(s@.subrange(start as int, i as int)),
            overflow ==> digits_value(s@.subrange(start as int, i as int)) > u64::MAX,
        decreases s@.len() - i,
    {
        let b = s[i];
        if !(48 <= b && b <= 57) {
            assert(!is_digit(d[i - start]));
            assert(!all_digits(d));
            return None;
        }
        let ghost sub = s@.subrange(start as int, i + 1);
        assert(sub.drop_last() =~= s@.subrange(start as int, i as int));
        assert(sub.last() == b);
        if !overflow {
            let m = v.checked_mul(10);
            match m {
                Some(m) => {
                    let a = m.checked_add((b - 48) as u64);
                    match a {
                        Some(a) => { v = a; },
                        None => { overflow = true; },
                    }
                },
                None => { overflow = true; },
            }
        } else {
            assert(digits_value(sub) >= digits_value(sub.drop_last())) by (nonlinear_arith)
                requires digits_value(sub) == digits_value(sub.drop_last()) * 10 + (sub.last() - 48) as nat;
        }
        i = i + 1;
    }
    assert(s@.subrange(start as int, i as int) =~= d);
    if overflow {
        None
    } else {
        Some(v)
    }
}

fn is_cont(b: u8) -> (r: bool)
    ensures
        r == vstd::utf8::is_continuation_byte(b),
{
    0x80 <= b && b <= 0xbf
}

/// The UTF-8 scalar that starts at `i`: its length and value, or length 0
/// where no well-formed one starts there.
pub fn scalar_at(s: &[u8], i: usize) -> (r: (usize, u32))
    requires
        i < s@.len(),
    ensures
        r.0 > 0 <==> vstd::utf8::valid_first_scalar(s@.skip(i as int)),
        r.0 > 0 ==> r.0 == vstd::utf8::length_of_first_scalar(s@.skip(i as int)) && r.1
            == vstd::utf8::decode_first_scalar(s@.skip(i as int)),
        r.0 > 0 ==> vstd::utf8::is_scalar(r.1),
        r.0 <= 4,
{
    let n = s.len();
    let b0 = s[i];
    let ghost t = s@.skip(i as int);
    proof {
        assert(t.len() == n - i);
        assert(t[0] == b0);
    }
    if b0 < 0x80 {
        return (1, (b0 & 0x7F) as u32);
    }
    let rem = n - i;
    let (cp, len): (u32, usize) = if 0xc0 <= b0 && b0 <= 0xdf && rem >= 2 && is_cont(s[i + 1]) {
        assert(t[1] == s@[i + 1]);
        let b1 = s[i + 1];
        let c = (((b0 & 0x1F) as u32) << 6) | ((b1 & 0x3f) as u32);
        assert(c <= 0x7FF) by (bit_vector)
            requires
                c == (((b0 & 0x1F) as u32) << 6) | ((b1 & 0x3f) as u32),
        ;
        (c, 2)
    } else if 0xe0 <= b0 && b0 <= 0xef && rem >= 3 && is_cont(s[i + 1]) && is_cont(s[i + 2]) {
        assert(t[1] == s@[i + 1] && t[2] == s@[i + 2]);
        let b1 = s[i + 1];
        let b2 = s[i + 2];
        let c = (((b0 & 0x0F) as u32) << 12) | (((b1 & 0x3f) as u32) << 6) | ((b2 & 0x3f) as u32);
        assert(c <= 0xFFFF) by (bit_vector)
            requires
                c == (((b0 & 0x0F) as u32) << 12) | (((b1 & 0x3f) as u32) << 6) | ((b2 & 0x3f) as u32),
        ;
        (c, 3)
    } else if 0xf0 <= b0 && b0 <= 0xf7 && rem >= 4 && is_cont(s[i + 1]) && is_cont(s[i + 2]) && is_cont(
        s[i + 3],
    ) {
        assert(t[1] == s@[i + 1] && t[2] == s@[i + 2] && t[3] == s@[i + 3]);
        (
            (((b0 & 0x07) as u32) << 18) | (((s[i + 1] & 0x3f) as u32) << 12) | (((s[i + 2] & 0x3f) as u32)
                << 6) | ((s[i + 3] & 0x3f) as u32),
            4,
        )
    } else {
        proof {
            if rem >= 2 {
                assert(t[1] == s@[i + 1]);
            }
            if rem >= 3 {
                assert(t[2] == s@[i + 2]);
            }
            if rem >= 4 {
                assert(t[3] == s@[i + 3]);
            }
        }
        return (0, 0);
    };
    proof {
        assert(cp == vstd::utf8::decode_first_codepoint(t));
        assert(len == vstd::utf8::length_of_first_codepoint(t));
    }
    let not_overlong = (len != 2 || 0x80 <= cp) && (len != 3 || 0x800 <= cp) && (len != 4 || (0x10000 <= cp
        && cp <= 0x10ffff));
    if !not_overlong || (0xD800 <= cp && cp <= 0xDFFF) {
        return (0, 0);
    }
    (len, cp)
}

/// Whether `bytes` are valid UTF-8: well-formed scalars, one after another.
pub fn utf8_valid(bytes: &[u8]) -> (r: bool)
    ensures
        r == vstd::utf8::valid_utf8(bytes@),
{
    let n = bytes.len();
    let mut i: usize = 0;
    proof {
        assert(bytes@.skip(0) =~= bytes@);
    }
    while i < n
        invariant
            i <= n,
            n == bytes@.len(),
            vstd::utf8::valid_utf8(bytes@) == vstd::utf8::valid_utf8(bytes@.skip(i as int)),
        decreases n - i,
    {
        let (l, _) = scalar_at(bytes, i);
        if l == 0 {
            return false;
        }
        proof {
            let t = bytes@.skip(i as int);
            assert(vstd::utf8::pop_first_scalar(t) =~= bytes@.skip(i + l));
        }
        i = i + l;
    }
    proof {
        assert(bytes@.skip(i as int).len() == 0);
    }
    true
}

/// A copy of a byte string.
pub fn copy_bytes(s: &[u8]) -> (v: Vec<u8>)
    ensures
        v@ == s@,
{
    let mut v: Vec<u8> = Vec::new();
    v.extend_from_slice(s);
    v
}


/// The start of the last occurrence of `p` in `s`, if any.
pub open spec fn last_sub(s: Seq<u8>, p: Seq<u8>) -> Option<int> {
    if exists|k: int| 0 <= k && k + p.len() <= s.len() && #[trigger] s.subrange(k, k + p.len()) == p {
        Some(
            choose|k: int|
                0 <= k && k + p.len() <= s.len() && #[trigger] s.subrange(k, k + p.len()) == p
                    && forall|j: int| k < j && j + p.len() <= s.len() ==> #[trigger] s.subrange(j, j + p.len()) != p,
        )
    } else {
        None
    }
}

pub fn rfind_sub(s: &[u8], p: &[u8]) -> (r: Option<usize>)
    requires
        p@.len() > 0,
    ensures
        r matches Some(k) ==> last_sub(s@, p@) == Some(k as int) && k + p@.len() <= s@.len(),
        s@.len() <= usize::MAX,
        r is None ==> last_sub(s@, p@) is None,
{
    if p.len() > s.len() {
        return None;
    }
    let pl = p.len();
    let sl = s.len();
    let mut k = s.len() - pl + 1;
    while k > 0
        invariant
            pl == p@.len(),
            sl == s@.len(),
            pl <= s@.len(),
            k <= s@.len() - pl + 1,
            forall|j: int| k <= j && j + pl <= s@.len() ==> #[trigger] s@.subrange(j, j + pl) != p@,
        decreases k,
    {
        let i = k - 1;
        let e = i + pl;
        if bytes_eq(&s[i..e], p) {
            proof {
                assert(s@.subrange(i as int, i + pl) =~= s@.subrange(i as int, i + pl));
                let w = choose|w: int|
                    0 <= w && w + pl <= s@.len() && #[trigger] s@.subrange(w, w + pl) == p@
                        && forall|j: int| w < j && j + pl <= s@.len() ==> #[trigger] s@.subrange(j, j + pl) != p@;
                if w < i {
                    assert(s@.subrange(i as int, i + pl) != p@);
                } else if w > i {
                    assert(s@.subrange(w, w + pl) != p@);
                }
            }
            return Some(i);
        }
        k = k - 1;
    }
    None
}

/// `c` occurs in `s`.
pub open spec fn has_byte(s: Seq<u8>, c: u8) -> bool {
    exists|k: int| 0 <= k < s.len() && s[k] == c
}

pub fn contains_byte(s: &[u8], c: u8) -> (r: bool)
    ensures
        r == has_byte(s@, c),
{
    let k = find_byte(s, 0, c);
    proof {
        lemma_next_byte(s@, 0, c);
    }
    k < s.len()
}


/// Appends the bytes of a string.
pub fn push_str(out: &mut Vec<u8>, s: &str)
    ensures
        final(out)@ == old(out)@ + s.spec_bytes(),
{
    append_bytes(out, s.as_bytes());
}

/// The first whitespace-separated word, if any.
pub open spec fn first_word(s: Seq<u8>) -> Option<Seq<u8>> {
    if words(s).len() > 0 {
        Some(words(s)[0])
    } else {
        None
    }
}

pub fn first_word_of(s: &[u8]) -> (r: Option<Vec<u8>>)
    ensures
        match first_word(s@) {
            Some(w) => r matches Some(v) && v@ == w,
            None => r is None,
        },
{
    let mut ws = split_words(s);
    if ws.len() == 0 {
        None
    } else {
        assert(views(ws@)[0] == ws@[0]@);
        Some(ws.swap_remove(0))
    }
}


/// Appends the UTF-8 encoding of `c`.
pub fn push_char(out: &mut Vec<u8>, c: char)
    ensures
        final(out)@ == old(out)@ + vstd::utf8::encode_utf8(seq![c]),
{
    let v = c as u32;
    proof {
        vstd::utf8::char_is_scalar(c);
        assert(seq![c].drop_first() =~= Seq::<char>::empty());
        assert(vstd::utf8::encode_utf8(Seq::<char>::empty()) =~= Seq::<u8>::empty());
        assert(vstd::utf8::encode_utf8(seq![c]) =~= vstd::utf8::encode_scalar(v));
    }
    if v <= 0x7F {
        out.push((v & 0x7F) as u8);
    } else if v <= 0x7FF {
        out.push(0xC0 | ((v >> 6) & 0x1F) as u8);
        out.push(0x80 | (v & 0x3F) as u8);
    } else if v <= 0xFFFF {
        out.push(0xE0 | ((v >> 12) & 0x0F) as u8);
        out.push(0x80 | ((v >> 6) & 0x3F) as u8);
        out.push(0x80 | (v & 0x3F) as u8);
    } else {
        out.push(0xF0 | ((v >> 18) & 0x7) as u8);
        out.push(0x80 | ((v >> 12) & 0x3F) as u8);
        out.push(0x80 | ((v >> 6) & 0x3F) as u8);
        out.push(0x80 | (v & 0x3F) as u8);
    }
    assert(final(out)@ =~= old(out)@ + vstd::utf8::encode_utf8(seq![c]));
}

/// A byte that continues a UTF-8 sequence.
pub open spec fn is_continuation(b: u8) -> bool {
    0x80 <= b && b < 0xC0
}

/// Where the last character of `b` starts, looking back from `k`: the last byte
/// before `k` that continues no sequence, or 0.
pub open spec fn last_char_start(b: Seq<u8>, k: int) -> int
    decreases k,
{
    if k <= 0 {
        0
    } else if is_continuation(b[k - 1]) {
        last_char_start(b, k - 1)
    } else {
        k - 1
    }
}

/// `b` without its last character, as `String::pop` leaves it.
pub open spec fn drop_last_char(b: Seq<u8>) -> Seq<u8> {
    b.take(last_char_start(b, b.len() as int))
}

pub fn pop_char(out: &mut Vec<u8>)
    ensures
        final(out)@ == drop_last_char(old(out)@),
{
    let ghost b = out@;
    let mut k = out.len();
    while k > 0 && 0x80 <= out[k - 1] && out[k - 1] < 0xC0
        invariant
            k <= b.len(),
            out@ == b,
            last_char_start(b, k as int) == last_char_start(b, b.len() as int),
        decreases k,
    {
        k = k - 1;
    }
    let start = if k > 0 { k - 1 } else { 0 };
    out.truncate(start);
    assert(out@ =~= b.take(start as int));
}

} // verus!
