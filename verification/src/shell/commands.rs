use vstd::prelude::*;
use vstd::string::StringSliceAdditionalSpecFns;
use crate::text::{scalar_at, hex, pad_zero, push_hex, push_padded, lines, split_lines, join_lines, join_lines_exec, views, words, split_words, has_sub, contains_bytes, parse_nat, parse_u64, trim, trim_bytes, append_bytes, bytes_eq, bytes_lt, copy_bytes, dec, find_byte, first_word, first_word_of, lemma_lex_irreflexive, lemma_lex_total, lemma_lex_transitive, lemma_next_byte, lex_lt, next_byte, push_decimal, push_str, split_once, split_once_at, utf8_valid};
use crate::fs::{FileSystem, FsView, RemoveResult, DirEntry, is_dir_in, is_file_in, listing_of, node_size};
use crate::fs::ramfs::{RamFs, Node, path_view};
use crate::shell::system::{pad_right, push_spaces};
use crate::drivers::keyboard::{LayoutId, layout_name, layout_name_spec, layout_for_name, layout_from_name};

verus! {

/// One environment variable.
pub struct EnvVar {
    pub key: Vec<u8>,
    pub value: Vec<u8>,
}

/// The environment: variables in strictly increasing key order.
pub struct EnvVars {
    vars: Vec<EnvVar>,
}

pub open spec fn keys_sorted(s: Seq<EnvVar>) -> bool {
    forall|i: int, j: int| 0 <= i < j < s.len() ==> lex_lt(#[trigger] s[i].key@, #[trigger] s[j].key@)
}

/// The variables as a map from names to values.
pub open spec fn env_map(s: Seq<EnvVar>) -> Map<Seq<u8>, Seq<u8>> {
    Map::new(
        |k: Seq<u8>| exists|i: int| 0 <= i < s.len() && #[trigger] s[i].key@ == k,
        |k: Seq<u8>| s[choose|i: int| 0 <= i < s.len() && #[trigger] s[i].key@ == k].value@,
    )
}

proof fn lemma_env_at(s: Seq<EnvVar>, k: int)
    requires
        keys_sorted(s),
        0 <= k < s.len(),
    ensures
        env_map(s).contains_key(s[k].key@),
        env_map(s)[s[k].key@] == s[k].value@,
{
    let n = s[k].key@;
    assert(s[k].key@ == n);
    let i = choose|i: int| 0 <= i < s.len() && #[trigger] s[i].key@ == n;
    lemma_lex_irreflexive(n);
    if i < k {
        assert(lex_lt(s[i].key@, s[k].key@));
    } else if i > k {
        assert(lex_lt(s[k].key@, s[i].key@));
    }
}

/// The shell's start-up environment.
pub open spec fn initial_env() -> Map<Seq<u8>, Seq<u8>> {
    Map::<Seq<u8>, Seq<u8>>::empty().insert("PATH".spec_bytes(), "/".spec_bytes()).insert(
        "HOME".spec_bytes(),
        "/".spec_bytes(),
    ).insert("SHELL".spec_bytes(), "polarsh".spec_bytes()).insert("OS".spec_bytes(), "PolarOs".spec_bytes())
}

impl EnvVars {
    pub closed spec fn vars_spec(&self) -> Seq<EnvVar> {
        self.vars@
    }

    pub open spec fn wf(&self) -> bool {
        keys_sorted(self.vars_spec())
    }

    pub open spec fn map(&self) -> Map<Seq<u8>, Seq<u8>> {
        env_map(self.vars_spec())
    }

    /// The shell's start-up environment.
    pub fn new() -> (e: EnvVars)
        ensures
            e.wf(),
            e.map() == initial_env(),
    {
        let mut e = EnvVars { vars: Vec::new() };
        e.insert("PATH".as_bytes(), "/".as_bytes());
        e.insert("HOME".as_bytes(), "/".as_bytes());
        e.insert("SHELL".as_bytes(), "polarsh".as_bytes());
        e.insert("OS".as_bytes(), "PolarOs".as_bytes());
        proof {
            assert(env_map(Seq::<EnvVar>::empty()) =~= Map::<Seq<u8>, Seq<u8>>::empty());
        }
        e
    }

    /// The value of a variable.
    pub fn get(&self, key: &[u8]) -> (r: Option<&[u8]>)
        requires
            self.wf(),
        ensures
            match r {
                Some(v) => self.map().contains_key(key@) && self.map()[key@] == v@,
                None => !self.map().contains_key(key@),
            },
    {
        let mut i: usize = 0;
        while i < self.vars.len()
            invariant
                i <= self.vars@.len(),
                keys_sorted(self.vars@),
                forall|j: int| 0 <= j < i ==> (#[trigger] self.vars@[j]).key@ != key@,
            decreases self.vars@.len() - i,
        {
            if bytes_eq(self.vars[i].key.as_slice(), key) {
                proof {
                    lemma_env_at(self.vars@, i as int);
                }
                return Some(self.vars[i].value.as_slice());
            }
            i = i + 1;
        }
        None
    }

    /// Sets a variable, replacing its value if it is set.
    pub fn insert(&mut self, key: &[u8], value: &[u8])
        requires
            old(self).wf(),
        ensures
            final(self).wf(),
            final(self).map() == old(self).map().insert(key@, value@),
    {
        let ghost s0 = self.vars@;
        let mut k: usize = 0;
        while k < self.vars.len() && bytes_lt(self.vars[k].key.as_slice(), key)
            invariant
                k <= s0.len(),
                self.vars@ == s0,
                keys_sorted(s0),
                forall|i: int| 0 <= i < k ==> lex_lt(#[trigger] s0[i].key@, key@),
            decreases s0.len() - k,
        {
            k = k + 1;
        }
        let item = EnvVar { key: copy_bytes(key), value: copy_bytes(value) };
        let ghost gi = item;
        let found = k < self.vars.len() && bytes_eq(self.vars[k].key.as_slice(), key);
        if found {
            let _old = self.vars.remove(k);
        }
        self.vars.insert(k, item);
        proof {
            let s = self.vars@;
            if found {
                assert(s =~= s0.update(k as int, gi));
            } else {
                assert(s =~= s0.insert(k as int, gi));
                if k < s0.len() {
                    lemma_lex_total(s0[k as int].key@, key@);
                }
            }
            assert forall|i: int, j: int| 0 <= i < j < s.len() implies lex_lt(#[trigger] s[i].key@, #[trigger] s[j].key@) by {
                if found {
                    if i == k {
                        assert(s0[i].key@ == key@);
                    }
                    if j == k {
                        assert(s0[j].key@ == key@);
                    }
                } else {
                    if j == k {
                    } else if i == k {
                        assert(s[j] == s0[j - 1]);
                        if j - 1 > k {
                            lemma_lex_transitive(key@, s0[k as int].key@, s0[j - 1].key@);
                        }
                    } else if i < k && j > k {
                        assert(s[j] == s0[j - 1]);
                        if k < s0.len() {
                            lemma_lex_transitive(s0[i].key@, key@, s0[k as int].key@);
                            if j - 1 > k {
                                lemma_lex_transitive(s0[i].key@, s0[k as int].key@, s0[j - 1].key@);
                            }
                        }
                    } else if i > k {
                        assert(s[i] == s0[i - 1] && s[j] == s0[j - 1]);
                    }
                }
            }
            let m = env_map(s0).insert(key@, value@);
            assert forall|n: Seq<u8>| #[trigger] env_map(s).contains_key(n) == m.contains_key(n)
                && (m.contains_key(n) ==> env_map(s)[n] == m[n]) by {
                if n == key@ {
                    lemma_env_at(s, k as int);
                } else {
                    if env_map(s0).contains_key(n) {
                        let i = choose|i: int| 0 <= i < s0.len() && #[trigger] s0[i].key@ == n;
                        lemma_env_at(s0, i);
                        let i2 = if found || i < k { i } else { i + 1 };
                        assert(s[i2] == s0[i]);
                        lemma_env_at(s, i2);
                    }
                    if env_map(s).contains_key(n) {
                        let i = choose|i: int| 0 <= i < s.len() && #[trigger] s[i].key@ == n;
                        assert(i != k);
                        let i0 = if found || i < k { i } else { i - 1 };
                        assert(s[i] == s0[i0]);
                    }
                }
            }
            assert(env_map(s) =~= m);
        }
    }

    /// The variables in key order.
    pub fn vars(&self) -> (r: &[EnvVar])
        ensures
            r@ == self.vars_spec(),
    {
        self.vars.as_slice()
    }
}


/// A byte of an unbraced variable name: an ASCII letter or digit, or `_`.
pub open spec fn is_var_byte(b: u8) -> bool {
    (48 <= b && b <= 57) || (65 <= b && b <= 90) || (97 <= b && b <= 122) || b == 95
}

/// What `char::is_alphanumeric` answers for a character: whether it has the
/// Unicode Alphabetic or Numeric property.
pub uninterp spec fn alphanumeric(c: char) -> bool;

/// `char::is_alphanumeric`.
#[verifier::external_body]
fn char_is_alphanumeric(c: char) -> (r: bool)
    ensures
        r == alphanumeric(c),
{
    c.is_alphanumeric()
}

/// `char::from_u32`: the character with that code, where the code is a
/// Unicode scalar value (at most 0x10FFFF, not a surrogate).
#[verifier::external_body]
fn char_from_u32(cp: u32) -> (r: Option<char>)
    ensures
        r == if vstd::utf8::is_scalar(cp) { Some(cp as char) } else { None },
{
    char::from_u32(cp)
}

/// The length of the character at `i` where it continues an unbraced
/// variable name, or 0: an ASCII letter, digit or `_`, or a longer UTF-8
/// character that `char::is_alphanumeric` accepts.
pub open spec fn var_char_len(s: Seq<u8>, i: int) -> int {
    if i < 0 || i >= s.len() {
        0
    } else if s[i] < 0x80 {
        if is_var_byte(s[i]) { 1 } else { 0 }
    } else if vstd::utf8::valid_first_scalar(s.skip(i)) && alphanumeric(
        vstd::utf8::decode_first_scalar(s.skip(i)) as char,
    ) {
        vstd::utf8::length_of_first_scalar(s.skip(i))
    } else {
        0
    }
}

pub proof fn lemma_var_char_len(s: Seq<u8>, i: int)
    ensures
        0 <= var_char_len(s, i) <= 4,
        var_char_len(s, i) > 0 ==> i + var_char_len(s, i) <= s.len(),
{
    if 0 <= i < s.len() && s[i] >= 0x80 {
        let t = s.skip(i);
        assert(t.len() == s.len() - i);
    }
}

pub open spec fn next_nonvar(s: Seq<u8>, i: int) -> int
    decreases s.len() - i,
{
    if i >= s.len() || i < 0 || var_char_len(s, i) == 0 {
        i
    } else {
        proof {
            lemma_var_char_len(s, i);
        }
        next_nonvar(s, i + var_char_len(s, i))
    }
}

pub proof fn lemma_next_nonvar(s: Seq<u8>, i: int)
    requires
        0 <= i <= s.len(),
    ensures
        i <= next_nonvar(s, i) <= s.len(),
    decreases s.len() - i,
{
    if i < s.len() && var_char_len(s, i) != 0 {
        lemma_var_char_len(s, i);
        lemma_next_nonvar(s, i + var_char_len(s, i));
    }
}

/// `var_char_len` at `i`.
fn var_len_at(s: &[u8], i: usize) -> (k: usize)
    requires
        i < s@.len(),
    ensures
        k == var_char_len(s@, i as int),
{
    let b0 = s[i];
    if b0 < 0x80 {
        return if is_var_char(b0) { 1 } else { 0 };
    }
    let (len, cp) = scalar_at(s, i);
    if len == 0 {
        return 0;
    }
    match char_from_u32(cp) {
        Some(c) => if char_is_alphanumeric(c) { len } else { 0 },
        None => 0,
    }
}

/// `s` from index `i` on with each `$NAME` or `${NAME}` replaced by the
/// variable's value, or by nothing where it is not set. An unclosed `${`
/// takes the rest of the line as the name.
pub open spec fn expand_from(s: Seq<u8>, i: int, m: Map<Seq<u8>, Seq<u8>>) -> Seq<u8>
    decreases s.len() - i,
{
    if i < 0 || i >= s.len() {
        Seq::empty()
    } else if s[i] != 36 {
        seq![s[i]] + expand_from(s, i + 1, m)
    } else {
        let braced = i + 1 < s.len() && s[i + 1] == 123;
        let start = if braced {
            i + 2
        } else {
            i + 1
        };
        let end = if braced {
            next_byte(s, start, 125)
        } else {
            next_nonvar(s, start)
        };
        proof {
            lemma_next_byte(s, start, 125);
            lemma_next_nonvar(s, start);
        }
        let name = s.subrange(start, end);
        let resume = if braced && end < s.len() {
            end + 1
        } else {
            end
        };
        (if m.contains_key(name) {
            m[name]
        } else {
            Seq::empty()
        }) + expand_from(s, resume, m)
    }
}

fn is_var_char(b: u8) -> (r: bool)
    ensures
        r == is_var_byte(b),
{
    (48 <= b && b <= 57) || (65 <= b && b <= 90) || (97 <= b && b <= 122) || b == 95
}

/// Expands `$VAR` and `${VAR}` from the environment.
pub fn expand_env_vars(input: &[u8], env: &EnvVars) -> (r: Vec<u8>)
    requires
        env.wf(),
    ensures
        r@ == expand_from(input@, 0, env.map()),
{
    let mut out: Vec<u8> = Vec::new();
    let n = input.len();
    let mut i: usize = 0;
    while i < n
        invariant
            i <= n,
            n == input@.len(),
            env.wf(),
            out@ + expand_from(input@, i as int, env.map()) == expand_from(input@, 0, env.map()),
        decreases n - i,
    {
        let ghost i0 = i as int;
        let ch = input[i];
        i = i + 1;
        if ch == 36 {
            let braced = i < n && input[i] == 123;
            if braced {
                i = i + 1;
            }
            let start = i;
            let end = if braced { find_byte(input, start, 125) } else {
                let mut e = start;
                while e < n && var_len_at(input, e) > 0
                    invariant
                        start <= e <= n,
                        n == input@.len(),
                        next_nonvar(input@, start as int) == next_nonvar(input@, e as int),
                    decreases n - e,
                {
                    proof {
                        lemma_var_char_len(input@, e as int);
                    }
                    e = e + var_len_at(input, e);
                }
                e
            };
            proof {
                lemma_next_byte(input@, start as int, 125);
                lemma_next_nonvar(input@, start as int);
            }
            let name = &input[start..end];
            let ghost before = out@;
            match env.get(name) {
                Some(v) => append_bytes(&mut out, v),
                None => {},
            }
            i = if braced && end < n { end + 1 } else { end };
            proof {
                assert(name@ =~= input@.subrange(start as int, end as int));
                assert(out@ + expand_from(input@, i as int, env.map()) =~= before + expand_from(input@, i0, env.map()));
            }
        } else {
            let ghost before = out@;
            out.push(ch);
            proof {
                assert(out@ + expand_from(input@, i as int, env.map()) =~= before + expand_from(input@, i0, env.map()));
            }
        }
    }
    assert(expand_from(input@, i as int, env.map()) =~= Seq::<u8>::empty());
    assert(out@ =~= expand_from(input@, 0, env.map()));
    out
}


/// `prefix`, then `name`, then `suffix`.
pub open spec fn msg(prefix: &str, name: Seq<u8>, suffix: &str) -> Seq<u8> {
    prefix.spec_bytes() + name + suffix.spec_bytes()
}

pub fn push_msg(prefix: &str, name: &[u8], suffix: &str) -> (r: Vec<u8>)
    ensures
        r@ == msg(prefix, name@, suffix),
{
    let mut out: Vec<u8> = Vec::new();
    push_str(&mut out, prefix);
    append_bytes(&mut out, name);
    push_str(&mut out, suffix);
    out
}

fn lit(s: &str) -> (r: Vec<u8>)
    ensures
        r@ == s.spec_bytes(),
{
    let mut out: Vec<u8> = Vec::new();
    push_str(&mut out, s);
    out
}

/// A file's contents as text: its bytes where they are UTF-8, else nothing.
pub open spec fn text_of(data: Seq<u8>) -> Seq<u8> {
    if vstd::utf8::valid_utf8(data) {
        data
    } else {
        Seq::empty()
    }
}

/// The path of the working directory, as names.
pub open spec fn cwd_path(cwd: Seq<Vec<u8>>) -> Seq<Seq<u8>> {
    path_view(cwd)
}

pub fn cmd_echo(args: &[u8]) -> (r: Vec<u8>)
    ensures
        r@ == args@,
{
    copy_bytes(args)
}

pub open spec fn cat_spec(args: Seq<u8>, cwd: Seq<Seq<u8>>, v: FsView) -> Seq<u8> {
    match first_word(args) {
        None => "Uzycie: cat <nazwa_pliku>".spec_bytes(),
        Some(n) => if is_file_in(v, cwd.push(n)) {
            let data = v[cwd.push(n)]->File_0;
            if vstd::utf8::valid_utf8(data) {
                data
            } else {
                "<dane binarne>".spec_bytes()
            }
        } else {
            msg("Plik '", n, "' nie istnieje.")
        },
    }
}

pub fn cmd_cat(args: &[u8], cwd: &Vec<Vec<u8>>, fs: &RamFs) -> (r: Vec<u8>)
    requires
        fs.fs_wf(),
    ensures
        r@ == cat_spec(args@, path_view(cwd@), fs.fs_view()),
{
    let name = match first_word_of(args) {
        Some(n) => n,
        None => return lit("Uzycie: cat <nazwa_pliku>"),
    };
    match fs.read(cwd.as_slice(), name.as_slice()) {
        Some(data) => {
            if utf8_valid(data) {
                copy_bytes(data)
            } else {
                lit("<dane binarne>")
            }
        },
        None => push_msg("Plik '", name.as_slice(), "' nie istnieje."),
    }
}

pub open spec fn touch_spec(args: Seq<u8>, cwd: Seq<Seq<u8>>, v: FsView) -> (Seq<u8>, FsView) {
    match first_word(args) {
        None => ("Uzycie: touch <nazwa_pliku>".spec_bytes(), v),
        Some(n) => if is_dir_in(v, cwd) && !v.contains_key(cwd.push(n)) {
            (msg("Utworzono plik '", n, "'."), v.insert(cwd.push(n), Node::File(Seq::empty())))
        } else {
            (msg("'", n, "' juz istnieje."), v)
        },
    }
}

pub fn cmd_touch(args: &[u8], cwd: &Vec<Vec<u8>>, fs: &mut RamFs) -> (r: Vec<u8>)
    requires
        old(fs).fs_wf(),
    ensures
        final(fs).fs_wf(),
        (r@, final(fs).fs_view()) == touch_spec(args@, path_view(cwd@), old(fs).fs_view()),
{
    let name = match first_word_of(args) {
        Some(n) => n,
        None => return lit("Uzycie: touch <nazwa_pliku>"),
    };
    if fs.create(cwd.as_slice(), name.as_slice()) {
        push_msg("Utworzono plik '", name.as_slice(), "'.")
    } else {
        push_msg("'", name.as_slice(), "' juz istnieje.")
    }
}

pub open spec fn write_ok(v: FsView, cwd: Seq<Seq<u8>>, n: Seq<u8>) -> bool {
    is_dir_in(v, cwd) && !is_dir_in(v, cwd.push(n))
}

pub open spec fn write_spec(args: Seq<u8>, cwd: Seq<Seq<u8>>, v: FsView) -> (Seq<u8>, FsView) {
    match split_once(args, 32) {
        None => ("Uzycie: write <nazwa_pliku> <tekst>".spec_bytes(), v),
        Some((n, content)) => if n.len() == 0 {
            ("Uzycie: write <nazwa_pliku> <tekst>".spec_bytes(), v)
        } else if write_ok(v, cwd, n) {
            (
                "Zapisano ".spec_bytes() + dec(content.len()) + msg(" bajtow do '", n, "'."),
                v.insert(cwd.push(n), Node::File(content)),
            )
        } else {
            (msg("Nie mozna zapisac do '", n, "'."), v)
        },
    }
}

pub fn cmd_write(args: &[u8], cwd: &Vec<Vec<u8>>, fs: &mut RamFs) -> (r: Vec<u8>)
    requires
        old(fs).fs_wf(),
    ensures
        final(fs).fs_wf(),
        (r@, final(fs).fs_view()) == write_spec(args@, path_view(cwd@), old(fs).fs_view()),
{
    let (name, content) = match split_once_at(args, 32) {
        Some(p) => p,
        None => return lit("Uzycie: write <nazwa_pliku> <tekst>"),
    };
    if name.len() == 0 {
        return lit("Uzycie: write <nazwa_pliku> <tekst>");
    }
    if fs.write(cwd.as_slice(), name, content) {
        let mut out = lit("Zapisano ");
        push_decimal(&mut out, content.len() as u64);
        push_str(&mut out, " bajtow do '");
        append_bytes(&mut out, name);
        push_str(&mut out, "'.");
        assert(out@ =~= "Zapisano ".spec_bytes() + dec(content@.len()) + msg(" bajtow do '", name@, "'."));
        out
    } else {
        push_msg("Nie mozna zapisac do '", name, "'.")
    }
}

pub open spec fn rm_spec(args: Seq<u8>, cwd: Seq<Seq<u8>>, v: FsView) -> (Seq<u8>, FsView) {
    match first_word(args) {
        None => ("Uzycie: rm <nazwa>".spec_bytes(), v),
        Some(n) => if !v.contains_key(cwd.push(n)) {
            (msg("'", n, "' nie istnieje."), v)
        } else if is_dir_in(v, cwd.push(n)) && crate::fs::has_children_in(v, cwd.push(n)) {
            (msg("Katalog '", n, "' nie jest pusty."), v)
        } else {
            (msg("Usunieto '", n, "'."), v.remove(cwd.push(n)))
        },
    }
}

pub fn cmd_rm(args: &[u8], cwd: &Vec<Vec<u8>>, fs: &mut RamFs) -> (r: Vec<u8>)
    requires
        old(fs).fs_wf(),
    ensures
        final(fs).fs_wf(),
        (r@, final(fs).fs_view()) == rm_spec(args@, path_view(cwd@), old(fs).fs_view()),
{
    let name = match first_word_of(args) {
        Some(n) => n,
        None => return lit("Uzycie: rm <nazwa>"),
    };
    match fs.remove(cwd.as_slice(), name.as_slice()) {
        RemoveResult::Removed => push_msg("Usunieto '", name.as_slice(), "'."),
        RemoveResult::NotFound => push_msg("'", name.as_slice(), "' nie istnieje."),
        RemoveResult::DirNotEmpty => push_msg("Katalog '", name.as_slice(), "' nie jest pusty."),
    }
}

pub open spec fn mkdir_spec(args: Seq<u8>, cwd: Seq<Seq<u8>>, v: FsView) -> (Seq<u8>, FsView) {
    match first_word(args) {
        None => ("Uzycie: mkdir <nazwa>".spec_bytes(), v),
        Some(n) => if is_dir_in(v, cwd) && !v.contains_key(cwd.push(n)) {
            (msg("Utworzono katalog '", n, "'."), v.insert(cwd.push(n), Node::Dir))
        } else {
            (msg("'", n, "' juz istnieje."), v)
        },
    }
}

pub fn cmd_mkdir(args: &[u8], cwd: &Vec<Vec<u8>>, fs: &mut RamFs) -> (r: Vec<u8>)
    requires
        old(fs).fs_wf(),
    ensures
        final(fs).fs_wf(),
        (r@, final(fs).fs_view()) == mkdir_spec(args@, path_view(cwd@), old(fs).fs_view()),
{
    let name = match first_word_of(args) {
        Some(n) => n,
        None => return lit("Uzycie: mkdir <nazwa>"),
    };
    if fs.mkdir(cwd.as_slice(), name.as_slice()) {
        push_msg("Utworzono katalog '", name.as_slice(), "'.")
    } else {
        push_msg("'", name.as_slice(), "' juz istnieje.")
    }
}

/// The working directory after `cd`: no argument or `/` goes to the root,
/// `..` one level up, `.` nowhere, and a name into that directory where it is one.
pub open spec fn cd_spec(args: Seq<u8>, cwd: Seq<Seq<u8>>, v: FsView) -> Seq<Seq<u8>> {
    match first_word(args) {
        None => Seq::empty(),
        Some(t) => if t == "/".spec_bytes() {
            Seq::empty()
        } else if t == "..".spec_bytes() {
            if cwd.len() > 0 { cwd.drop_last() } else { cwd }
        } else if t == ".".spec_bytes() {
            cwd
        } else if is_dir_in(v, cwd.push(t)) {
            cwd.push(t)
        } else {
            cwd
        },
    }
}

pub fn cmd_cd(args: &[u8], cwd: &mut Vec<Vec<u8>>, fs: &RamFs)
    requires
        fs.fs_wf(),
    ensures
        path_view(final(cwd)@) == cd_spec(args@, path_view(old(cwd)@), fs.fs_view()),
{
    let ghost c0 = path_view(cwd@);
    let target = match first_word_of(args) {
        Some(t) => t,
        None => {
            cwd.clear();
            assert(path_view(cwd@) =~= Seq::<Seq<u8>>::empty());
            return;
        },
    };
    if bytes_eq(target.as_slice(), "/".as_bytes()) {
        cwd.clear();
        assert(path_view(cwd@) =~= Seq::<Seq<u8>>::empty());
    } else if bytes_eq(target.as_slice(), "..".as_bytes()) {
        if cwd.len() > 0 {
            let _ = cwd.pop();
            assert(path_view(cwd@) =~= c0.drop_last());
        }
    } else if bytes_eq(target.as_slice(), ".".as_bytes()) {
    } else {
        if !fs.entry_exists(cwd.as_slice(), target.as_slice()) {
            return;
        }
        if fs.is_dir(cwd.as_slice(), target.as_slice()) {
            let ghost tv = target@;
            cwd.push(target);
            assert(path_view(cwd@) =~= c0.push(tv));
        }
    }
}

/// The working directory as `/a/b`, or `/` at the root.
pub open spec fn pwd_text(cwd: Seq<Seq<u8>>) -> Seq<u8>
    decreases cwd.len(),
{
    if cwd.len() == 0 {
        seq![47u8]
    } else if cwd.len() == 1 {
        seq![47u8] + cwd[0]
    } else {
        pwd_text(cwd.drop_last()) + seq![47u8] + cwd.last()
    }
}

pub fn cmd_pwd(cwd: &Vec<Vec<u8>>) -> (r: Vec<u8>)
    ensures
        r@ == pwd_text(path_view(cwd@)),
{
    let mut out: Vec<u8> = Vec::new();
    if cwd.len() == 0 {
        out.push(47u8);
        assert(out@ =~= seq![47u8]);
        return out;
    }
    let mut i: usize = 0;
    while i < cwd.len()
        invariant
            i <= cwd@.len(),
            cwd@.len() > 0,
            i > 0 ==> out@ == pwd_text(path_view(cwd@).take(i as int)),
            i == 0 ==> out@.len() == 0,
        decreases cwd@.len() - i,
    {
        let ghost before = out@;
        out.push(47u8);
        append_bytes(&mut out, cwd[i].as_slice());
        proof {
            let t = path_view(cwd@).take(i + 1);
            assert(t.drop_last() =~= path_view(cwd@).take(i as int));
            assert(t.last() == cwd@[i as int]@);
            if i == 0 {
                assert(out@ =~= pwd_text(t));
            } else {
                assert(out@ =~= pwd_text(t));
            }
        }
        i = i + 1;
    }
    assert(path_view(cwd@).take(i as int) =~= path_view(cwd@));
    out
}


/// The line `ls` shows for an entry.
pub open spec fn ls_line(e: DirEntry) -> Seq<u8> {
    if e.is_dir {
        "  ".spec_bytes() + e.name@ + "/".spec_bytes()
    } else {
        "  ".spec_bytes() + e.name@ + " (".spec_bytes() + dec(e.size as nat) + " bajtow)".spec_bytes()
    }
}

pub open spec fn ls_text(es: Seq<DirEntry>) -> Seq<u8> {
    if es.len() == 0 {
        "(pusty katalog)".spec_bytes()
    } else {
        join_lines(es.map_values(|e: DirEntry| ls_line(e)))
    }
}

pub fn cmd_ls(cwd: &Vec<Vec<u8>>, fs: &RamFs) -> (r: Vec<u8>)
    requires
        fs.fs_wf(),
    ensures
        !is_dir_in(fs.fs_view(), path_view(cwd@)) ==> r@ == "Katalog nie istnieje.".spec_bytes(),
        is_dir_in(fs.fs_view(), path_view(cwd@)) ==> exists|es: Seq<DirEntry>|
            listing_of(fs.fs_view(), path_view(cwd@), es) && r@ == ls_text(es),
{
    match fs.list(cwd.as_slice()) {
        None => lit("Katalog nie istnieje."),
        Some(entries) => {
            if entries.len() == 0 {
                let r = lit("(pusty katalog)");
                assert(r@ == ls_text(entries@));
                return r;
            }
            let mut ls: Vec<Vec<u8>> = Vec::new();
            let mut i: usize = 0;
            while i < entries.len()
                invariant
                    i <= entries@.len(),
                    ls@.len() == i,
                    forall|j: int| 0 <= j < i ==> (#[trigger] ls@[j])@ == ls_line(entries@[j]),
                decreases entries@.len() - i,
            {
                let e = &entries[i];
                let mut line = lit("  ");
                append_bytes(&mut line, e.name.as_slice());
                if e.is_dir {
                    push_str(&mut line, "/");
                } else {
                    push_str(&mut line, " (");
                    push_decimal(&mut line, e.size as u64);
                    push_str(&mut line, " bajtow)");
                }
                ls.push(line);
                i = i + 1;
            }
            let r = join_lines_exec(&ls);
            assert(views(ls@) =~= entries@.map_values(|e: DirEntry| ls_line(e)));
            assert(r@ == ls_text(entries@));
            r
        },
    }
}

pub open spec fn cp_spec(args: Seq<u8>, cwd: Seq<Seq<u8>>, v: FsView) -> (Seq<u8>, FsView) {
    match split_once(args, 32) {
        None => ("Uzycie: cp <zrodlo> <cel>".spec_bytes(), v),
        Some((src, d)) => {
            let dst = trim(d);
            if !is_file_in(v, cwd.push(src)) {
                (msg("Plik '", src, "' nie istnieje."), v)
            } else if is_dir_in(v, cwd) && !is_dir_in(v, cwd.push(dst)) {
                (
                    msg("Skopiowano '", src, "' -> '") + dst + "'.".spec_bytes(),
                    v.insert(cwd.push(dst), v[cwd.push(src)]),
                )
            } else {
                (msg("Nie mozna zapisac do '", dst, "'."), v)
            }
        },
    }
}

pub fn cmd_cp(args: &[u8], cwd: &Vec<Vec<u8>>, fs: &mut RamFs) -> (r: Vec<u8>)
    requires
        old(fs).fs_wf(),
    ensures
        final(fs).fs_wf(),
        (r@, final(fs).fs_view()) == cp_spec(args@, path_view(cwd@), old(fs).fs_view()),
{
    let (src, d) = match split_once_at(args, 32) {
        Some(p) => p,
        None => return lit("Uzycie: cp <zrodlo> <cel>"),
    };
    let dst = trim_bytes(d);
    let data = match fs.read(cwd.as_slice(), src) {
        Some(x) => copy_bytes(x),
        None => return push_msg("Plik '", src, "' nie istnieje."),
    };
    if fs.write(cwd.as_slice(), dst, data.as_slice()) {
        let mut out = push_msg("Skopiowano '", src, "' -> '");
        append_bytes(&mut out, dst);
        push_str(&mut out, "'.");
        out
    } else {
        push_msg("Nie mozna zapisac do '", dst, "'.")
    }
}

pub open spec fn mv_spec(args: Seq<u8>, cwd: Seq<Seq<u8>>, v: FsView) -> (Seq<u8>, FsView) {
    match split_once(args, 32) {
        None => ("Uzycie: mv <zrodlo> <cel>".spec_bytes(), v),
        Some((src, d)) => {
            let dst = trim(d);
            if src == dst {
                (Seq::empty(), v)
            } else if !is_file_in(v, cwd.push(src)) {
                (msg("Plik '", src, "' nie istnieje."), v)
            } else if is_dir_in(v, cwd) && !is_dir_in(v, cwd.push(dst)) {
                (
                    msg("Przeniesiono '", src, "' -> '") + dst + "'.".spec_bytes(),
                    v.insert(cwd.push(dst), v[cwd.push(src)]).remove(cwd.push(src)),
                )
            } else {
                (msg("Nie mozna przeniesc do '", dst, "'."), v)
            }
        },
    }
}

pub fn cmd_mv(args: &[u8], cwd: &Vec<Vec<u8>>, fs: &mut RamFs) -> (r: Vec<u8>)
    requires
        old(fs).fs_wf(),
    ensures
        final(fs).fs_wf(),
        (r@, final(fs).fs_view()) == mv_spec(args@, path_view(cwd@), old(fs).fs_view()),
{
    let (src, d) = match split_once_at(args, 32) {
        Some(p) => p,
        None => return lit("Uzycie: mv <zrodlo> <cel>"),
    };
    let dst = trim_bytes(d);
    if bytes_eq(src, dst) {
        return Vec::new();
    }
    let data = match fs.read(cwd.as_slice(), src) {
        Some(x) => copy_bytes(x),
        None => return push_msg("Plik '", src, "' nie istnieje."),
    };
    let ghost v0 = fs.fs_view();
    let ghost c = path_view(cwd@);
    if fs.write(cwd.as_slice(), dst, data.as_slice()) {
        proof {
            assert(c.push(src@) != c.push(dst@)) by {
                if c.push(src@) == c.push(dst@) {
                    assert(c.push(src@).last() == c.push(dst@).last());
                }
            }
            assert(fs.fs_view().contains_key(c.push(src@)));
            assert(fs.fs_view()[c.push(src@)] is File);
        }
        let _ = fs.remove(cwd.as_slice(), src);
        let mut out = push_msg("Przeniesiono '", src, "' -> '");
        append_bytes(&mut out, dst);
        push_str(&mut out, "'.");
        out
    } else {
        push_msg("Nie mozna przeniesc do '", dst, "'.")
    }
}

/// The text a command works on: the previous command's output where there is
/// one, else the file's contents (nothing where they are not UTF-8); else why not.
pub open spec fn text_input(pipe: Option<Seq<u8>>, fname: Option<Seq<u8>>, cwd: Seq<Seq<u8>>, v: FsView, usage: Seq<u8>) -> Result<Seq<u8>, Seq<u8>> {
    match pipe {
        Some(p) => Ok(p),
        None => match fname {
            Some(n) => if is_file_in(v, cwd.push(n)) {
                Ok(text_of(v[cwd.push(n)]->File_0))
            } else {
                Err(msg("Plik '", n, "' nie istnieje."))
            },
            None => Err(usage),
        },
    }
}

fn read_text_input(pipe_input: Option<&[u8]>, filename: Option<&[u8]>, cwd: &Vec<Vec<u8>>, fs: &RamFs, usage: &str) -> (r: Result<Vec<u8>, Vec<u8>>)
    requires
        fs.fs_wf(),
    ensures
        match text_input(
            match pipe_input { Some(p) => Some(p@), None => None },
            match filename { Some(f) => Some(f@), None => None },
            path_view(cwd@),
            fs.fs_view(),
            usage.spec_bytes(),
        ) {
            Ok(t) => r matches Ok(x) && x@ == t,
            Err(e) => r matches Err(x) && x@ == e,
        },
{
    if let Some(input) = pipe_input {
        Ok(copy_bytes(input))
    } else if let Some(name) = filename {
        match fs.read(cwd.as_slice(), name) {
            Some(data) => if utf8_valid(data) {
                Ok(copy_bytes(data))
            } else {
                Ok(Vec::new())
            },
            None => Err(push_msg("Plik '", name, "' nie istnieje.")),
        }
    } else {
        Err(lit(usage))
    }
}

pub open spec fn opt_view(o: Option<&[u8]>) -> Option<Seq<u8>> {
    match o {
        Some(p) => Some(p@),
        None => None,
    }
}

/// The lines that contain `p`, in order.
pub open spec fn grep_lines(ls: Seq<Seq<u8>>, p: Seq<u8>) -> Seq<Seq<u8>>
    decreases ls.len(),
{
    if ls.len() == 0 {
        Seq::empty()
    } else if has_sub(ls.last(), p) {
        grep_lines(ls.drop_last(), p).push(ls.last())
    } else {
        grep_lines(ls.drop_last(), p)
    }
}

pub open spec fn grep_spec(args: Seq<u8>, cwd: Seq<Seq<u8>>, pipe: Option<Seq<u8>>, v: FsView) -> Seq<u8> {
    let ws = words(args);
    if ws.len() == 0 {
        "Uzycie: grep <wzorzec> [plik]".spec_bytes()
    } else {
        let fname = if ws.len() > 1 { Some(ws[1]) } else { None };
        match text_input(pipe, fname, cwd, v, "Uzycie: grep <wzorzec> <plik>".spec_bytes()) {
            Err(e) => e,
            Ok(t) => {
                let out = join_lines(grep_lines(lines(t), ws[0]));
                if out.len() == 0 {
                    msg("Brak wynikow dla '", ws[0], "'.")
                } else {
                    out
                }
            },
        }
    }
}

pub fn cmd_grep(args: &[u8], cwd: &Vec<Vec<u8>>, pipe_input: Option<&[u8]>, fs: &RamFs) -> (r: Vec<u8>)
    requires
        fs.fs_wf(),
    ensures
        r@ == grep_spec(args@, path_view(cwd@), opt_view(pipe_input), fs.fs_view()),
{
    let parts = split_words(args);
    if parts.len() == 0 {
        return lit("Uzycie: grep <wzorzec> [plik]");
    }
    let pattern = parts[0].as_slice();
    let fname: Option<&[u8]> = if parts.len() > 1 { Some(parts[1].as_slice()) } else { None };
    let text = match read_text_input(pipe_input, fname, cwd, fs, "Uzycie: grep <wzorzec> <plik>") {
        Ok(t) => t,
        Err(e) => return e,
    };
    let ls = split_lines(text.as_slice());
    let mut sel: Vec<Vec<u8>> = Vec::new();
    let mut i: usize = 0;
    while i < ls.len()
        invariant
            i <= ls@.len(),
            views(sel@) == grep_lines(views(ls@).take(i as int), pattern@),
        decreases ls@.len() - i,
    {
        let ghost before = views(sel@);
        proof {
            assert(views(ls@).take(i + 1).drop_last() =~= views(ls@).take(i as int));
            assert(views(ls@).take(i + 1).last() == ls@[i as int]@);
        }
        if contains_bytes(ls[i].as_slice(), pattern) {
            sel.push(copy_bytes(ls[i].as_slice()));
            assert(views(sel@) =~= before.push(ls@[i as int]@));
        }
        i = i + 1;
    }
    assert(views(ls@).take(i as int) =~= views(ls@));
    let out = join_lines_exec(&sel);
    if out.len() == 0 {
        push_msg("Brak wynikow dla '", pattern, "'.")
    } else {
        out
    }
}

pub open spec fn wc_spec(args: Seq<u8>, cwd: Seq<Seq<u8>>, pipe: Option<Seq<u8>>, v: FsView) -> Seq<u8> {
    match text_input(pipe, first_word(args), cwd, v, "Uzycie: wc <plik>".spec_bytes()) {
        Err(e) => e,
        Ok(t) => "  ".spec_bytes() + dec(lines(t).len()) + " linii  ".spec_bytes() + dec(words(t).len())
            + " slow  ".spec_bytes() + dec(t.len()) + " bajtow".spec_bytes(),
    }
}

pub fn cmd_wc(args: &[u8], cwd: &Vec<Vec<u8>>, pipe_input: Option<&[u8]>, fs: &RamFs) -> (r: Vec<u8>)
    requires
        fs.fs_wf(),
    ensures
        r@ == wc_spec(args@, path_view(cwd@), opt_view(pipe_input), fs.fs_view()),
{
    let first = first_word_of(args);
    let fname: Option<&[u8]> = match &first {
        Some(f) => Some(f.as_slice()),
        None => None,
    };
    let text = match read_text_input(pipe_input, fname, cwd, fs, "Uzycie: wc <plik>") {
        Ok(t) => t,
        Err(e) => return e,
    };
    let nl = split_lines(text.as_slice()).len();
    let nw = split_words(text.as_slice()).len();
    let mut out = lit("  ");
    push_decimal(&mut out, nl as u64);
    push_str(&mut out, " linii  ");
    push_decimal(&mut out, nw as u64);
    push_str(&mut out, " slow  ");
    push_decimal(&mut out, text.len() as u64);
    push_str(&mut out, " bajtow");
    out
}


/// A count argument: the number it reads as, or `d` where it is none or too large.
pub open spec fn count_or(s: Seq<u8>, d: nat) -> nat {
    match parse_nat(s) {
        Some(v) => if v <= usize::MAX {
            v
        } else {
            d
        },
        None => d,
    }
}

/// `-n N` sets the count, any other word is the file; the last of each counts.
pub open spec fn n_args_from(ps: Seq<Seq<u8>>, i: int, n: nat, file: Option<Seq<u8>>, d: nat) -> (nat, Option<Seq<u8>>)
    decreases ps.len() - i,
{
    if i < 0 || i >= ps.len() {
        (n, file)
    } else if ps[i] == "-n".spec_bytes() && i + 1 < ps.len() {
        n_args_from(ps, i + 2, count_or(ps[i + 1], d), file, d)
    } else {
        n_args_from(ps, i + 1, n, Some(ps[i]), d)
    }
}

pub open spec fn n_args(args: Seq<u8>, d: nat) -> (nat, Option<Seq<u8>>) {
    n_args_from(words(args), 0, d, None, d)
}

fn parse_n_args(args: &[u8], default_n: usize) -> (r: (usize, Option<Vec<u8>>))
    ensures
        r.0 == n_args(args@, default_n as nat).0,
        match n_args(args@, default_n as nat).1 {
            Some(f) => r.1 matches Some(v) && v@ == f,
            None => r.1 is None,
        },
{
    let parts = split_words(args);
    let ghost ps = views(parts@);
    let mut n = default_n;
    let mut file_arg: Option<Vec<u8>> = None;
    let mut i: usize = 0;
    let dash_n = "-n".as_bytes();
    while i < parts.len()
        invariant
            i <= parts@.len() + 1,
            ps == views(parts@),
            dash_n@ == "-n".spec_bytes(),
            n_args_from(ps, i as int, n as nat, match &file_arg { Some(v) => Some(v@), None => None }, default_n as nat)
                == n_args(args@, default_n as nat),
        decreases parts@.len() + 1 - i,
    {
        if bytes_eq(parts[i].as_slice(), dash_n) && i + 1 < parts.len() {
            n = match parse_u64(parts[i + 1].as_slice()) {
                Some(v) => if v <= usize::MAX as u64 { v as usize } else { default_n },
                None => default_n,
            };
            i = i + 2;
        } else {
            file_arg = Some(copy_bytes(parts[i].as_slice()));
            i = i + 1;
        }
    }
    (n, file_arg)
}

pub open spec fn head_spec(args: Seq<u8>, cwd: Seq<Seq<u8>>, pipe: Option<Seq<u8>>, v: FsView) -> Seq<u8> {
    let (n, f) = n_args(args, 10);
    match text_input(pipe, f, cwd, v, "Uzycie: head [-n N] <plik>".spec_bytes()) {
        Err(e) => e,
        Ok(t) => join_lines(lines(t).take(if n < lines(t).len() { n as int } else { lines(t).len() as int })),
    }
}

pub fn cmd_head(args: &[u8], cwd: &Vec<Vec<u8>>, pipe_input: Option<&[u8]>, fs: &RamFs) -> (r: Vec<u8>)
    requires
        fs.fs_wf(),
    ensures
        r@ == head_spec(args@, path_view(cwd@), opt_view(pipe_input), fs.fs_view()),
{
    let (n, file_arg) = parse_n_args(args, 10);
    let fname: Option<&[u8]> = match &file_arg {
        Some(f) => Some(f.as_slice()),
        None => None,
    };
    let text = match read_text_input(pipe_input, fname, cwd, fs, "Uzycie: head [-n N] <plik>") {
        Ok(t) => t,
        Err(e) => return e,
    };
    let mut ls = split_lines(text.as_slice());
    if n < ls.len() {
        ls.truncate(n);
    }
    proof {
        let all = lines(text@);
        assert(views(ls@) =~= all.take(if n < all.len() { n as int } else { all.len() as int }));
    }
    join_lines_exec(&ls)
}

pub open spec fn tail_spec(args: Seq<u8>, cwd: Seq<Seq<u8>>, pipe: Option<Seq<u8>>, v: FsView) -> Seq<u8> {
    let (n, f) = n_args(args, 10);
    match text_input(pipe, f, cwd, v, "Uzycie: tail [-n N] <plik>".spec_bytes()) {
        Err(e) => e,
        Ok(t) => join_lines(lines(t).skip(if lines(t).len() > n { lines(t).len() - n } else { 0 })),
    }
}

pub fn cmd_tail(args: &[u8], cwd: &Vec<Vec<u8>>, pipe_input: Option<&[u8]>, fs: &RamFs) -> (r: Vec<u8>)
    requires
        fs.fs_wf(),
    ensures
        r@ == tail_spec(args@, path_view(cwd@), opt_view(pipe_input), fs.fs_view()),
{
    let (n, file_arg) = parse_n_args(args, 10);
    let fname: Option<&[u8]> = match &file_arg {
        Some(f) => Some(f.as_slice()),
        None => None,
    };
    let text = match read_text_input(pipe_input, fname, cwd, fs, "Uzycie: tail [-n N] <plik>") {
        Ok(t) => t,
        Err(e) => return e,
    };
    let ls = split_lines(text.as_slice());
    let start = if ls.len() > n { ls.len() - n } else { 0 };
    let mut sel: Vec<Vec<u8>> = Vec::new();
    let mut i = start;
    while i < ls.len()
        invariant
            start <= i <= ls@.len(),
            views(sel@) == views(ls@).subrange(start as int, i as int),
        decreases ls@.len() - i,
    {
        let ghost before = views(sel@);
        sel.push(copy_bytes(ls[i].as_slice()));
        assert(views(sel@) =~= before.push(ls@[i as int]@));
        assert(views(sel@) =~= views(ls@).subrange(start as int, i + 1));
        i = i + 1;
    }
    assert(views(sel@) =~= views(ls@).skip(start as int));
    join_lines_exec(&sel)
}

/// Lines with each run of equal neighbours kept once.
pub open spec fn dedup(ls: Seq<Seq<u8>>) -> Seq<Seq<u8>>
    decreases ls.len(),
{
    if ls.len() == 0 {
        Seq::empty()
    } else if ls.len() > 1 && ls[ls.len() - 2] == ls.last() {
        dedup(ls.drop_last())
    } else {
        dedup(ls.drop_last()).push(ls.last())
    }
}

proof fn lemma_dedup_last(ls: Seq<Seq<u8>>)
    requires
        ls.len() > 0,
    ensures
        dedup(ls).len() > 0,
        dedup(ls).last() == ls.last(),
    decreases ls.len(),
{
    if ls.len() > 1 && ls[ls.len() - 2] == ls.last() {
        lemma_dedup_last(ls.drop_last());
    }
}

/// `uniq` leaves no line equal to the one before it.
pub proof fn law_uniq_no_repeats(ls: Seq<Seq<u8>>)
    ensures
        forall|i: int| 0 <= i < dedup(ls).len() - 1 ==> #[trigger] dedup(ls)[i] != dedup(ls)[i + 1],
    decreases ls.len(),
{
    if ls.len() > 0 {
        let d = ls.drop_last();
        law_uniq_no_repeats(d);
        if ls.len() > 1 && ls[ls.len() - 2] == ls.last() {
            assert(dedup(ls) == dedup(d));
        } else {
            let r = dedup(d);
            assert(dedup(ls) == r.push(ls.last()));
            if d.len() > 0 {
                lemma_dedup_last(d);
            }
            assert forall|i: int| 0 <= i < r.push(ls.last()).len() - 1 implies #[trigger] r.push(ls.last())[i]
                != r.push(ls.last())[i + 1] by {
                if i + 1 < r.len() {
                    assert(r.push(ls.last())[i] == r[i] && r.push(ls.last())[i + 1] == r[i + 1]);
                } else {
                    assert(d.len() > 0);
                    assert(d.last() == ls[ls.len() - 2]);
                    assert(r.push(ls.last())[i] == r.last());
                }
            }
        }
    }
}

pub open spec fn uniq_spec(pipe: Option<Seq<u8>>) -> Seq<u8> {
    match pipe {
        None => "uniq wymaga danych z pipe (np. sort plik | uniq)".spec_bytes(),
        Some(t) => join_lines(dedup(lines(t))),
    }
}

pub fn cmd_uniq(pipe_input: Option<&[u8]>) -> (r: Vec<u8>)
    ensures
        r@ == uniq_spec(opt_view(pipe_input)),
{
    let text = match pipe_input {
        Some(t) => t,
        None => return lit("uniq wymaga danych z pipe (np. sort plik | uniq)"),
    };
    let ls = split_lines(text);
    let ghost all = views(ls@);
    let mut out: Vec<Vec<u8>> = Vec::new();
    let mut i: usize = 0;
    while i < ls.len()
        invariant
            i <= ls@.len(),
            all == views(ls@),
            views(out@) == dedup(all.take(i as int)),
        decreases ls@.len() - i,
    {
        let ghost before = views(out@);
        let ghost t = all.take(i + 1);
        proof {
            assert(t.drop_last() =~= all.take(i as int));
            assert(t.last() == all[i as int]);
            if i > 0 {
                assert(t[t.len() - 2] == all[i - 1]);
            }
        }
        if i > 0 && bytes_eq(ls[i - 1].as_slice(), ls[i].as_slice()) {
        } else {
            out.push(copy_bytes(ls[i].as_slice()));
            assert(views(out@) =~= before.push(all[i as int]));
        }
        i = i + 1;
    }
    assert(all.take(i as int) =~= all);
    join_lines_exec(&out)
}

/// Byte-wise order, equal allowed.
pub open spec fn lex_le(a: Seq<u8>, b: Seq<u8>) -> bool {
    a == b || lex_lt(a, b)
}

/// Lines in increasing order.
pub open spec fn sorted_lines(ls: Seq<Seq<u8>>) -> bool {
    forall|i: int, j: int| 0 <= i < j < ls.len() ==> lex_le(#[trigger] ls[i], #[trigger] ls[j])
}

pub open spec fn sort_result(args: Seq<u8>, cwd: Seq<Seq<u8>>, pipe: Option<Seq<u8>>, v: FsView, r: Seq<u8>) -> bool {
    match text_input(pipe, first_word(args), cwd, v, "Uzycie: sort <plik>".spec_bytes()) {
        Err(e) => r == e,
        Ok(t) => exists|ls: Seq<Seq<u8>>|
            sorted_lines(ls) && ls.to_multiset() == lines(t).to_multiset() && r == join_lines(ls),
    }
}

proof fn lemma_insert_multiset(s: Seq<Seq<u8>>, k: int, x: Seq<u8>)
    requires
        0 <= k <= s.len(),
    ensures
        s.insert(k, x).to_multiset() == s.to_multiset().insert(x),
{
    broadcast use vstd::seq_lib::group_to_multiset_ensures;
    broadcast use vstd::multiset::group_multiset_axioms;
    vstd::seq_lib::lemma_multiset_commutative(s.take(k).push(x), s.skip(k));
    vstd::seq_lib::lemma_multiset_commutative(s.take(k), s.skip(k));
    assert(s.insert(k, x) =~= s.take(k).push(x) + s.skip(k));
    assert(s =~= s.take(k) + s.skip(k));
    assert(s.insert(k, x).to_multiset() =~= s.to_multiset().insert(x));
}

/// The lines of `text`, sorted.
fn sort_lines(text: &[u8]) -> (r: Vec<Vec<u8>>)
    ensures
        sorted_lines(views(r@)),
        views(r@).to_multiset() == lines(text@).to_multiset(),
{
    let ls = split_lines(text);
    let ghost all = views(ls@);
    let mut out: Vec<Vec<u8>> = Vec::new();
    let mut i: usize = 0;
    proof {
        broadcast use vstd::seq_lib::group_to_multiset_ensures;
        assert(all.take(0) =~= Seq::<Seq<u8>>::empty());
        assert(views(out@) =~= Seq::<Seq<u8>>::empty());
    }
    while i < ls.len()
        invariant
            i <= ls@.len(),
            all == views(ls@),
            sorted_lines(views(out@)),
            views(out@).to_multiset() == all.take(i as int).to_multiset(),
        decreases ls@.len() - i,
    {
        let x = ls[i].as_slice();
        let ghost o = views(out@);
        let mut k: usize = 0;
        while k < out.len() && !bytes_lt(x, out[k].as_slice())
            invariant
                k <= out@.len(),
                o == views(out@),
                forall|j: int| 0 <= j < k ==> lex_le(#[trigger] o[j], x@),
            decreases out@.len() - k,
        {
            proof {
                lemma_lex_total(o[k as int], x@);
            }
            k = k + 1;
        }
        out.insert(k, copy_bytes(x));
        proof {
            broadcast use vstd::seq_lib::group_to_multiset_ensures;
            let o2 = views(out@);
            assert(o2 =~= o.insert(k as int, x@));
            lemma_insert_multiset(o, k as int, x@);
            assert(all.take(i + 1) =~= all.take(i as int).push(x@));
            assert forall|a: int, b: int| 0 <= a < b < o2.len() implies lex_le(#[trigger] o2[a], #[trigger] o2[b]) by {
                if b < k {
                    assert(o2[a] == o[a] && o2[b] == o[b]);
                } else if b == k {
                    assert(o2[a] == o[a]);
                } else if a == k {
                    assert(o2[b] == o[b - 1]);
                    if b - 1 > k {
                        assert(lex_le(o[k as int], o[b - 1]));
                        if o[k as int] != o[b - 1] {
                            lemma_lex_transitive(x@, o[k as int], o[b - 1]);
                        }
                    }
                } else if a < k {
                    assert(o2[a] == o[a] && o2[b] == o[b - 1]);
                    if k < o.len() {
                        assert(lex_le(o[a], o[k as int]) || true);
                        if o[a] != x@ {
                            if x@ != o[k as int] {
                                lemma_lex_transitive(o[a], x@, o[k as int]);
                            }
                        }
                        if b - 1 > k {
                            assert(lex_le(o[k as int], o[b - 1]));
                        }
                        assert(lex_le(o[a], o[b - 1]));
                    }
                } else {
                    assert(o2[a] == o[a - 1] && o2[b] == o[b - 1]);
                }
            }
        }
        i = i + 1;
    }
    assert(all.take(i as int) =~= all);
    out
}

pub fn cmd_sort(args: &[u8], cwd: &Vec<Vec<u8>>, pipe_input: Option<&[u8]>, fs: &RamFs) -> (r: Vec<u8>)
    requires
        fs.fs_wf(),
    ensures
        sort_result(args@, path_view(cwd@), opt_view(pipe_input), fs.fs_view(), r@),
{
    let first = first_word_of(args);
    let fname: Option<&[u8]> = match &first {
        Some(f) => Some(f.as_slice()),
        None => None,
    };
    let text = match read_text_input(pipe_input, fname, cwd, fs, "Uzycie: sort <plik>") {
        Ok(t) => t,
        Err(e) => return e,
    };
    let sorted = sort_lines(text.as_slice());
    let r = join_lines_exec(&sorted);
    assert(sorted_lines(views(sorted@)) && views(sorted@).to_multiset() == lines(text@).to_multiset()
        && r@ == join_lines(views(sorted@)));
    r
}


/// A byte as two lowercase hexadecimal digits.
pub open spec fn hex_byte(b: u8) -> Seq<u8> {
    pad_zero(hex(b as nat), 2)
}

/// Column `j` of a hexdump line for the chunk `c`: the byte and a space, or
/// three spaces past its end; one more space after the eighth column.
pub open spec fn hex_cell(c: Seq<u8>, j: int) -> Seq<u8> {
    (if j < c.len() { hex_byte(c[j]) + seq![32u8] } else { seq![32u8, 32u8, 32u8] })
        + (if j == 7 { seq![32u8] } else { Seq::empty() })
}

/// The first `n` columns.
pub open spec fn hex_cells(c: Seq<u8>, n: int) -> Seq<u8>
    decreases n,
{
    if n <= 0 {
        Seq::empty()
    } else {
        hex_cells(c, n - 1) + hex_cell(c, n - 1)
    }
}

/// A byte as shown in the text column: itself when printable ASCII, else a dot.
pub open spec fn shown(b: u8) -> u8 {
    if 0x20 <= b && b <= 0x7e { b } else { 46u8 }
}

pub open spec fn shown_all(c: Seq<u8>) -> Seq<u8> {
    c.map_values(|b: u8| shown(b))
}

/// The hexdump line of the chunk `c` that starts at offset `addr`.
pub open spec fn hex_line(addr: nat, c: Seq<u8>) -> Seq<u8> {
    pad_zero(hex(addr), 8) + seq![32u8, 32u8] + hex_cells(c, 16) + seq![32u8, 124u8] + shown_all(c) + seq![124u8]
}

/// The `i`-th chunk of 16 bytes (the last one may be shorter).
pub open spec fn chunk_of(data: Seq<u8>, i: int) -> Seq<u8> {
    data.subrange(16 * i, if 16 * i + 16 <= data.len() { 16 * i + 16 } else { data.len() as int })
}

pub open spec fn hexdump_lines(data: Seq<u8>) -> Seq<Seq<u8>> {
    Seq::new(((data.len() + 15) / 16) as nat, |i: int| hex_line((16 * i) as nat, chunk_of(data, i)))
}

pub open spec fn hexdump_spec(args: Seq<u8>, cwd: Seq<Seq<u8>>, v: FsView) -> Seq<u8> {
    match first_word(args) {
        None => "Uzycie: hexdump <plik>".spec_bytes(),
        Some(n) => if is_file_in(v, cwd.push(n)) {
            join_lines(hexdump_lines(v[cwd.push(n)]->File_0))
        } else {
            msg("Plik '", n, "' nie istnieje.")
        },
    }
}

fn hex_line_exec(data: &[u8], start: usize, end: usize) -> (r: Vec<u8>)
    requires
        start <= end <= data@.len(),
        end - start <= 16,
    ensures
        r@ == hex_line(start as nat, data@.subrange(start as int, end as int)),
{
    let ghost c = data@.subrange(start as int, end as int);
    let mut digits: Vec<u8> = Vec::new();
    push_hex(&mut digits, start as u64);
    let mut out: Vec<u8> = Vec::new();
    push_padded(&mut out, digits.as_slice(), 8);
    out.push(32u8);
    out.push(32u8);
    let ghost head = out@;
    assert(hex_cells(c, 0) =~= Seq::<u8>::empty());
    let mut j: usize = 0;
    while j < 16
        invariant
            j <= 16,
            start <= end <= data@.len(),
            end - start <= 16,
            c == data@.subrange(start as int, end as int),
            out@ == head + hex_cells(c, j as int),
        decreases 16 - j,
    {
        let ghost before = out@;
        if j < end - start {
            let b = data[start + j];
            let mut d: Vec<u8> = Vec::new();
            push_hex(&mut d, b as u64);
            push_padded(&mut out, d.as_slice(), 2);
            out.push(32u8);
        } else {
            out.push(32u8);
            out.push(32u8);
            out.push(32u8);
        }
        if j == 7 {
            out.push(32u8);
        }
        assert(out@ =~= before + hex_cell(c, j as int));
        j = j + 1;
    }
    out.push(32u8);
    out.push(124u8);
    let ghost mid = out@;
    let mut k: usize = start;
    while k < end
        invariant
            start <= k <= end,
            end <= data@.len(),
            c == data@.subrange(start as int, end as int),
            out@ == mid + shown_all(c.take(k - start)),
        decreases end - k,
    {
        let b = data[k];
        let ghost before = out@;
        if 0x20 <= b && b <= 0x7e {
            out.push(b);
        } else {
            out.push(46u8);
        }
        assert(c.take(k + 1 - start) =~= c.take(k - start).push(b));
        assert(shown_all(c.take(k + 1 - start)) =~= shown_all(c.take(k - start)).push(shown(b)));
        k = k + 1;
    }
    assert(c.take(end - start) =~= c);
    out.push(124u8);
    assert(out@ =~= hex_line(start as nat, c));
    out
}

/// The hexdump lines of `data`.
fn hexdump_text(data: &[u8]) -> (r: Vec<u8>)
    ensures
        r@ == join_lines(hexdump_lines(data@)),
{
    let len = data.len();
    let ghost all = hexdump_lines(data@);
    let mut ls: Vec<Vec<u8>> = Vec::new();
    let mut off: usize = 0;
    let ghost mut k: int = 0;
    while off < len
        invariant
            len == data@.len(),
            all == hexdump_lines(data@),
            0 <= k <= all.len(),
            off <= len,
            off < len ==> off == 16 * k,
            off == len ==> k == all.len(),
            views(ls@) == all.take(k),
        decreases len - off,
    {
        let end = if len - off > 16 { off + 16 } else { len };
        let line = hex_line_exec(data, off, end);
        let ghost before = views(ls@);
        ls.push(line);
        proof {
            assert(chunk_of(data@, k) == data@.subrange(off as int, end as int));
            assert(all[k] == hex_line(off as nat, data@.subrange(off as int, end as int)));
            assert(views(ls@) =~= before.push(all[k]));
            assert(views(ls@) =~= all.take(k + 1));
            k = k + 1;
        }
        off = end;
    }
    assert(all.take(k) =~= all);
    join_lines_exec(&ls)
}

pub fn cmd_hexdump(args: &[u8], cwd: &Vec<Vec<u8>>, fs: &RamFs) -> (r: Vec<u8>)
    requires
        fs.fs_wf(),
    ensures
        r@ == hexdump_spec(args@, path_view(cwd@), fs.fs_view()),
{
    let name = match first_word_of(args) {
        Some(n) => n,
        None => return lit("Uzycie: hexdump <plik>"),
    };
    match fs.read(cwd.as_slice(), name.as_slice()) {
        Some(data) => hexdump_text(data),
        None => push_msg("Plik '", name.as_slice(), "' nie istnieje."),
    }
}


/// `key=value`.
pub open spec fn env_line(v: EnvVar) -> Seq<u8> {
    v.key@ + seq![61u8] + v.value@
}

/// The environment listing: one `key=value` line per variable, in key order.
pub open spec fn env_listing(vars: Seq<EnvVar>) -> Seq<u8> {
    join_lines(Seq::new(vars.len(), |i: int| env_line(vars[i])))
}

pub fn cmd_env(env: &EnvVars) -> (r: Vec<u8>)
    requires
        env.wf(),
    ensures
        r@ == env_listing(env.vars_spec()),
{
    let vars = env.vars();
    let ghost all = Seq::new(vars@.len(), |i: int| env_line(vars@[i]));
    let mut ls: Vec<Vec<u8>> = Vec::new();
    let mut i: usize = 0;
    while i < vars.len()
        invariant
            i <= vars@.len(),
            all == Seq::new(vars@.len(), |i: int| env_line(vars@[i])),
            views(ls@) == all.take(i as int),
        decreases vars@.len() - i,
    {
        let mut line = copy_bytes(vars[i].key.as_slice());
        line.push(61u8);
        append_bytes(&mut line, vars[i].value.as_slice());
        assert(line@ =~= env_line(vars@[i as int]));
        let ghost before = views(ls@);
        ls.push(line);
        assert(views(ls@) =~= before.push(all[i as int]));
        assert(views(ls@) =~= all.take(i + 1));
        i = i + 1;
    }
    assert(all.take(i as int) =~= all);
    join_lines_exec(&ls)
}

/// What `export` answers and the environment after it.
pub open spec fn export_spec(args: Seq<u8>, m: Map<Seq<u8>, Seq<u8>>) -> (Seq<u8>, Map<Seq<u8>, Seq<u8>>) {
    let a = trim(args);
    match split_once(a, 61) {
        Some((k0, v0)) => {
            let k = trim(k0);
            let v = trim(v0);
            if k.len() == 0 {
                ("Uzycie: export KLUCZ=WARTOSC".spec_bytes(), m)
            } else {
                (k + seq![61u8] + v, m.insert(k, v))
            }
        },
        None => if m.contains_key(a) {
            (a + seq![61u8] + m[a], m)
        } else {
            (msg("Zmienna '", a, "' nie istnieje."), m)
        },
    }
}

pub fn cmd_export(args: &[u8], env: &mut EnvVars) -> (r: Vec<u8>)
    requires
        old(env).wf(),
    ensures
        final(env).wf(),
        (r@, final(env).map()) == export_spec(args@, old(env).map()),
{
    let a = trim_bytes(args);
    match split_once_at(a, 61) {
        Some((k0, v0)) => {
            let k = trim_bytes(k0);
            let v = trim_bytes(v0);
            if k.len() == 0 {
                return lit("Uzycie: export KLUCZ=WARTOSC");
            }
            env.insert(k, v);
            let mut out = copy_bytes(k);
            out.push(61u8);
            append_bytes(&mut out, v);
            out
        },
        None => match env.get(a) {
            Some(val) => {
                let mut out = copy_bytes(a);
                out.push(61u8);
                append_bytes(&mut out, val);
                out
            },
            None => push_msg("Zmienna '", a, "' nie istnieje."),
        },
    }
}

/// The list of layouts that `keymap` offers.
pub open spec fn layouts_offered() -> Seq<u8> {
    "Dostepne: us, uk, de, fr, dvorak, colemak".spec_bytes()
}

pub open spec fn layout_bytes(l: LayoutId) -> Seq<u8> {
    vstd::utf8::encode_utf8(layout_name_spec(l))
}

/// What `keymap` answers, and the layout it selects, if any.
pub open spec fn keymap_spec(args: Seq<u8>, current: LayoutId) -> (Seq<u8>, Option<LayoutId>) {
    let name = trim(args);
    if name.len() == 0 {
        ("Aktualny layout: ".spec_bytes() + layout_bytes(current) + seq![10u8] + layouts_offered(), None)
    } else {
        match layout_for_name(name) {
            Some(l) => ("Layout zmieniony na: ".spec_bytes() + layout_bytes(l), Some(l)),
            None => (msg("Nieznany layout '", name, "'. ") + layouts_offered(), None),
        }
    }
}

pub fn cmd_keymap(args: &[u8], current: LayoutId) -> (r: (Vec<u8>, Option<LayoutId>))
    ensures
        (r.0@, r.1) == keymap_spec(args@, current),
{
    let name = trim_bytes(args);
    if name.len() == 0 {
        let mut out = lit("Aktualny layout: ");
        push_str(&mut out, layout_name(current));
        out.push(10u8);
        push_str(&mut out, "Dostepne: us, uk, de, fr, dvorak, colemak");
        return (out, None);
    }
    match layout_from_name(name) {
        Some(l) => {
            let mut out = lit("Layout zmieniony na: ");
            push_str(&mut out, layout_name(l));
            (out, Some(l))
        },
        None => {
            let mut out = push_msg("Nieznany layout '", name, "'. ");
            push_str(&mut out, "Dostepne: us, uk, de, fr, dvorak, colemak");
            (out, None)
        },
    }
}


/// A shell command: its name and its one-line help.
pub struct CommandEntry {
    pub name: &'static str,
    pub help: &'static str,
}

/// Every command with its help text, in the order `help` lists them.
pub open spec fn command_table() -> Seq<(Seq<char>, Seq<char>)> {
    seq![
        ("help"@, "Wyswietl te pomoc"@),
        ("echo"@, "Wyswietl tekst"@),
        ("clear"@, "Wyczysc ekran"@),
        ("ls"@, "Lista plikow i katalogow"@),
        ("cat"@, "Wyswietl zawartosc pliku"@),
        ("touch"@, "Utworz pusty plik"@),
        ("write"@, "Zapisz tekst do pliku"@),
        ("rm"@, "Usun plik lub pusty katalog"@),
        ("mkdir"@, "Utworz katalog"@),
        ("cd"@, "Zmien katalog (cd .. / cd /)"@),
        ("pwd"@, "Wyswietl biezacy katalog"@),
        ("grep"@, "Szukaj wzorca w pliku"@),
        ("wc"@, "Policz linie/slowa/bajty"@),
        ("cp"@, "Kopiuj plik"@),
        ("mv"@, "Przenies/zmien nazwe pliku"@),
        ("hexdump"@, "Zrzut szesnastkowy pliku"@),
        ("head"@, "Pokaz pierwszych N linii"@),
        ("tail"@, "Pokaz ostatnich N linii"@),
        ("sort"@, "Sortuj linie"@),
        ("uniq"@, "Usun powtorzenia (pipe)"@),
        ("save"@, "Zapisz FS na dysk ATA"@),
        ("load"@, "Wczytaj FS z dysku ATA"@),
        ("uptime"@, "Czas dzialania systemu"@),
        ("info"@, "Informacje systemowe"@),
        ("ps"@, "Lista procesow/taskow"@),
        ("spawn"@, "Uruchom demo task"@),
        ("kill"@, "Zakoncz task o podanym ID"@),
        ("exec"@, "Uruchom program uzytkownika"@),
        ("env"@, "Pokaz zmienne srodowiskowe"@),
        ("export"@, "Ustaw zmienna srodowiskowa"@),
        ("fatls"@, "Lista plikow FAT32"@),
        ("keymap"@, "Pokaz/zmien layout klawiatury"@)
    ]
}

/// The command table (completion offers its names).
pub fn command_names() -> (r: Vec<CommandEntry>)
    ensures
        r@.len() == command_table().len(),
        forall|i: int| 0 <= i < r@.len() ==> (#[trigger] r@[i]).name@ == command_table()[i].0 && r@[i].help@ == command_table()[i].1,
{
    let r = vec![
        CommandEntry { name: "help", help: "Wyswietl te pomoc" },
        CommandEntry { name: "echo", help: "Wyswietl tekst" },
        CommandEntry { name: "clear", help: "Wyczysc ekran" },
        CommandEntry { name: "ls", help: "Lista plikow i katalogow" },
        CommandEntry { name: "cat", help: "Wyswietl zawartosc pliku" },
        CommandEntry { name: "touch", help: "Utworz pusty plik" },
        CommandEntry { name: "write", help: "Zapisz tekst do pliku" },
        CommandEntry { name: "rm", help: "Usun plik lub pusty katalog" },
        CommandEntry { name: "mkdir", help: "Utworz katalog" },
        CommandEntry { name: "cd", help: "Zmien katalog (cd .. / cd /)" },
        CommandEntry { name: "pwd", help: "Wyswietl biezacy katalog" },
        CommandEntry { name: "grep", help: "Szukaj wzorca w pliku" },
        CommandEntry { name: "wc", help: "Policz linie/slowa/bajty" },
        CommandEntry { name: "cp", help: "Kopiuj plik" },
        CommandEntry { name: "mv", help: "Przenies/zmien nazwe pliku" },
        CommandEntry { name: "hexdump", help: "Zrzut szesnastkowy pliku" },
        CommandEntry { name: "head", help: "Pokaz pierwszych N linii" },
        CommandEntry { name: "tail", help: "Pokaz ostatnich N linii" },
        CommandEntry { name: "sort", help: "Sortuj linie" },
        CommandEntry { name: "uniq", help: "Usun powtorzenia (pipe)" },
        CommandEntry { name: "save", help: "Zapisz FS na dysk ATA" },
        CommandEntry { name: "load", help: "Wczytaj FS z dysku ATA" },
        CommandEntry { name: "uptime", help: "Czas dzialania systemu" },
        CommandEntry { name: "info", help: "Informacje systemowe" },
        CommandEntry { name: "ps", help: "Lista procesow/taskow" },
        CommandEntry { name: "spawn", help: "Uruchom demo task" },
        CommandEntry { name: "kill", help: "Zakoncz task o podanym ID" },
        CommandEntry { name: "exec", help: "Uruchom program uzytkownika" },
        CommandEntry { name: "env", help: "Pokaz zmienne srodowiskowe" },
        CommandEntry { name: "export", help: "Ustaw zmienna srodowiskowa" },
        CommandEntry { name: "fatls", help: "Lista plikow FAT32" },
        CommandEntry { name: "keymap", help: "Pokaz/zmien layout klawiatury" }
    ];
    assert(r@.len() == command_table().len());
    r
}

/// One line of `help`: the name padded to sixteen columns, then its help.
pub open spec fn help_line(e: (Seq<char>, Seq<char>)) -> Seq<u8> {
    seq![32u8, 32u8] + pad_right(vstd::utf8::encode_utf8(e.0), 16) + seq![45u8, 32u8] + vstd::utf8::encode_utf8(e.1) + seq![10u8]
}

pub open spec fn help_body(t: Seq<(Seq<char>, Seq<char>)>, n: int) -> Seq<u8>
    decreases n,
{
    if n <= 0 {
        Seq::empty()
    } else {
        help_body(t, n - 1) + help_line(t[n - 1])
    }
}

/// What `help` answers.
pub open spec fn help_text() -> Seq<u8> {
    "Dostepne komendy:\n".spec_bytes() + help_body(command_table(), command_table().len() as int)
        + "Pipe: cmd1 | cmd2   Redirect: cmd > plik, >> plik, < plik".spec_bytes()
}

pub fn cmd_help() -> (r: Vec<u8>)
    ensures
        r@ == help_text(),
{
    let t = command_names();
    let mut out: Vec<u8> = Vec::new();
    push_str(&mut out, "Dostepne komendy:\n");
    let ghost head = out@;
    let mut i: usize = 0;
    while i < t.len()
        invariant
            i <= t@.len(),
            t@.len() == command_table().len(),
            forall|k: int| 0 <= k < t@.len() ==> (#[trigger] t@[k]).name@ == command_table()[k].0 && t@[k].help@ == command_table()[k].1,
            out@ == head + help_body(command_table(), i as int),
        decreases t@.len() - i,
    {
        let ghost before = out@;
        out.push(32u8);
        out.push(32u8);
        let name = t[i].name;
        push_str(&mut out, name);
        let nb = name.as_bytes().len();
        if nb < 16 {
            push_spaces(&mut out, 16 - nb);
        }
        out.push(45u8);
        out.push(32u8);
        push_str(&mut out, t[i].help);
        out.push(10u8);
        assert(out@ =~= before + help_line(command_table()[i as int]));
        i = i + 1;
    }
    push_str(&mut out, "Pipe: cmd1 | cmd2   Redirect: cmd > plik, >> plik, < plik");
    out
}

/// The shell's state: its file system, its environment and the keyboard layout.
pub struct Shell {
    pub fs: RamFs,
    pub env: EnvVars,
    pub layout: LayoutId,
}

impl Shell {
    pub open spec fn wf(&self) -> bool {
        self.fs.fs_wf() && self.env.wf()
    }

    pub fn new() -> (s: Shell)
        ensures
            s.wf(),
            s.fs.fs_view() == map![Seq::<Seq<u8>>::empty() => Node::Dir],
            s.env.map() == initial_env(),
            s.layout == LayoutId::Us104,
    {
        Shell { fs: RamFs::new(), env: EnvVars::new(), layout: LayoutId::Us104 }
    }
}

/// The commands that need the kernel or the screen: the caller runs them.
#[derive(Clone, Copy, PartialEq, Eq, Structural, Debug)]
pub enum SystemCommand {
    Clear,
    Save,
    Load,
    Uptime,
    Info,
    Ps,
    Spawn,
    Kill,
    Exec,
    Fatls,
}

/// A command's outcome: its output, or a command for the caller to run.
pub enum CommandResult {
    Output(Vec<u8>),
    System(SystemCommand),
}

pub open spec fn output_is(r: CommandResult, text: Seq<u8>) -> bool {
    r matches CommandResult::Output(o) && o@ == text
}

pub open spec fn system_is(r: CommandResult, c: SystemCommand) -> bool {
    r matches CommandResult::System(s) && s == c
}

/// The command that a table name runs on the kernel's side, if it is one of those.
pub open spec fn system_command(cmd: Seq<u8>) -> Option<SystemCommand> {
    if cmd == "clear".spec_bytes() {
        Some(SystemCommand::Clear)
    } else if cmd == "load".spec_bytes() {
        Some(SystemCommand::Load)
    } else if cmd == "save".spec_bytes() {
        Some(SystemCommand::Save)
    } else if cmd == "uptime".spec_bytes() {
        Some(SystemCommand::Uptime)
    } else if cmd == "info".spec_bytes() {
        Some(SystemCommand::Info)
    } else if cmd == "ps".spec_bytes() {
        Some(SystemCommand::Ps)
    } else if cmd == "spawn".spec_bytes() {
        Some(SystemCommand::Spawn)
    } else if cmd == "kill".spec_bytes() {
        Some(SystemCommand::Kill)
    } else if cmd == "exec".spec_bytes() {
        Some(SystemCommand::Exec)
    } else if cmd == "fatls".spec_bytes() {
        Some(SystemCommand::Fatls)
    } else {
        None
    }
}

/// The answer to a name that is no command.
pub open spec fn unknown_text(cmd: Seq<u8>) -> Seq<u8> {
    msg("Nieznana komenda: '", cmd, "'. Wpisz 'help' aby zobaczyc liste komend.")
}

/// `ls` in the working directory: its listing, or the message for a missing directory.
pub open spec fn ls_result(cwd: Seq<Seq<u8>>, v: FsView, r: Seq<u8>) -> bool {
    &&& !is_dir_in(v, cwd) ==> r == "Katalog nie istnieje.".spec_bytes()
    &&& is_dir_in(v, cwd) ==> exists|es: Seq<DirEntry>| listing_of(v, cwd, es) && r == ls_text(es)
}

/// A command that reads the state: its output.
pub open spec fn reading_result(
    cmd: Seq<u8>,
    args: Seq<u8>,
    cwd: Seq<Seq<u8>>,
    pipe: Option<Seq<u8>>,
    v: FsView,
    env: Map<Seq<u8>, Seq<u8>>,
    vars: Seq<EnvVar>,
    out: Seq<u8>,
) -> bool {
    if cmd == "help".spec_bytes() {
        out == help_text()
    } else if cmd == "echo".spec_bytes() {
        out == args
    } else if cmd == "ls".spec_bytes() {
        ls_result(cwd, v, out)
    } else if cmd == "cat".spec_bytes() {
        out == cat_spec(args, cwd, v)
    } else if cmd == "pwd".spec_bytes() {
        out == pwd_text(cwd)
    } else if cmd == "grep".spec_bytes() {
        out == grep_spec(args, cwd, pipe, v)
    } else if cmd == "wc".spec_bytes() {
        out == wc_spec(args, cwd, pipe, v)
    } else if cmd == "hexdump".spec_bytes() {
        out == hexdump_spec(args, cwd, v)
    } else if cmd == "head".spec_bytes() {
        out == head_spec(args, cwd, pipe, v)
    } else if cmd == "tail".spec_bytes() {
        out == tail_spec(args, cwd, pipe, v)
    } else if cmd == "sort".spec_bytes() {
        sort_result(args, cwd, pipe, v, out)
    } else if cmd == "uniq".spec_bytes() {
        out == uniq_spec(pipe)
    } else if cmd == "env".spec_bytes() {
        out == env_listing(vars)
    } else {
        out == unknown_text(cmd)
    }
}

/// The names `reading_result` answers for.
pub open spec fn is_reading(cmd: Seq<u8>) -> bool {
    cmd == "help".spec_bytes() || cmd == "echo".spec_bytes() || cmd == "ls".spec_bytes() || cmd == "cat".spec_bytes()
        || cmd == "pwd".spec_bytes() || cmd == "grep".spec_bytes() || cmd == "wc".spec_bytes()
        || cmd == "hexdump".spec_bytes() || cmd == "head".spec_bytes() || cmd == "tail".spec_bytes()
        || cmd == "sort".spec_bytes() || cmd == "uniq".spec_bytes() || cmd == "env".spec_bytes()
}

/// A command that changes the file system: its output and the file system after it.
pub open spec fn fs_changing(cmd: Seq<u8>, args: Seq<u8>, cwd: Seq<Seq<u8>>, v: FsView) -> Option<(Seq<u8>, FsView)> {
    if cmd == "touch".spec_bytes() {
        Some(touch_spec(args, cwd, v))
    } else if cmd == "write".spec_bytes() {
        Some(write_spec(args, cwd, v))
    } else if cmd == "rm".spec_bytes() {
        Some(rm_spec(args, cwd, v))
    } else if cmd == "mkdir".spec_bytes() {
        Some(mkdir_spec(args, cwd, v))
    } else if cmd == "cp".spec_bytes() {
        Some(cp_spec(args, cwd, v))
    } else if cmd == "mv".spec_bytes() {
        Some(mv_spec(args, cwd, v))
    } else {
        None
    }
}

/// What one command does: its result, the working directory after it, the
/// shell's file system, environment and layout after it.
pub open spec fn command_outcome(
    cmd: Seq<u8>,
    args: Seq<u8>,
    cwd: Seq<Seq<u8>>,
    pipe: Option<Seq<u8>>,
    pre: (FsView, Map<Seq<u8>, Seq<u8>>, LayoutId),
    vars: Seq<EnvVar>,
    r: CommandResult,
    cwd2: Seq<Seq<u8>>,
    post: (FsView, Map<Seq<u8>, Seq<u8>>, LayoutId),
) -> bool {
    if cmd == "cd".spec_bytes() {
        output_is(r, Seq::empty()) && cwd2 == cd_spec(args, cwd, pre.0) && post == pre
    } else if system_command(cmd) is Some {
        system_is(r, system_command(cmd)->0) && cwd2 == cwd && post == pre
    } else if fs_changing(cmd, args, cwd, pre.0) is Some {
        let (o, v2) = fs_changing(cmd, args, cwd, pre.0)->0;
        output_is(r, o) && cwd2 == cwd && post == (v2, pre.1, pre.2)
    } else if cmd == "export".spec_bytes() {
        let (o, m2) = export_spec(args, pre.1);
        output_is(r, o) && cwd2 == cwd && post == (pre.0, m2, pre.2)
    } else if cmd == "keymap".spec_bytes() {
        let (o, l) = keymap_spec(args, pre.2);
        output_is(r, o) && cwd2 == cwd && post == (pre.0, pre.1, match l { Some(x) => x, None => pre.2 })
    } else {
        (r matches CommandResult::Output(o) && reading_result(cmd, args, cwd, pipe, pre.0, pre.1, vars, o@)) && cwd2 == cwd && post == pre
    }
}

pub open spec fn shell_view(s: &Shell) -> (FsView, Map<Seq<u8>, Seq<u8>>, LayoutId) {
    (s.fs.fs_view(), s.env.map(), s.layout)
}

fn is_name(cmd: &[u8], name: &str) -> (r: bool)
    ensures
        r == (cmd@ == name.spec_bytes()),
{
    bytes_eq(cmd, name.as_bytes())
}

/// Runs one command of a pipeline; `pipe_input` is the output of the one before it.
pub fn run_command(cmd: &[u8], args: &[u8], cwd: &mut Vec<Vec<u8>>, pipe_input: Option<&[u8]>, sh: &mut Shell) -> (r: CommandResult)
    requires
        old(sh).wf(),
    ensures
        final(sh).wf(),
        command_outcome(
            cmd@,
            args@,
            path_view(old(cwd)@),
            opt_view(pipe_input),
            shell_view(old(sh)),
            old(sh).env.vars_spec(),
            r,
            path_view(final(cwd)@),
            shell_view(final(sh)),
        ),
{
    if is_name(cmd, "cd") {
        cmd_cd(args, cwd, &sh.fs);
        return CommandResult::Output(Vec::new());
    }
    if is_name(cmd, "clear") {
        return CommandResult::System(SystemCommand::Clear);
    } else if is_name(cmd, "load") {
        return CommandResult::System(SystemCommand::Load);
    } else if is_name(cmd, "save") {
        return CommandResult::System(SystemCommand::Save);
    } else if is_name(cmd, "uptime") {
        return CommandResult::System(SystemCommand::Uptime);
    } else if is_name(cmd, "info") {
        return CommandResult::System(SystemCommand::Info);
    } else if is_name(cmd, "ps") {
        return CommandResult::System(SystemCommand::Ps);
    } else if is_name(cmd, "spawn") {
        return CommandResult::System(SystemCommand::Spawn);
    } else if is_name(cmd, "kill") {
        return CommandResult::System(SystemCommand::Kill);
    } else if is_name(cmd, "exec") {
        return CommandResult::System(SystemCommand::Exec);
    } else if is_name(cmd, "fatls") {
        return CommandResult::System(SystemCommand::Fatls);
    }
    if is_name(cmd, "touch") {
        return CommandResult::Output(cmd_touch(args, cwd, &mut sh.fs));
    } else if is_name(cmd, "write") {
        return CommandResult::Output(cmd_write(args, cwd, &mut sh.fs));
    } else if is_name(cmd, "rm") {
        return CommandResult::Output(cmd_rm(args, cwd, &mut sh.fs));
    } else if is_name(cmd, "mkdir") {
        return CommandResult::Output(cmd_mkdir(args, cwd, &mut sh.fs));
    } else if is_name(cmd, "cp") {
        return CommandResult::Output(cmd_cp(args, cwd, &mut sh.fs));
    } else if is_name(cmd, "mv") {
        return CommandResult::Output(cmd_mv(args, cwd, &mut sh.fs));
    }
    if is_name(cmd, "export") {
        return CommandResult::Output(cmd_export(args, &mut sh.env));
    }
    if is_name(cmd, "keymap") {
        let (o, l) = cmd_keymap(args, sh.layout);
        match l {
            Some(x) => { sh.layout = x; },
            None => {},
        }
        return CommandResult::Output(o);
    }
    let o = if is_name(cmd, "help") {
        cmd_help()
    } else if is_name(cmd, "echo") {
        cmd_echo(args)
    } else if is_name(cmd, "ls") {
        cmd_ls(cwd, &sh.fs)
    } else if is_name(cmd, "cat") {
        cmd_cat(args, cwd, &sh.fs)
    } else if is_name(cmd, "pwd") {
        cmd_pwd(cwd)
    } else if is_name(cmd, "grep") {
        cmd_grep(args, cwd, pipe_input, &sh.fs)
    } else if is_name(cmd, "wc") {
        cmd_wc(args, cwd, pipe_input, &sh.fs)
    } else if is_name(cmd, "hexdump") {
        cmd_hexdump(args, cwd, &sh.fs)
    } else if is_name(cmd, "head") {
        cmd_head(args, cwd, pipe_input, &sh.fs)
    } else if is_name(cmd, "tail") {
        cmd_tail(args, cwd, pipe_input, &sh.fs)
    } else if is_name(cmd, "sort") {
        cmd_sort(args, cwd, pipe_input, &sh.fs)
    } else if is_name(cmd, "uniq") {
        cmd_uniq(pipe_input)
    } else if is_name(cmd, "env") {
        cmd_env(&sh.env)
    } else {
        push_msg("Nieznana komenda: '", cmd, "'. Wpisz 'help' aby zobaczyc liste komend.")
    };
    CommandResult::Output(o)
}

/// The report `wc` gives of a text: its lines, its whitespace-separated
/// words and its bytes, counted.
pub open spec fn wc_report(t: Seq<u8>) -> Seq<u8> {
    "  ".spec_bytes() + dec(lines(t).len()) + " linii  ".spec_bytes() + dec(words(t).len()) + " slow  ".spec_bytes()
        + dec(t.len()) + " bajtow".spec_bytes()
}

/// `wc` counts the piped text when there is one; with no pipe, it counts the
/// contents of the file its first argument names (nothing, where they are not
/// UTF-8), reports a missing file by name, and without an argument shows how
/// it is used.
pub proof fn law_wc_counts(args: Seq<u8>, cwd: Seq<Seq<u8>>, v: FsView, t: Seq<u8>)
    ensures
        wc_spec(args, cwd, Some(t), v) == wc_report(t),
        match first_word(args) {
            Some(n) => if is_file_in(v, cwd.push(n)) {
                wc_spec(args, cwd, None, v) == wc_report(file_text(v, cwd, n))
            } else {
                wc_spec(args, cwd, None, v) == "Plik '".spec_bytes() + n + "' nie istnieje.".spec_bytes()
            },
            None => true,
        },
        first_word(args) is None ==> wc_spec(args, cwd, None, v) == "Uzycie: wc <plik>".spec_bytes(),
{
}

/// The contents a command reads from the file named `n`: the file's bytes
/// where they are UTF-8, else nothing.
pub open spec fn file_text(v: FsView, cwd: Seq<Seq<u8>>, n: Seq<u8>) -> Seq<u8> {
    let d = v[cwd.push(n)]->File_0;
    if vstd::utf8::valid_utf8(d) {
        d
    } else {
        Seq::empty()
    }
}

/// `grep`, `head`, `tail` and `sort` with no pipe read the file their
/// arguments name: each answers as if that file's text had been piped in.
pub proof fn law_commands_read_named_file(args: Seq<u8>, cwd: Seq<Seq<u8>>, v: FsView, r: Seq<u8>)
    ensures
        words(args).len() > 1 && is_file_in(v, cwd.push(words(args)[1])) ==> grep_spec(args, cwd, None, v)
            == grep_spec(args, cwd, Some(file_text(v, cwd, words(args)[1])), v),
        match n_args(args, 10).1 {
            Some(n) => is_file_in(v, cwd.push(n)) ==> {
                &&& head_spec(args, cwd, None, v) == head_spec(args, cwd, Some(file_text(v, cwd, n)), v)
                &&& tail_spec(args, cwd, None, v) == tail_spec(args, cwd, Some(file_text(v, cwd, n)), v)
            },
            None => true,
        },
        match first_word(args) {
            Some(n) => is_file_in(v, cwd.push(n)) ==> (sort_result(args, cwd, None, v, r) == sort_result(
                args,
                cwd,
                Some(file_text(v, cwd, n)),
                v,
                r,
            )),
            None => true,
        },
{
}

proof fn lemma_grep_lines(ls: Seq<Seq<u8>>, p: Seq<u8>)
    ensures
        forall|i: int| 0 <= i < grep_lines(ls, p).len() ==> has_sub(#[trigger] grep_lines(ls, p)[i], p)
            && ls.contains(grep_lines(ls, p)[i]),
        forall|j: int| 0 <= j < ls.len() && has_sub(#[trigger] ls[j], p) ==> grep_lines(ls, p).contains(ls[j]),
        grep_lines(ls, p).len() <= ls.len(),
    decreases ls.len(),
{
    if ls.len() > 0 {
        let d = ls.drop_last();
        lemma_grep_lines(d, p);
        let g = grep_lines(ls, p);
        let gd = grep_lines(d, p);
        assert forall|i: int| 0 <= i < g.len() implies has_sub(#[trigger] g[i], p) && ls.contains(g[i]) by {
            if i < gd.len() {
                assert(g[i] == gd[i]);
                let k = choose|k: int| 0 <= k < d.len() && d[k] == gd[i];
                assert(ls[k] == d[k]);
            } else {
                assert(g[i] == ls.last());
                assert(ls[ls.len() - 1] == ls.last());
            }
        }
        assert forall|j: int| 0 <= j < ls.len() && has_sub(#[trigger] ls[j], p) implies g.contains(ls[j]) by {
            if j < d.len() {
                assert(d[j] == ls[j]);
                assert(gd.contains(d[j]));
                let k = choose|k: int| 0 <= k < gd.len() && gd[k] == d[j];
                assert(g[k] == gd[k]);
            } else {
                assert(ls[j] == ls.last());
                assert(g[g.len() - 1] == ls.last());
            }
        }
    }
}

/// `grep` keeps exactly the lines that contain the pattern: every line it
/// shows holds the pattern and is a line of the text, and every line of the
/// text that holds the pattern is shown; where none does, it says so.
pub proof fn law_grep_selects(args: Seq<u8>, cwd: Seq<Seq<u8>>, v: FsView, t: Seq<u8>)
    requires
        words(args).len() > 0,
    ensures
        ({
            let p = words(args)[0];
            let g = grep_lines(lines(t), p);
            &&& forall|i: int| 0 <= i < g.len() ==> has_sub(#[trigger] g[i], p) && lines(t).contains(g[i])
            &&& forall|j: int| 0 <= j < lines(t).len() && has_sub(#[trigger] lines(t)[j], p) ==> g.contains(
                lines(t)[j],
            )
            &&& grep_spec(args, cwd, Some(t), v) == if join_lines(g).len() == 0 {
                "Brak wynikow dla '".spec_bytes() + p + "'.".spec_bytes()
            } else {
                join_lines(g)
            }
        }),
{
    lemma_grep_lines(lines(t), words(args)[0]);
}

/// `head` shows the first lines of the text, `tail` the last ones: as many as
/// asked for (10 unless `-n` says otherwise), or all where there are fewer.
pub proof fn law_head_tail_ends(args: Seq<u8>, cwd: Seq<Seq<u8>>, v: FsView, t: Seq<u8>)
    ensures
        ({
            let n = n_args(args, 10).0;
            let ls = lines(t);
            let k: int = if n < ls.len() { n as int } else { ls.len() as int };
            &&& head_spec(args, cwd, Some(t), v) == join_lines(ls.subrange(0, k))
            &&& tail_spec(args, cwd, Some(t), v) == join_lines(ls.subrange(ls.len() - k, ls.len() as int))
        }),
{
    let n = n_args(args, 10).0;
    let ls = lines(t);
    let k: int = if n < ls.len() { n as int } else { ls.len() as int };
    assert(ls.take(k) =~= ls.subrange(0, k));
    assert(ls.skip(ls.len() - k) =~= ls.subrange(ls.len() - k, ls.len() as int));
}

/// `hexdump` shows the named file in lines of 16 bytes: as many lines as it
/// takes to cover the file, line `i` starting with the offset `16 * i` in hex,
/// zero-padded to at least 8 digits, then two spaces, and ending with `|`.
pub proof fn law_hexdump_layout(args: Seq<u8>, cwd: Seq<Seq<u8>>, v: FsView)
    ensures
        match first_word(args) {
            Some(n) => is_file_in(v, cwd.push(n)) ==> {
                let d = v[cwd.push(n)]->File_0;
                let ls = hexdump_lines(d);
                &&& hexdump_spec(args, cwd, v) == join_lines(ls)
                &&& 16 * ls.len() >= d.len()
                &&& 16 * ls.len() < d.len() + 16
                &&& forall|i: int| 0 <= i < ls.len() ==> {
                    let a = pad_zero(hex((16 * i) as nat), 8);
                    &&& (#[trigger] ls[i]).subrange(0, a.len() as int) == a
                    &&& ls[i][a.len() as int] == 32u8
                    &&& ls[i][(a.len() + 1) as int] == 32u8
                    &&& ls[i].last() == 124u8
                }
            },
            None => hexdump_spec(args, cwd, v) == "Uzycie: hexdump <plik>".spec_bytes(),
        },
{
    if let Some(n) = first_word(args) {
        if is_file_in(v, cwd.push(n)) {
            let d = v[cwd.push(n)]->File_0;
            let ls = hexdump_lines(d);
            assert forall|i: int| 0 <= i < ls.len() implies {
                let a = pad_zero(hex((16 * i) as nat), 8);
                &&& (#[trigger] ls[i]).subrange(0, a.len() as int) == a
                &&& ls[i][a.len() as int] == 32u8
                &&& ls[i][(a.len() + 1) as int] == 32u8
                &&& ls[i].last() == 124u8
            } by {
                let a = pad_zero(hex((16 * i) as nat), 8);
                let c = chunk_of(d, i);
                let rest = seq![32u8, 32u8] + hex_cells(c, 16) + seq![32u8, 124u8] + shown_all(c) + seq![124u8];
                assert(ls[i] == hex_line((16 * i) as nat, c));
                assert(ls[i] =~= a + rest);
                assert(ls[i].subrange(0, a.len() as int) =~= a);
                assert(ls[i][a.len() as int] == rest[0]);
                assert(ls[i][(a.len() + 1) as int] == rest[1]);
            }
        }
    }
}

} // verus!


