use polaros::fs::ramfs::RamFs;
use polaros::fs::{FileSystem, RemoveResult};
use polaros::text::{
    bytes_eq, bytes_lt, contains_bytes, find_byte, first_word_of, join_lines_exec, parse_u64,
    pop_char, push_char, push_decimal, push_hex, push_padded, rfind_byte, rfind_sub, split_lines,
    split_once_at, split_words, starts_with_bytes, trim_bytes, utf8_valid,
};

fn words(s: &str) -> Vec<String> {
    split_words(s.as_bytes()).into_iter().map(|w| String::from_utf8(w).unwrap()).collect()
}

fn lines(s: &str) -> Vec<String> {
    split_lines(s.as_bytes()).into_iter().map(|w| String::from_utf8(w).unwrap()).collect()
}

#[test]
fn words_split_on_runs_of_spaces() {
    assert_eq!(words("  ls   -l  docs "), vec!["ls", "-l", "docs"]);
    assert_eq!(words(""), Vec::<String>::new());
    assert_eq!(words("\t\n "), Vec::<String>::new());
    assert_eq!(words("one"), vec!["one"]);
}

#[test]
fn words_split_on_unicode_whitespace() {
    // the same characters that str::split_whitespace splits on
    let text = "a\u{00A0}b\u{3000}c\u{2009}d\u{0085}e\u{1680}f\u{205F}g\u{2029}h";
    let expected: Vec<String> = text.split_whitespace().map(String::from).collect();
    assert_eq!(words(text), expected);
    assert_eq!(words(text).len(), 8);
    // zero-width space and non-space characters with similar bytes stay inside words
    assert_eq!(words("x\u{200B}y \u{00E0}\u{2030}"), vec!["x\u{200B}y", "\u{00E0}\u{2030}"]);
}

#[test]
fn trimming_unicode_whitespace() {
    for s in ["\u{3000} cd docs\u{00A0}\u{2003}", "\u{0085}\u{0085}", "\u{202F}x", "y\u{2028}", "\u{1680}"] {
        assert_eq!(trim_bytes(s.as_bytes()), s.trim().as_bytes());
    }
}

#[test]
fn lines_drop_carriage_returns_and_final_newline() {
    assert_eq!(lines("a\r\nb\nc"), vec!["a", "b", "c"]);
    assert_eq!(lines("a\n"), vec!["a"]);
    assert_eq!(lines("a\n\nb"), vec!["a", "", "b"]);
    assert_eq!(lines(""), Vec::<String>::new());
}

#[test]
fn joined_lines_put_newlines_between() {
    let ls = vec![b"x".to_vec(), b"".to_vec(), b"yz".to_vec()];
    assert_eq!(join_lines_exec(&ls), b"x\n\nyz".to_vec());
    assert_eq!(join_lines_exec(&Vec::new()), Vec::<u8>::new());
}

#[test]
fn trimming_and_splitting() {
    assert_eq!(trim_bytes(b"  hi there \n"), b"hi there");
    assert_eq!(trim_bytes(b"   "), b"");
    let (a, b) = split_once_at(b"name rest of it", b' ').unwrap();
    assert_eq!(a, b"name");
    assert_eq!(b, b"rest of it");
    assert!(split_once_at(b"single", b' ').is_none());
    assert_eq!(first_word_of(b"  cat file.txt"), Some(b"cat".to_vec()));
    assert_eq!(first_word_of(b"   "), None);
}

#[test]
fn searching_bytes() {
    assert_eq!(find_byte(b"a/b/c", 0, b'/'), 1);
    assert_eq!(find_byte(b"a/b/c", 2, b'/'), 3);
    assert_eq!(find_byte(b"abc", 0, b'/'), 3);
    assert_eq!(rfind_byte(b"a/b/c", b'/'), Some(3));
    assert_eq!(rfind_byte(b"abc", b'/'), None);
    assert_eq!(rfind_sub(b"abcabc", b"bc"), Some(4));
    assert_eq!(rfind_sub(b"abc", b"zz"), None);
    assert!(contains_bytes(b"hello world", b"o w"));
    assert!(!contains_bytes(b"hello", b"hello!"));
    assert!(starts_with_bytes(b"hello", b"he"));
    assert!(!starts_with_bytes(b"he", b"hello"));
}

#[test]
fn byte_string_comparison() {
    assert!(bytes_eq(b"abc", b"abc"));
    assert!(!bytes_eq(b"abc", b"abd"));
    assert!(bytes_lt(b"abc", b"abd"));
    assert!(bytes_lt(b"ab", b"abc"));
    assert!(!bytes_lt(b"abc", b"abc"));
    assert!(!bytes_lt(b"b", b"abc"));
}

#[test]
fn numbers_in_decimal_and_hex() {
    let mut out = b"n=".to_vec();
    push_decimal(&mut out, 0);
    out.push(b' ');
    push_decimal(&mut out, 18446744073709551615);
    assert_eq!(out, b"n=0 18446744073709551615".to_vec());
    let mut h = Vec::new();
    push_hex(&mut h, 255);
    h.push(b' ');
    push_hex(&mut h, 0);
    h.push(b' ');
    push_hex(&mut h, 0xdead_beef);
    assert_eq!(h, b"ff 0 deadbeef".to_vec());
    let mut p = Vec::new();
    push_padded(&mut p, b"7", 3);
    push_padded(&mut p, b"1234", 2);
    assert_eq!(p, b"0071234".to_vec());
}

#[test]
fn parsing_numbers() {
    assert_eq!(parse_u64(b"42"), Some(42));
    assert_eq!(parse_u64(b"+7"), Some(7));
    assert_eq!(parse_u64(b"18446744073709551615"), Some(u64::MAX));
    assert_eq!(parse_u64(b"18446744073709551616"), None);
    assert_eq!(parse_u64(b""), None);
    assert_eq!(parse_u64(b"+"), None);
    assert_eq!(parse_u64(b"-1"), None);
    assert_eq!(parse_u64(b"12a"), None);
}

#[test]
fn characters_in_utf8() {
    let mut out = Vec::new();
    push_char(&mut out, 'a');
    push_char(&mut out, 'ł');
    push_char(&mut out, '€');
    push_char(&mut out, '😀');
    assert_eq!(out, "ał€😀".as_bytes().to_vec());
    assert_eq!(String::from_utf8(out.clone()).unwrap(), "ał€😀");
    pop_char(&mut out);
    assert_eq!(out, "ał€".as_bytes().to_vec());
    pop_char(&mut out);
    pop_char(&mut out);
    assert_eq!(out, b"a".to_vec());
    pop_char(&mut out);
    pop_char(&mut out);
    assert!(out.is_empty());
}

fn root() -> Vec<Vec<u8>> {
    Vec::new()
}

#[test]
fn ramfs_read_after_write() {
    let mut fs = RamFs::new();
    assert!(fs.write(&root(), b"a.txt", b"hello"));
    assert_eq!(fs.read(&root(), b"a.txt"), Some(&b"hello"[..]));
    assert!(fs.write(&root(), b"a.txt", b"bye"));
    assert_eq!(fs.read(&root(), b"a.txt"), Some(&b"bye"[..]));
    assert_eq!(fs.read(&root(), b"b.txt"), None);
}

#[test]
fn ramfs_create_mkdir_and_remove() {
    let mut fs = RamFs::new();
    assert!(fs.create(&root(), b"f"));
    assert!(!fs.create(&root(), b"f"));
    assert!(fs.mkdir(&root(), b"d"));
    assert!(!fs.mkdir(&root(), b"d"));
    assert!(fs.is_dir(&root(), b"d"));
    assert!(!fs.is_dir(&root(), b"f"));
    let d = vec![b"d".to_vec()];
    assert!(fs.write(&d, b"inner", b"x"));
    assert_eq!(fs.remove(&root(), b"d"), RemoveResult::DirNotEmpty);
    assert_eq!(fs.remove(&d, b"inner"), RemoveResult::Removed);
    assert_eq!(fs.remove(&root(), b"d"), RemoveResult::Removed);
    assert_eq!(fs.remove(&root(), b"d"), RemoveResult::NotFound);
    assert!(fs.entry_exists(&root(), b"f"));
    assert!(!fs.entry_exists(&root(), b"d"));
    let missing = vec![b"nope".to_vec()];
    assert!(!fs.write(&missing, b"x", b"y"));
    assert!(fs.list(&missing).is_none());
}

#[test]
fn ramfs_lists_in_name_order() {
    let mut fs = RamFs::new();
    fs.write(&root(), b"zeta", b"123");
    fs.mkdir(&root(), b"alpha");
    fs.create(&root(), b"mid");
    let l = fs.list(&root()).unwrap();
    let names: Vec<Vec<u8>> = l.iter().map(|e| e.name.clone()).collect();
    assert_eq!(names, vec![b"alpha".to_vec(), b"mid".to_vec(), b"zeta".to_vec()]);
    assert!(l[0].is_dir);
    assert_eq!(l[2].size, 3);
    assert_eq!(fs.names(&root()), names);
}

#[test]
fn ramfs_image_round_trip() {
    let mut fs = RamFs::new();
    fs.write(&root(), b"a.txt", b"hello");
    fs.mkdir(&root(), b"docs");
    let d = vec![b"docs".to_vec()];
    fs.write(&d, b"b.txt", b"inner text");
    let img = fs.serialize();
    let back = RamFs::load_from(&img).unwrap();
    assert_eq!(back.read(&root(), b"a.txt"), Some(&b"hello"[..]));
    assert_eq!(back.read(&d, b"b.txt"), Some(&b"inner text"[..]));
    assert!(back.is_dir(&root(), b"docs"));
    assert_eq!(back.serialize(), img);
    assert!(RamFs::load_from(b"garbage").is_none());
}

#[test]
fn ramfs_image_bytes() {
    assert_eq!(RamFs::new().serialize(), vec![0, 0]);
    let mut fs = RamFs::new();
    fs.mkdir(&root(), b"d");
    fs.write(&root(), b"a", b"xy");
    assert_eq!(fs.serialize(), vec![2, 0, 0, 1, b'a', 2, 0, 0, 0, b'x', b'y', 1, 1, b'd', 0, 0]);
}

#[test]
fn sample_files_are_written_at_start() {
    let mut fs = RamFs::new();
    polaros::fs::init(&mut fs);
    assert_eq!(fs.read(&root(), b"hello.txt"), Some(&b"Hello, World!"[..]));
    assert_eq!(
        fs.read(&root(), b"version.txt"),
        Some(&b"PolarOs v0.1.0\nArchitektura: x86_64\nJezyk: Rust"[..])
    );
    assert!(fs.read(&root(), b"readme.txt").unwrap().starts_with(b"Witaj w PolarOs v0.1.0!\n"));
    assert!(fs.is_dir(&root(), b"docs"));
    let docs = vec![b"docs".to_vec()];
    assert_eq!(fs.read(&docs, b"info.txt"), Some(&b"Katalog z dokumentacja systemu."[..]));
}

#[test]
fn utf8_validity_matches_std() {
    let cases: Vec<&[u8]> = vec![
        b"",
        b"plain",
        "\u{017C}\u{00F3}\u{0142}w \u{20AC} \u{1F600}".as_bytes(),
        &[0xC0, 0x80],             // overlong
        &[0xED, 0xA0, 0x80],       // surrogate
        &[0xF4, 0x90, 0x80, 0x80], // above U+10FFFF
        &[0xE2, 0x82],             // cut short
        &[0x80],                   // stray continuation
        &[0xF0, 0x9F, 0x98, 0x80, 0x41],
    ];
    for c in cases {
        assert_eq!(utf8_valid(c), core::str::from_utf8(c).is_ok(), "{:?}", c);
    }
}
