use polaros::fs::FileSystem;
use polaros::shell::commands::{run_command, cmd_help, command_names, expand_env_vars, CommandResult, EnvVars, Shell, SystemCommand};
use polaros::drivers::keyboard::LayoutId;

fn out(r: CommandResult) -> String {
    match r {
        CommandResult::Output(o) => String::from_utf8(o).unwrap(),
        CommandResult::System(_) => panic!("a command for the kernel where output was expected"),
    }
}

fn run(sh: &mut Shell, cwd: &mut Vec<Vec<u8>>, cmd: &str, args: &str) -> String {
    out(run_command(cmd.as_bytes(), args.as_bytes(), cwd, None, sh))
}

fn run_piped(sh: &mut Shell, cwd: &mut Vec<Vec<u8>>, cmd: &str, args: &str, pipe: &str) -> String {
    out(run_command(cmd.as_bytes(), args.as_bytes(), cwd, Some(pipe.as_bytes()), sh))
}

#[test]
fn echo_returns_its_arguments() {
    let mut sh = Shell::new();
    let mut cwd = Vec::new();
    assert_eq!(run(&mut sh, &mut cwd, "echo", "hello world"), "hello world");
}

#[test]
fn touch_creates_once() {
    let mut sh = Shell::new();
    let mut cwd = Vec::new();
    assert_eq!(run(&mut sh, &mut cwd, "touch", "a.txt"), "Utworzono plik 'a.txt'.");
    assert_eq!(run(&mut sh, &mut cwd, "touch", "a.txt"), "'a.txt' juz istnieje.");
    assert_eq!(run(&mut sh, &mut cwd, "touch", ""), "Uzycie: touch <nazwa_pliku>");
}

#[test]
fn write_then_cat_gives_the_text() {
    let mut sh = Shell::new();
    let mut cwd = Vec::new();
    assert_eq!(run(&mut sh, &mut cwd, "write", "notes.txt hello there"), "Zapisano 11 bajtow do 'notes.txt'.");
    assert_eq!(run(&mut sh, &mut cwd, "cat", "notes.txt"), "hello there");
    assert_eq!(run(&mut sh, &mut cwd, "cat", "missing.txt"), "Plik 'missing.txt' nie istnieje.");
    assert_eq!(run(&mut sh, &mut cwd, "cat", ""), "Uzycie: cat <nazwa_pliku>");
    assert_eq!(run(&mut sh, &mut cwd, "write", "onlyname"), "Uzycie: write <nazwa_pliku> <tekst>");
}

#[test]
fn ls_lists_in_name_order() {
    let mut sh = Shell::new();
    let mut cwd = Vec::new();
    assert_eq!(run(&mut sh, &mut cwd, "ls", ""), "(pusty katalog)");
    run(&mut sh, &mut cwd, "write", "notes.txt hello there");
    run(&mut sh, &mut cwd, "mkdir", "docs");
    run(&mut sh, &mut cwd, "touch", "a.txt");
    assert_eq!(run(&mut sh, &mut cwd, "ls", ""), "  a.txt (0 bajtow)\n  docs/\n  notes.txt (11 bajtow)");
}

#[test]
fn cd_and_pwd_follow_directories() {
    let mut sh = Shell::new();
    let mut cwd = Vec::new();
    assert_eq!(run(&mut sh, &mut cwd, "mkdir", "docs"), "Utworzono katalog 'docs'.");
    assert_eq!(run(&mut sh, &mut cwd, "mkdir", "docs"), "'docs' juz istnieje.");
    assert_eq!(run(&mut sh, &mut cwd, "cd", "docs"), "");
    assert_eq!(run(&mut sh, &mut cwd, "pwd", ""), "/docs");
    run(&mut sh, &mut cwd, "mkdir", "deep");
    run(&mut sh, &mut cwd, "cd", "deep");
    assert_eq!(run(&mut sh, &mut cwd, "pwd", ""), "/docs/deep");
    run(&mut sh, &mut cwd, "cd", "nowhere");
    assert_eq!(run(&mut sh, &mut cwd, "pwd", ""), "/docs/deep");
    run(&mut sh, &mut cwd, "cd", "..");
    assert_eq!(run(&mut sh, &mut cwd, "pwd", ""), "/docs");
    run(&mut sh, &mut cwd, "cd", "/");
    assert_eq!(run(&mut sh, &mut cwd, "pwd", ""), "/");
}

#[test]
fn rm_refuses_missing_and_nonempty() {
    let mut sh = Shell::new();
    let mut cwd = Vec::new();
    run(&mut sh, &mut cwd, "mkdir", "docs");
    run(&mut sh, &mut cwd, "cd", "docs");
    run(&mut sh, &mut cwd, "touch", "x");
    run(&mut sh, &mut cwd, "cd", "..");
    assert_eq!(run(&mut sh, &mut cwd, "rm", "nothing"), "'nothing' nie istnieje.");
    assert_eq!(run(&mut sh, &mut cwd, "rm", "docs"), "Katalog 'docs' nie jest pusty.");
    run(&mut sh, &mut cwd, "touch", "a.txt");
    assert_eq!(run(&mut sh, &mut cwd, "rm", "a.txt"), "Usunieto 'a.txt'.");
    assert_eq!(run(&mut sh, &mut cwd, "cat", "a.txt"), "Plik 'a.txt' nie istnieje.");
}

#[test]
fn cp_and_mv_move_contents() {
    let mut sh = Shell::new();
    let mut cwd = Vec::new();
    run(&mut sh, &mut cwd, "write", "src.txt data");
    assert_eq!(run(&mut sh, &mut cwd, "cp", "src.txt copy.txt"), "Skopiowano 'src.txt' -> 'copy.txt'.");
    assert_eq!(run(&mut sh, &mut cwd, "cat", "copy.txt"), "data");
    assert_eq!(run(&mut sh, &mut cwd, "mv", "copy.txt moved.txt"), "Przeniesiono 'copy.txt' -> 'moved.txt'.");
    assert_eq!(run(&mut sh, &mut cwd, "cat", "moved.txt"), "data");
    assert_eq!(run(&mut sh, &mut cwd, "cat", "copy.txt"), "Plik 'copy.txt' nie istnieje.");
    assert_eq!(run(&mut sh, &mut cwd, "cp", "nope.txt x"), "Plik 'nope.txt' nie istnieje.");
    assert_eq!(run(&mut sh, &mut cwd, "mv", "single"), "Uzycie: mv <zrodlo> <cel>");
}

#[test]
fn grep_filters_lines() {
    let mut sh = Shell::new();
    let mut cwd = Vec::new();
    assert_eq!(run_piped(&mut sh, &mut cwd, "grep", "b", "abc\nxyz\nbcd"), "abc\nbcd");
    assert_eq!(run_piped(&mut sh, &mut cwd, "grep", "q", "abc"), "Brak wynikow dla 'q'.");
    assert_eq!(run(&mut sh, &mut cwd, "grep", ""), "Uzycie: grep <wzorzec> [plik]");
    assert_eq!(run(&mut sh, &mut cwd, "grep", "x"), "Uzycie: grep <wzorzec> <plik>");
}

#[test]
fn wc_counts_lines_words_bytes() {
    let mut sh = Shell::new();
    let mut cwd = Vec::new();
    assert_eq!(run_piped(&mut sh, &mut cwd, "wc", "", "one two\nthree"), "  2 linii  3 slow  13 bajtow");
}

#[test]
fn head_and_tail_take_ends() {
    let mut sh = Shell::new();
    let mut cwd = Vec::new();
    assert_eq!(run_piped(&mut sh, &mut cwd, "head", "-n 2", "a\nb\nc"), "a\nb");
    assert_eq!(run_piped(&mut sh, &mut cwd, "tail", "-n 2", "a\nb\nc"), "b\nc");
    assert_eq!(run_piped(&mut sh, &mut cwd, "head", "", "a\nb\nc"), "a\nb\nc");
    assert_eq!(run(&mut sh, &mut cwd, "tail", ""), "Uzycie: tail [-n N] <plik>");
}

#[test]
fn sort_and_uniq_work_on_lines() {
    let mut sh = Shell::new();
    let mut cwd = Vec::new();
    assert_eq!(run_piped(&mut sh, &mut cwd, "sort", "", "b\na\nc\na"), "a\na\nb\nc");
    assert_eq!(run_piped(&mut sh, &mut cwd, "uniq", "", "a\na\nb\na"), "a\nb\na");
    assert_eq!(run(&mut sh, &mut cwd, "uniq", ""), "uniq wymaga danych z pipe (np. sort plik | uniq)");
}

#[test]
fn hexdump_shows_offsets_bytes_and_text() {
    let mut sh = Shell::new();
    let mut cwd = Vec::new();
    run(&mut sh, &mut cwd, "write", "hex.txt AB");
    let expected = format!("00000000  41 42 {} |AB|", " ".repeat(43));
    assert_eq!(run(&mut sh, &mut cwd, "hexdump", "hex.txt"), expected);
    assert_eq!(run(&mut sh, &mut cwd, "hexdump", "none"), "Plik 'none' nie istnieje.");
    assert_eq!(run(&mut sh, &mut cwd, "hexdump", ""), "Uzycie: hexdump <plik>");
}

#[test]
fn hexdump_splits_into_lines_of_sixteen() {
    let mut sh = Shell::new();
    let mut cwd = Vec::new();
    run(&mut sh, &mut cwd, "write", "long.txt 0123456789abcdefXY");
    let text = run(&mut sh, &mut cwd, "hexdump", "long.txt");
    let lines: Vec<&str> = text.split('\n').collect();
    assert_eq!(lines.len(), 2);
    assert_eq!(lines[0], "00000000  30 31 32 33 34 35 36 37  38 39 61 62 63 64 65 66  |0123456789abcdef|");
    assert!(lines[1].starts_with("00000010  58 59 "));
    assert!(lines[1].ends_with(" |XY|"));
}

#[test]
fn env_lists_in_key_order() {
    let mut sh = Shell::new();
    let mut cwd = Vec::new();
    assert_eq!(run(&mut sh, &mut cwd, "env", ""), "HOME=/\nOS=PolarOs\nPATH=/\nSHELL=polarsh");
}

#[test]
fn export_sets_and_shows_variables() {
    let mut sh = Shell::new();
    let mut cwd = Vec::new();
    assert_eq!(run(&mut sh, &mut cwd, "export", " FOO = bar "), "FOO=bar");
    assert_eq!(run(&mut sh, &mut cwd, "export", "FOO"), "FOO=bar");
    assert_eq!(run(&mut sh, &mut cwd, "export", "NOPE"), "Zmienna 'NOPE' nie istnieje.");
    assert_eq!(run(&mut sh, &mut cwd, "export", "=x"), "Uzycie: export KLUCZ=WARTOSC");
    assert_eq!(run(&mut sh, &mut cwd, "env", ""), "FOO=bar\nHOME=/\nOS=PolarOs\nPATH=/\nSHELL=polarsh");
}

#[test]
fn keymap_shows_and_switches_layouts() {
    let mut sh = Shell::new();
    let mut cwd = Vec::new();
    assert_eq!(run(&mut sh, &mut cwd, "keymap", ""), "Aktualny layout: us\nDostepne: us, uk, de, fr, dvorak, colemak");
    assert_eq!(run(&mut sh, &mut cwd, "keymap", "de"), "Layout zmieniony na: de");
    assert!(sh.layout == LayoutId::De105);
    assert_eq!(run(&mut sh, &mut cwd, "keymap", "azerty"), "Layout zmieniony na: fr");
    assert_eq!(
        run(&mut sh, &mut cwd, "keymap", "xx"),
        "Nieznany layout 'xx'. Dostepne: us, uk, de, fr, dvorak, colemak"
    );
    assert!(sh.layout == LayoutId::Azerty);
}

#[test]
fn unknown_command_is_reported() {
    let mut sh = Shell::new();
    let mut cwd = Vec::new();
    assert_eq!(
        run(&mut sh, &mut cwd, "foo", ""),
        "Nieznana komenda: 'foo'. Wpisz 'help' aby zobaczyc liste komend."
    );
}

#[test]
fn kernel_commands_go_to_the_caller() {
    let mut sh = Shell::new();
    let mut cwd = Vec::new();
    let cases = [
        ("clear", SystemCommand::Clear),
        ("load", SystemCommand::Load),
        ("save", SystemCommand::Save),
        ("uptime", SystemCommand::Uptime),
        ("info", SystemCommand::Info),
        ("ps", SystemCommand::Ps),
        ("spawn", SystemCommand::Spawn),
        ("kill", SystemCommand::Kill),
        ("exec", SystemCommand::Exec),
        ("fatls", SystemCommand::Fatls),
    ];
    for (name, expected) in cases.iter() {
        match run_command(name.as_bytes(), b"", &mut cwd, None, &mut sh) {
            CommandResult::System(c) => assert!(c == *expected),
            CommandResult::Output(_) => panic!("output for a kernel command"),
        }
    }
}

#[test]
fn help_lists_every_command() {
    let text = String::from_utf8(cmd_help()).unwrap();
    assert!(text.starts_with("Dostepne komendy:\n  help            - Wyswietl te pomoc\n  echo            - Wyswietl tekst\n"));
    assert!(text.ends_with("  keymap          - Pokaz/zmien layout klawiatury\nPipe: cmd1 | cmd2   Redirect: cmd > plik, >> plik, < plik"));
    assert_eq!(command_names().len(), 32);
    assert_eq!(command_names()[15].name, "hexdump");
}

#[test]
fn variables_expand_in_both_forms() {
    let env = EnvVars::new();
    assert_eq!(expand_env_vars(b"$HOME and ${OS}", &env), b"/ and PolarOs".to_vec());
    assert_eq!(expand_env_vars(b"x$NOPE!", &env), b"x!".to_vec());
    assert_eq!(expand_env_vars(b"cost $", &env), b"cost ".to_vec());
}

#[test]
fn cat_shows_binary_files_as_such() {
    let mut sh = Shell::new();
    let mut cwd = Vec::new();
    sh.fs.write(&cwd, b"bin", &[0xff, 0x41, 0xc5]);
    assert_eq!(run(&mut sh, &mut cwd, "cat", "bin"), "<dane binarne>");
    sh.fs.write(&cwd, b"ok", "zażółć".as_bytes());
    assert_eq!(run(&mut sh, &mut cwd, "cat", "ok"), "zażółć");
}

#[test]
fn variable_names_take_unicode_letters_and_digits() {
    let env = EnvVars::new();
    // 'ą' and '٣' are alphanumeric, so they belong to the name, which is not set
    assert_eq!(expand_env_vars("$HOMEą/x".as_bytes(), &env), b"/x".to_vec());
    assert_eq!(expand_env_vars("[$HOME\u{0663}]".as_bytes(), &env), b"[]".to_vec());
    // '€' and a non-breaking space are not, so the name ends before them
    assert_eq!(expand_env_vars("$HOME€".as_bytes(), &env), "/€".as_bytes().to_vec());
    assert_eq!(expand_env_vars("$OS\u{00A0}!".as_bytes(), &env), "PolarOs\u{00A0}!".as_bytes().to_vec());
}
