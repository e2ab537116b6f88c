use polaros::drivers::keyboard::KeyEvent;
use polaros::fs::ramfs::RamFs;
use polaros::fs::FileSystem;
use polaros::shell::commands::{EnvVars, Shell, SystemCommand};
use polaros::shell::completion::{common_prefix, tab_complete};
use polaros::shell::{
    deliver, edit_line, input_text, parse_redirections, prepare_line, split_stages, CommandHistory,
    Delivery, EditAction, OutputMode, Pipeline, PipelineStep,
};

fn root() -> Vec<Vec<u8>> {
    Vec::new()
}

#[test]
fn history_recalls_lines_in_reverse() {
    let mut h = CommandHistory::new();
    assert_eq!(h.up(), None);
    h.push(b"ls");
    h.push(b"pwd");
    assert_eq!(h.up(), Some(&b"pwd"[..]));
    assert_eq!(h.up(), Some(&b"ls"[..]));
    assert_eq!(h.up(), Some(&b"ls"[..]));
    assert_eq!(h.down(), Some(&b"pwd"[..]));
    assert_eq!(h.down(), None);
    assert_eq!(h.down(), None);
}

#[test]
fn history_skips_repeats_and_keeps_sixteen() {
    let mut h = CommandHistory::new();
    h.push(b"same");
    h.push(b"same");
    assert_eq!(h.up(), Some(&b"same"[..]));
    assert_eq!(h.up(), Some(&b"same"[..]));
    assert_eq!(h.down(), None);
    let mut h = CommandHistory::new();
    for i in 0..20u8 {
        h.push(&[b'a' + i]);
    }
    for _ in 0..30 {
        h.up();
    }
    // the oldest kept line is the fifth one pushed
    assert_eq!(h.up(), Some(&[b'a' + 4][..]));
}

#[test]
fn redirections_are_split_off() {
    let (p, r) = parse_redirections(b"cat x > out.txt");
    assert_eq!(p, b"cat x ");
    assert!(r.input_file.is_none());
    assert!(matches!(r.output_mode, OutputMode::Write(ref f) if f == b"out.txt"));

    let (p, r) = parse_redirections(b"sort < in.txt >> log");
    assert_eq!(p, b"sort ");
    assert_eq!(r.input_file, Some(b"in.txt".to_vec()));
    assert!(matches!(r.output_mode, OutputMode::Append(ref f) if f == b"log"));

    let (p, r) = parse_redirections(b"wc < data");
    assert_eq!(p, b"wc ");
    assert_eq!(r.input_file, Some(b"data".to_vec()));
    assert!(matches!(r.output_mode, OutputMode::Print));

    let (p, r) = parse_redirections(b"echo a >");
    assert_eq!(p, b"echo a >");
    assert!(r.input_file.is_none());
    assert!(matches!(r.output_mode, OutputMode::Print));
}

#[test]
fn lines_are_expanded_and_trimmed() {
    let env = EnvVars::new();
    assert_eq!(prepare_line(b"  echo $OS  ", &env), Some(b"echo PolarOs".to_vec()));
    assert_eq!(prepare_line(b"echo ${SHELL}!", &env), Some(b"echo polarsh!".to_vec()));
    assert_eq!(prepare_line(b"echo [$NOPE]", &env), Some(b"echo []".to_vec()));
    assert_eq!(prepare_line(b"   ", &env), None);
    assert_eq!(prepare_line(b"$NOPE", &env), None);
}

#[test]
fn pipelines_split_into_stages() {
    let st = split_stages(b"cat a.txt | grep x |  | sort");
    let v: Vec<(Vec<u8>, Vec<u8>)> = st.into_iter().map(|s| (s.cmd, s.args)).collect();
    assert_eq!(
        v,
        vec![
            (b"cat".to_vec(), b"a.txt".to_vec()),
            (b"grep".to_vec(), b"x".to_vec()),
            (b"sort".to_vec(), b"".to_vec()),
        ]
    );
    assert!(split_stages(b"  ").is_empty());
}

#[test]
fn input_files_are_read() {
    let mut fs = RamFs::new();
    fs.write(&root(), b"in.txt", b"b\na\n");
    assert_eq!(input_text(&None, &root(), &fs), Ok(None));
    assert_eq!(input_text(&Some(b"in.txt".to_vec()), &root(), &fs), Ok(Some(b"b\na\n".to_vec())));
    assert_eq!(
        input_text(&Some(b"nope".to_vec()), &root(), &fs),
        Err(b"Plik wejsciowy 'nope' nie istnieje.".to_vec())
    );
}

#[test]
fn output_is_printed_written_or_appended() {
    let mut fs = RamFs::new();
    assert!(matches!(deliver(Vec::new(), &OutputMode::Print, &root(), &mut fs), Delivery::Nothing));
    assert!(matches!(deliver(b"hi".to_vec(), &OutputMode::Print, &root(), &mut fs), Delivery::Print(ref o) if o == b"hi"));
    let w = deliver(b"one".to_vec(), &OutputMode::Write(b"log".to_vec()), &root(), &mut fs);
    assert!(matches!(w, Delivery::Info(ref m) if m == b"Zapisano do 'log'."));
    let a = deliver(b"two".to_vec(), &OutputMode::Append(b"log".to_vec()), &root(), &mut fs);
    assert!(matches!(a, Delivery::Info(ref m) if m == b"Dopisano do 'log'."));
    assert_eq!(fs.read(&root(), b"log"), Some(&b"one\ntwo"[..]));
    let missing = vec![b"nodir".to_vec()];
    let f = deliver(b"x".to_vec(), &OutputMode::Write(b"log".to_vec()), &missing, &mut fs);
    assert!(matches!(f, Delivery::Failure(ref m) if m == b"Nie mozna zapisac do 'log'."));
    let f = deliver(b"x".to_vec(), &OutputMode::Append(b"log".to_vec()), &missing, &mut fs);
    assert!(matches!(f, Delivery::Failure(ref m) if m == b"Nie mozna dopisac do 'log'."));
}

#[test]
fn common_prefix_of_names() {
    assert_eq!(common_prefix(&vec![b"head".to_vec(), b"help".to_vec(), b"hexdump".to_vec()]), b"he".to_vec());
    assert_eq!(common_prefix(&vec![b"mkdir".to_vec()]), b"mkdir".to_vec());
    assert_eq!(common_prefix(&Vec::new()), Vec::<u8>::new());
}

#[test]
fn completion_of_commands_and_files() {
    let mut fs = RamFs::new();
    let (start, ms) = tab_complete(b"he", &root(), &fs);
    assert_eq!(start, 0);
    assert_eq!(ms, vec![b"help".to_vec(), b"hexdump".to_vec(), b"head".to_vec()]);
    fs.write(&root(), b"notes.txt", b"x");
    fs.write(&root(), b"numbers", b"1");
    fs.write(&root(), b"other", b"2");
    let (start, ms) = tab_complete(b"cat n", &root(), &fs);
    assert_eq!(start, 4);
    assert_eq!(ms, vec![b"notes.txt".to_vec(), b"numbers".to_vec()]);
    let (_, ms) = tab_complete(b"cat z", &root(), &fs);
    assert!(ms.is_empty());
}

fn key(buf: &mut Vec<u8>, k: KeyEvent, h: &mut CommandHistory, fs: &RamFs) -> EditAction {
    edit_line(buf, k, h, &root(), fs)
}

#[test]
fn line_editor_types_erases_and_completes() {
    let mut fs = RamFs::new();
    fs.write(&root(), b"notes.txt", b"x");
    let mut h = CommandHistory::new();
    let mut buf = Vec::new();
    assert!(matches!(key(&mut buf, KeyEvent::Char('\u{8}'), &mut h, &fs), EditAction::Nothing));
    assert!(matches!(key(&mut buf, KeyEvent::Char('m'), &mut h, &fs), EditAction::Echo(ref t) if t == b"m"));
    assert!(matches!(key(&mut buf, KeyEvent::Char('k'), &mut h, &fs), EditAction::Echo(_)));
    assert!(matches!(key(&mut buf, KeyEvent::Char('\t'), &mut h, &fs), EditAction::Echo(ref t) if t == b"dir"));
    assert_eq!(buf, b"mkdir".to_vec());
    assert!(matches!(key(&mut buf, KeyEvent::Char('\u{8}'), &mut h, &fs), EditAction::EraseLast));
    assert_eq!(buf, b"mkdi".to_vec());
    buf = b"cat no".to_vec();
    assert!(matches!(key(&mut buf, KeyEvent::Char('\t'), &mut h, &fs), EditAction::Echo(ref t) if t == b"tes.txt"));
    assert_eq!(buf, b"cat notes.txt".to_vec());
    buf = b"h".to_vec();
    assert!(matches!(key(&mut buf, KeyEvent::Char('\t'), &mut h, &fs), EditAction::Echo(ref t) if t == b"e"));
    assert!(matches!(key(&mut buf, KeyEvent::Char('\t'), &mut h, &fs), EditAction::ShowCandidates(ref c) if c.len() == 3));
    assert_eq!(buf, b"he".to_vec());
    assert!(matches!(key(&mut buf, KeyEvent::Char('\n'), &mut h, &fs), EditAction::Submit));
    assert!(matches!(key(&mut buf, KeyEvent::Char('\u{1}'), &mut h, &fs), EditAction::Nothing));
    let mut long = vec![b'a'; 256];
    assert!(matches!(key(&mut long, KeyEvent::Char('b'), &mut h, &fs), EditAction::Nothing));
    assert_eq!(long.len(), 256);
}

#[test]
fn line_editor_walks_the_history() {
    let fs = RamFs::new();
    let mut h = CommandHistory::new();
    h.push(b"ls");
    h.push(b"pwd");
    let mut buf = b"xy".to_vec();
    assert!(matches!(key(&mut buf, KeyEvent::ArrowUp, &mut h, &fs), EditAction::Redraw(2, ref t) if t == b"pwd"));
    assert_eq!(buf, b"pwd".to_vec());
    assert!(matches!(key(&mut buf, KeyEvent::ArrowUp, &mut h, &fs), EditAction::Redraw(3, ref t) if t == b"ls"));
    assert!(matches!(key(&mut buf, KeyEvent::ArrowDown, &mut h, &fs), EditAction::Redraw(2, ref t) if t == b"pwd"));
    assert!(matches!(key(&mut buf, KeyEvent::ArrowDown, &mut h, &fs), EditAction::Redraw(3, ref t) if t.is_empty()));
    assert!(buf.is_empty());
}

fn run_all(line: &str, sh: &mut Shell, cwd: &mut Vec<Vec<u8>>) -> Option<Vec<u8>> {
    let mut p = Pipeline::new(split_stages(line.as_bytes()), None);
    loop {
        match p.step(cwd, sh, false) {
            PipelineStep::Ran => {}
            PipelineStep::Done => return p.pipe,
            PipelineStep::Clear => panic!("clear outside a window"),
            PipelineStep::System(_) => return None,
        }
    }
}

#[test]
fn pipeline_feeds_each_stage_the_last_output() {
    let mut sh = Shell::new();
    let mut cwd = root();
    sh.fs.write(&root(), b"f.txt", b"pear\napple\npear\nfig\n");
    assert_eq!(run_all("cat f.txt | sort | uniq", &mut sh, &mut cwd), Some(b"apple\nfig\npear".to_vec()));
    assert_eq!(run_all("cat f.txt | grep pe | wc", &mut sh, &mut cwd), Some(b"  2 linii  2 slow  9 bajtow".to_vec()));
}

#[test]
fn pipeline_hands_system_commands_back() {
    let mut sh = Shell::new();
    let mut cwd = root();
    let mut p = Pipeline::new(split_stages(b"uptime | wc"), None);
    match p.step(&mut cwd, &mut sh, false) {
        PipelineStep::System(SystemCommand::Uptime) => {}
        _ => panic!("uptime is the kernel's to run"),
    }
    assert_eq!(p.next, 0);
    assert_eq!(p.current_args(), b"");
    p.supply(b"Uptime: 00:00:05".to_vec());
    assert_eq!(p.next, 1);
    assert!(matches!(p.step(&mut cwd, &mut sh, false), PipelineStep::Ran));
    assert_eq!(p.pipe, Some(b"  1 linii  2 slow  16 bajtow".to_vec()));
    assert!(matches!(p.step(&mut cwd, &mut sh, false), PipelineStep::Done));
    let mut q = Pipeline::new(split_stages(b"clear"), None);
    assert!(matches!(q.step(&mut cwd, &mut sh, true), PipelineStep::Clear));
    assert_eq!(q.pipe, Some(Vec::new()));
}
