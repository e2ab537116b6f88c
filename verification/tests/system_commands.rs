use polaros::shell::system::{
    assemble_image, cmd_fatls, cmd_info, cmd_kill, cmd_ps, cmd_spawn, cmd_uptime, disk_error_report, disk_image,
    elf_error_report, elf_started_report, exec_target, fat_listing_ok, finish_load, load_header,
    program_missing_report, save_report, sectors_after_header, spawn_report, tick_status, user_started_report,
    DemoTask, DiskError, ExecTarget, FmtBuf,
};
use polaros::kernel::task::scheduler::{Scheduler, TaskState, TASK_STACK_SIZE};
use polaros::fs::ramfs::RamFs;
use polaros::fs::FileSystem;

fn s(v: Vec<u8>) -> String {
    String::from_utf8(v).unwrap()
}

#[test]
fn uptime_formats_hours_minutes_seconds() {
    assert_eq!(s(cmd_uptime(0)), "Uptime: 0h 00m 00s (0 tickow @ 100Hz)");
    assert_eq!(s(cmd_uptime(366100)), "Uptime: 1h 01m 01s (366100 tickow @ 100Hz)");
}

#[test]
fn status_clock_ticks_each_second() {
    assert_eq!(tick_status(100).map(s), Some(String::from(" 0h 00m 01s ")));
    assert_eq!(tick_status(150), None);
}

#[test]
fn info_reports_heap_and_disk() {
    let text = s(cmd_info(2048, 2048, true));
    assert!(text.starts_with("=== Informacje systemowe ===\n  System:        PolarOs v0.1.0\n"));
    assert!(text.contains("  Heap:          2/4 KiB\n"));
    assert!(text.ends_with("  Dysk ATA:      dostepny"));
    assert!(s(cmd_info(0, 0, false)).ends_with("  Dysk ATA:      niedostepny"));
}

#[test]
fn ps_lists_tasks() {
    let sched = Scheduler::new();
    assert_eq!(s(cmd_ps(&sched)), "  ID  STAN         NAZWA\n    0 Running      kernel");
}

#[test]
fn kill_parses_and_reports() {
    let mut sched = Scheduler::new();
    assert_eq!(s(cmd_kill(b"", &mut sched)), "Uzycie: kill <id>");
    assert_eq!(s(cmd_kill(b"abc", &mut sched)), "Nieprawidlowy ID: 'abc'");
    assert_eq!(s(cmd_kill(b"0", &mut sched)), "Nie mozna zabic taska jadra (ID=0).");
    assert_eq!(s(cmd_kill(b"5", &mut sched)), "Nie znaleziono aktywnego taska o ID=5.");
    let id = sched.spawn("demo", vec![0u8; TASK_STACK_SIZE], 16384, 0x1000, 0x2000);
    assert_eq!(id.0, 1);
    assert_eq!(sched.task_list().len(), 2);
    assert_eq!(s(cmd_kill(b"1", &mut sched)), "Zakonczono task ID=1.");
    assert_eq!(sched.task_list().len(), 1);
    assert!(sched.task_list()[0].state == TaskState::Running);
}

#[test]
fn spawn_picks_a_demo() {
    assert!(matches!(cmd_spawn(b""), Ok(DemoTask::Counter)));
    assert!(matches!(cmd_spawn(b"hello"), Ok(DemoTask::Hello)));
    match cmd_spawn(b"other") {
        Err(m) => assert_eq!(s(m), "Dostepne demo taski: counter, hello"),
        Ok(_) => panic!("a demo for an unknown name"),
    }
    assert_eq!(s(spawn_report(DemoTask::Counter, 3)), "Uruchomiono task 'counter' (ID=3)");
}

#[test]
fn exec_picks_a_program() {
    assert!(matches!(exec_target(b"hello"), ExecTarget::UserHello));
    assert!(matches!(exec_target(b"counter x"), ExecTarget::UserCounter));
    match exec_target(b"prog.elf") {
        ExecTarget::Program(n) => assert_eq!(n, b"prog.elf".to_vec()),
        _ => panic!("a built-in for a file name"),
    }
    assert_eq!(s(user_started_report(true, 4)), "Uruchomiono user program 'hello' (ID=4)");
    assert_eq!(s(elf_started_report(b"p", 7)), "Uruchomiono ELF 'p' (ID=7)");
    assert_eq!(s(elf_error_report("Not 64-bit ELF")), "Blad ladowania ELF: Not 64-bit ELF");
    assert_eq!(
        s(program_missing_report(b"zz")),
        "Nie znaleziono programu 'zz'. Dostepne wbudowane: hello, counter"
    );
}

#[test]
fn fatls_formats_listing() {
    let empty: Vec<Vec<u8>> = Vec::new();
    assert_eq!(s(cmd_fatls(&empty)), "(brak plikow lub blad odczytu)");
    let files = vec![b"A.TXT (3 b)".to_vec(), b"DIR/".to_vec()];
    assert_eq!(s(cmd_fatls(&files)), "Pliki na dysku FAT (root):\n  A.TXT (3 b)\n  DIR/");
    assert!(fat_listing_ok(&files));
    assert!(!fat_listing_ok(&vec![b"ATA Read Error".to_vec()]));
    assert!(!fat_listing_ok(&vec![b"Not valid FAT32 (invalid sector size)".to_vec()]));
    assert!(!fat_listing_ok(&empty));
}

#[test]
fn save_then_load_restores_the_file_system() {
    let mut fs = RamFs::new();
    fs.mkdir(&[], b"docs");
    fs.write(&[b"docs".to_vec()], b"info.txt", &vec![b'x'; 1000]);
    fs.write(&[], b"a.txt", b"hello");
    let data = fs.serialize();
    let sectors = disk_image(&data);
    assert!(sectors.iter().all(|sec| sec.len() == 512));
    assert_eq!(&sectors[0][0..4], b"PLRS");
    let total = match load_header(&sectors[0]) {
        Ok(n) => n,
        Err(_) => panic!("header refused"),
    };
    assert_eq!(total, data.len());
    assert_eq!(sectors_after_header(total), sectors.len() - 1);
    let rest: Vec<Vec<u8>> = sectors[1..].to_vec();
    let back = assemble_image(&sectors[0], &rest, total);
    assert_eq!(back, data);
    let mut target = RamFs::new();
    let mut cwd = vec![b"somewhere".to_vec()];
    let msg = finish_load(&back, &mut target, &mut cwd);
    assert_eq!(s(msg), format!("Wczytano system plikow ({} bajtow).", data.len()));
    assert!(cwd.is_empty());
    assert_eq!(target.read(&[], b"a.txt"), Some(&b"hello"[..]));
    assert_eq!(target.read(&[b"docs".to_vec()], b"info.txt").map(|d| d.len()), Some(1000));
}

#[test]
fn load_refuses_a_disk_without_image() {
    let sector = vec![0u8; 512];
    match load_header(&sector) {
        Err(m) => assert_eq!(s(m), "Brak zapisanego systemu plikow na dysku."),
        Ok(_) => panic!("an image on an empty disk"),
    }
    let mut fs = RamFs::new();
    let mut cwd = Vec::new();
    assert_eq!(s(finish_load(&[1, 2, 3], &mut fs, &mut cwd)), "Uszkodzone dane na dysku.");
}

#[test]
fn save_reports_progress() {
    assert_eq!(s(save_report(10, 1, 1)), "Zapisano 10 bajtow (1 sektorow).");
    assert_eq!(s(save_report(10, 3, 0)), "Blad zapisu naglowka.");
    assert_eq!(s(save_report(10, 3, 2)), "Blad zapisu sektora 2050.");
    assert_eq!(s(disk_error_report(DiskError::Unavailable)), "Dysk ATA niedostepny.");
    assert_eq!(s(disk_error_report(DiskError::HeaderRead)), "Blad odczytu naglowka.");
    assert_eq!(s(disk_error_report(DiskError::SectorRead(2049))), "Blad odczytu sektora 2049.");
}

#[test]
fn small_image_fits_the_header() {
    let data = vec![7u8; 10];
    let sectors = disk_image(&data);
    assert_eq!(sectors.len(), 1);
    assert_eq!(&sectors[0][4..8], &[10, 0, 0, 0]);
    assert_eq!(&sectors[0][8..18], &data[..]);
    assert!(sectors[0][18..].iter().all(|b| *b == 0));
}

#[test]
fn fmt_buf_drops_what_does_not_fit() {
    let mut b = FmtBuf::new();
    b.write_str(&[b'a'; 30]);
    b.write_str(&[b'b'; 30]);
    assert_eq!(b.as_bytes().len(), 40);
    assert_eq!(&b.as_bytes()[28..32], b"aabb");
}
