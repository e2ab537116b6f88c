use polaros::drivers::keyboard::{
    add_scancode, current_layout, gui_event_for_key, key_event_for, layout_from_name, layout_name,
    polar_layout_choice, set_layout, DecodedKey, KeyEvent, LayoutChoice, LayoutId, RawKey, ScancodeBuffer,
};
use polaros::drivers::mouse::{handle_byte, MouseState};
use polaros::fs::fat::{
    cluster_to_lba, file_contents, find_root_entry, layout_fits_check, list_root_files, listing_error, parse_layout,
    read_file, root_listing, FileRead, FileReadStep, RootListStep,
};
use polaros::fs::ramfs::RamFs;
use polaros::fs::FileSystem;
use polaros::gui::event::{Event, KeyCode, MouseButton};
use polaros::kernel::elf::{check_elf_header, plan_segment, segment_fits, LoadSegment};
use polaros::kernel::memory::{FrameCursor, MemoryRegion};
use polaros::kernel::syscall::{
    counter_line, decode_syscall, hello_program, parse_file_path, pid_line, run_user_counter, run_user_hello, sys_getpid,
    sys_stat, sys_write, FdTable, Syscall, UserCall, SYS_ERROR,
};
use polaros::kernel::task::context::Context;
use polaros::kernel::task::scheduler::{Scheduler, TaskId, TaskState, TASK_STACK_SIZE};
use polaros::kernel::timer::Timer;

#[test]
fn syscall_numbers_decode() {
    assert_eq!(decode_syscall(0), Some(Syscall::Exit));
    assert_eq!(decode_syscall(1), Some(Syscall::Write));
    assert_eq!(decode_syscall(3), Some(Syscall::GetPid));
    assert_eq!(decode_syscall(7), Some(Syscall::Stat));
    assert_eq!(decode_syscall(8), None);
    assert_eq!(decode_syscall(u64::MAX), None);
}

#[test]
fn paths_split_into_directories_and_name() {
    assert_eq!(parse_file_path(b"/docs/info.txt"), (vec![b"docs".to_vec()], b"info.txt".to_vec()));
    assert_eq!(parse_file_path(b"a.txt"), (Vec::new(), b"a.txt".to_vec()));
    assert_eq!(parse_file_path(b"//x//y/"), (vec![b"x".to_vec()], b"y".to_vec()));
    assert_eq!(parse_file_path(b"/"), (Vec::new(), Vec::new()));
}

fn sample_fs() -> RamFs {
    let mut fs = RamFs::new();
    fs.mkdir(&Vec::new(), b"docs");
    fs.write(&vec![b"docs".to_vec()], b"info.txt", b"hello world");
    fs
}

#[test]
fn files_open_read_and_close() {
    let fs = sample_fs();
    let mut t = FdTable::new();
    let fd = t.sys_open(b"/docs/info.txt", &fs);
    assert_eq!(fd, 3);
    assert_eq!(t.sys_open(b"/docs/info.txt", &fs), 4);
    assert_eq!(t.sys_open(b"/docs", &fs), SYS_ERROR);
    assert_eq!(t.sys_open(b"/nope.txt", &fs), SYS_ERROR);
    assert_eq!(t.sys_open(&[0xff, 0x2f], &fs), SYS_ERROR);
    assert_eq!(t.sys_read(fd, 5, &fs), (5, b"hello".to_vec()));
    assert_eq!(t.sys_read(fd, 100, &fs), (6, b" world".to_vec()));
    assert_eq!(t.sys_read(fd, 100, &fs), (0, Vec::new()));
    assert_eq!(t.sys_read(9, 1, &fs).0, SYS_ERROR);
    assert_eq!(t.sys_read(99, 1, &fs).0, SYS_ERROR);
    assert_eq!(t.sys_close(fd), 0);
    assert_eq!(t.sys_close(fd), SYS_ERROR);
    assert_eq!(t.sys_close(1), SYS_ERROR);
    assert_eq!(t.sys_read(fd, 1, &fs).0, SYS_ERROR);
    assert_eq!(t.alloc_fd(), Some(3));
    t.sys_exit();
    assert_eq!(t.sys_close(4), SYS_ERROR);
}

#[test]
fn descriptors_run_out_after_thirteen_files() {
    let fs = sample_fs();
    let mut t = FdTable::new();
    for expected in 3..16u64 {
        assert_eq!(t.sys_open(b"/docs/info.txt", &fs), expected);
    }
    assert_eq!(t.alloc_fd(), None);
    assert_eq!(t.sys_open(b"/docs/info.txt", &fs), SYS_ERROR);
}

#[test]
fn stat_and_write() {
    let fs = sample_fs();
    assert_eq!(sys_stat(b"/docs/info.txt", &fs), 11);
    assert_eq!(sys_stat(b"/docs", &fs), SYS_ERROR);
    assert_eq!(sys_stat(b"/missing", &fs), SYS_ERROR);
    assert_eq!(sys_write(1, b"hi\n"), (3, b"hi\n".to_vec()));
    assert_eq!(sys_write(2, &[b'a', 0xff, 0x07, b'\n', b'b']), (5, b"a\nb".to_vec()));
    assert_eq!(sys_write(3, b"x"), (SYS_ERROR, Vec::new()));
}

#[test]
fn program_output_lines() {
    assert_eq!(pid_line(42), b"42\n".to_vec());
    assert_eq!(pid_line(0), b"0\n".to_vec());
    assert_eq!(counter_line(7), *b"7\n");
    assert_eq!(counter_line(123), *b"3\n");
}

#[test]
fn hello_program_is_machine_code_with_its_message() {
    let code = hello_program();
    assert_eq!(code.len(), 64);
    // mov rax, 1; mov rdi, 1
    assert_eq!(&code[0..14], &[0x48, 0xC7, 0xC0, 1, 0, 0, 0, 0x48, 0xC7, 0xC7, 1, 0, 0, 0]);
    // lea rsi, [rip + 21] lands on the message, which follows the instructions
    assert_eq!(&code[14..17], &[0x48, 0x8D, 0x35]);
    let disp = u32::from_le_bytes([code[17], code[18], code[19], code[20]]) as usize;
    assert_eq!(&code[21 + disp..], b"Hello from user mode!\n");
    // mov rdx, 22; syscall; mov rax, 0; xor rdi, rdi; syscall
    assert_eq!(&code[21..28], &[0x48, 0xC7, 0xC2, 22, 0, 0, 0]);
    assert_eq!(&code[28..42], &[0x0F, 0x05, 0x48, 0xC7, 0xC0, 0, 0, 0, 0, 0x48, 0x31, 0xFF, 0x0F, 0x05]);
}

#[test]
fn getpid_names_the_running_task() {
    let mut s = Scheduler::new();
    assert_eq!(sys_getpid(&s), 0);
    let id = s.spawn("demo", vec![0u8; TASK_STACK_SIZE], 0x10000, 0x1234, 0x5678);
    assert_eq!(id, TaskId(1));
    assert_eq!(s.schedule_yield(), Some((0, 1)));
    assert_eq!(sys_getpid(&s), 1);
}

#[test]
fn spawned_tasks_start_with_their_frame() {
    let mut s = Scheduler::new();
    s.spawn("demo", vec![0xAAu8; TASK_STACK_SIZE], 0x10000, 0x1122334455667788, 0x99);
    let t = &s.task_list()[1];
    assert_eq!(t.state, TaskState::Ready);
    assert_eq!(t.name, "demo");
    assert_eq!(t.context, Context { rsp: 0x10000 - 56, ..Context::empty() });
    let st = t.stack.as_ref().unwrap();
    assert_eq!(st.len(), TASK_STACK_SIZE);
    assert_eq!(st[TASK_STACK_SIZE - 57], 0xAA);
    assert_eq!(&st[TASK_STACK_SIZE - 32..TASK_STACK_SIZE - 24], &0x1122334455667788u64.to_le_bytes());
    assert_eq!(&st[TASK_STACK_SIZE - 8..], &0x99u64.to_le_bytes());
}

#[test]
fn preemption_waits_for_the_quantum() {
    let mut s = Scheduler::new();
    s.spawn("a", vec![0u8; TASK_STACK_SIZE], 0x10000, 1, 2);
    for _ in 0..9 {
        assert_eq!(s.schedule_preempt(), None);
    }
    assert_eq!(s.schedule_preempt(), Some((0, 1)));
    assert_eq!(s.task_list()[0].state, TaskState::Ready);
    assert_eq!(s.task_list()[1].state, TaskState::Running);
    assert!(s.kill_task(TaskId(0)));
    assert!(!s.kill_task(TaskId(0)));
    assert!(!s.kill_task(TaskId(7)));
    s.terminate_current();
    assert_eq!(s.task_list()[1].state, TaskState::Terminated);
}

#[test]
fn frames_come_from_usable_regions_in_order() {
    let regions = [
        MemoryRegion { start: 0, end: 0x1000, usable: false },
        MemoryRegion { start: 0x10000, end: 0x12000, usable: true },
        MemoryRegion { start: 0x20000, end: 0x21000, usable: true },
    ];
    let mut c = FrameCursor::new();
    assert_eq!(c.allocate_frame(&regions), Some(0x10000));
    assert_eq!(c.allocate_frame(&regions), Some(0x11000));
    assert_eq!(c.allocate_frame(&regions), Some(0x20000));
    assert_eq!(c.allocate_frame(&regions), None);
    assert_eq!(c.next_addr, 0x21000);
}

#[test]
fn timer_reports_each_second() {
    let mut t = Timer::new();
    for _ in 0..99 {
        assert_eq!(t.tick(), None);
    }
    assert_eq!(t.tick(), Some(b" 0h 00m 01s ".to_vec()));
    assert_eq!(t.ticks(), 100);
}

#[test]
fn layouts_are_stored_and_named() {
    for l in [LayoutId::Us104, LayoutId::Uk105, LayoutId::De105, LayoutId::Azerty, LayoutId::Dvorak, LayoutId::Colemak] {
        assert_eq!(current_layout(set_layout(l)), l);
        assert_eq!(layout_from_name(layout_name(l).as_bytes()), Some(l));
    }
    assert_eq!(current_layout(77), LayoutId::Us104);
    assert_eq!(layout_from_name(b"azerty"), Some(LayoutId::Azerty));
    assert_eq!(layout_from_name(b"pl"), None);
    assert_eq!(layout_name(LayoutId::De105), "de");
}

#[test]
fn us_layout_supplies_the_backslash_key() {
    assert!(matches!(polar_layout_choice(LayoutId::Us104, true, false), LayoutChoice::Fixed('\\')));
    assert!(matches!(polar_layout_choice(LayoutId::Us104, true, true), LayoutChoice::Fixed('|')));
    assert!(matches!(polar_layout_choice(LayoutId::Us104, false, true), LayoutChoice::Table(LayoutId::Us104)));
    assert!(matches!(polar_layout_choice(LayoutId::De105, true, false), LayoutChoice::Table(LayoutId::De105)));
}

#[test]
fn decoded_keys_become_events() {
    assert_eq!(gui_event_for_key(DecodedKey::Unicode('\n')), Some(Event::KeyPress(KeyCode::Enter)));
    assert_eq!(gui_event_for_key(DecodedKey::Unicode('\u{8}')), Some(Event::KeyPress(KeyCode::Backspace)));
    assert_eq!(gui_event_for_key(DecodedKey::Unicode('\t')), Some(Event::KeyPress(KeyCode::Tab)));
    assert_eq!(gui_event_for_key(DecodedKey::Unicode('\u{1b}')), Some(Event::KeyPress(KeyCode::Escape)));
    assert_eq!(gui_event_for_key(DecodedKey::Unicode('q')), Some(Event::KeyPress(KeyCode::Char('q'))));
    assert_eq!(gui_event_for_key(DecodedKey::RawKey(RawKey::F2)), Some(Event::KeyPress(KeyCode::F2)));
    assert_eq!(gui_event_for_key(DecodedKey::RawKey(RawKey::Other)), None);
    assert_eq!(key_event_for(DecodedKey::Unicode('x')), Some(KeyEvent::Char('x')));
    assert_eq!(key_event_for(DecodedKey::RawKey(RawKey::ArrowUp)), Some(KeyEvent::ArrowUp));
    assert_eq!(key_event_for(DecodedKey::RawKey(RawKey::ArrowLeft)), None);
}

#[test]
fn scancodes_queue_in_order_up_to_the_limit() {
    let mut q = ScancodeBuffer::new();
    assert_eq!(q.pop(), None);
    for i in 0..200u32 {
        add_scancode(&mut q, (i % 256) as u8);
    }
    for i in 0..128u32 {
        assert_eq!(q.pop(), Some(i as u8));
    }
    assert_eq!(q.pop(), None);
}

#[test]
fn mouse_packets_move_and_click() {
    let mut m = MouseState::new();
    assert!(handle_byte(&mut m, 0x08).is_empty());
    assert!(handle_byte(&mut m, 5).is_empty());
    assert_eq!(handle_byte(&mut m, 0), vec![Event::MouseMove { x: 165, y: 100 }]);
    handle_byte(&mut m, 0x09);
    handle_byte(&mut m, 0);
    assert_eq!(handle_byte(&mut m, 0), vec![Event::MouseDown { x: 165, y: 100, button: MouseButton::Left }]);
    handle_byte(&mut m, 0x08);
    handle_byte(&mut m, 0);
    assert_eq!(handle_byte(&mut m, 0), vec![Event::MouseUp { x: 165, y: 100, button: MouseButton::Left }]);
    // upward movement is positive; the pointer stops at the screen's edge
    handle_byte(&mut m, 0x08);
    handle_byte(&mut m, 0);
    assert_eq!(handle_byte(&mut m, 200), vec![Event::MouseMove { x: 165, y: 0 }]);
    // a negative horizontal movement
    handle_byte(&mut m, 0x18);
    handle_byte(&mut m, 0xFB);
    assert_eq!(handle_byte(&mut m, 0), vec![Event::MouseMove { x: 160, y: 0 }]);
    // an overflowing packet is dropped
    handle_byte(&mut m, 0x48);
    handle_byte(&mut m, 50);
    assert!(handle_byte(&mut m, 50).is_empty());
    // a byte without the sync bit does not start a packet
    assert!(handle_byte(&mut m, 0x00).is_empty());
    assert_eq!(m.cycle, 0);
    assert_eq!((m.x, m.y), (160, 0));
}

fn boot_sector() -> Vec<u8> {
    let mut b = vec![0u8; 512];
    b[11] = 0x00;
    b[12] = 0x02;
    b[13] = 8;
    b[14] = 32;
    b[16] = 2;
    b[36] = 100;
    b[44] = 2;
    b
}

fn entry(s: &mut [u8], i: usize, name: &[u8; 11], attr: u8, cluster: u16, size: u32) {
    let o = i * 32;
    s[o..o + 11].copy_from_slice(name);
    s[o + 11] = attr;
    s[o + 26..o + 28].copy_from_slice(&cluster.to_le_bytes());
    s[o + 28..o + 32].copy_from_slice(&size.to_le_bytes());
}

fn root_sector() -> Vec<u8> {
    let mut s = vec![0u8; 512];
    entry(&mut s, 0, b"HELLO   TXT", 0x20, 3, 13);
    entry(&mut s, 1, b"\xE5OLD    TXT", 0x20, 4, 1);
    entry(&mut s, 2, b"ALONGNAME  ", 0x0F, 0, 0);
    entry(&mut s, 3, b"DOCS       ", 0x10, 5, 0);
    entry(&mut s, 5, b"AFTER   TXT", 0x20, 6, 2);
    s
}

#[test]
fn fat_boot_sector_layout() {
    let b = boot_sector();
    assert!(layout_fits_check(&b));
    let l = parse_layout(&b).unwrap();
    assert_eq!((l.data_start, l.root_cluster, l.sectors_per_cluster), (232, 2, 8));
    assert_eq!(cluster_to_lba(2, 232, 8), 232);
    assert_eq!(cluster_to_lba(5, 232, 8), 256);
    let mut bad = b.clone();
    bad[12] = 0x04;
    assert_eq!(parse_layout(&bad).unwrap_err(), "Not valid FAT32 (invalid sector size)");
    assert!(!layout_fits_check(&b[..40]));
}

#[test]
fn fat_root_listing_and_lookup() {
    let s = root_sector();
    assert_eq!(root_listing(&s), vec![b"HELLO.TXT (13 b)".to_vec(), b"DOCS/".to_vec()]);
    let e = find_root_entry(&s, b"HELLO.TXT").unwrap();
    assert_eq!(e.size, 13);
    assert_eq!(e.cluster(), 3);
    assert!(!e.is_dir());
    assert_eq!(e.filename(), b"HELLO.TXT".to_vec());
    assert!(find_root_entry(&s, b"DOCS").unwrap().is_dir());
    assert!(find_root_entry(&s, b"AFTER.TXT").is_none());
    assert!(find_root_entry(&s, b"OLD.TXT").is_none());
    let mut data = vec![b'x'; 512];
    data[..5].copy_from_slice(b"Hello");
    assert_eq!(file_contents(&data, 5), b"Hello".to_vec());
    assert_eq!(file_contents(&data, 4000).len(), 512);
    assert_eq!(listing_error("no disk"), vec![b"no disk".to_vec()]);
}

fn show(c: Option<UserCall>) -> String {
    match c {
        None => "end".to_string(),
        Some(UserCall::Write(b)) => format!("write {}", String::from_utf8(b).unwrap()),
        Some(UserCall::GetPid) => "getpid".to_string(),
        Some(UserCall::Yield) => "yield".to_string(),
        Some(UserCall::Exit) => "exit".to_string(),
    }
}

#[test]
fn hello_program_calls_in_order() {
    let calls: Vec<String> = (0..9).map(|s| show(run_user_hello(s, 42))).collect();
    assert_eq!(
        calls,
        vec![
            "write Hello from user mode!\n",
            "write Syscall getpid returned: ",
            "getpid",
            "write 42\n",
            "yield",
            "yield",
            "yield",
            "exit",
            "end",
        ]
    );
}

#[test]
fn counter_program_counts_to_five() {
    let calls: Vec<String> = (0..17).map(|s| show(run_user_counter(s))).collect();
    assert_eq!(calls[0], "write [usercount] Krok ");
    assert_eq!(calls[1], "write 1\n");
    assert_eq!(calls[2], "yield");
    assert_eq!(calls[13], "write 5\n");
    assert_eq!(calls[15], "write [usercount] Zakonczony.\n");
    assert_eq!(calls[16], "end");
    assert_eq!(calls.iter().filter(|c| *c == "yield").count(), 5);
}

#[test]
fn fat_file_read_walks_boot_root_and_data() {
    let (lba, st) = read_file(b"HELLO.TXT");
    assert_eq!(lba, 0);
    let boot = boot_sector();
    assert!(st.check(true, &boot));
    let (lba, st) = match st.next(true, &boot) {
        FileReadStep::Read(lba, st) => (lba, st),
        FileReadStep::Done(_) => panic!("the boot sector is valid"),
    };
    assert_eq!(lba, 232);
    let root = root_sector();
    assert!(st.check(true, &root));
    let (lba, st) = match st.next(true, &root) {
        FileReadStep::Read(lba, st) => (lba, st),
        FileReadStep::Done(_) => panic!("the root holds the file"),
    };
    assert_eq!(lba, 240);
    let mut data = vec![0u8; 512];
    data[..13].copy_from_slice(b"Hello, world!");
    match st.next(true, &data) {
        FileReadStep::Done(Some(v)) => assert_eq!(v, b"Hello, world!".to_vec()),
        _ => panic!("the file's sector was read"),
    }
}

#[test]
fn fat_file_read_stops_on_failures() {
    let (_, st) = read_file(b"HELLO.TXT");
    assert!(matches!(st.next(false, &boot_sector()), FileReadStep::Done(None)));
    let (_, st) = read_file(b"HELLO.TXT");
    let mut bad = boot_sector();
    bad[12] = 4;
    assert!(matches!(st.next(true, &bad), FileReadStep::Done(None)));
    let (_, st) = read_file(b"MISSING.TXT");
    let st = match st.next(true, &boot_sector()) {
        FileReadStep::Read(_, st) => st,
        FileReadStep::Done(_) => panic!("the boot sector is valid"),
    };
    assert!(matches!(st.next(true, &root_sector()), FileReadStep::Done(None)));
    let (_, st) = read_file(b"HELLO.TXT");
    let st = match st.next(true, &boot_sector()) {
        FileReadStep::Read(_, st) => st,
        FileReadStep::Done(_) => panic!("the boot sector is valid"),
    };
    assert!(matches!(st.next(false, &root_sector()), FileReadStep::Done(None)));
    let (_, st) = read_file(b"X");
    let mut zero_root = boot_sector();
    zero_root[44] = 0;
    assert!(!st.check(true, &zero_root));
    let _ = FileRead::Boot(Vec::new());
}

#[test]
fn elf_images_must_be_64_bit_x86_64() {
    assert_eq!(check_elf_header(false, true), Err("Not 64-bit ELF"));
    assert_eq!(check_elf_header(true, false), Err("Not x86_64 ELF"));
    assert_eq!(check_elf_header(true, true), Ok(()));
}

#[test]
fn elf_segments_span_their_pages() {
    let s = LoadSegment { vaddr: 0x40_1234, mem_size: 0x2000, file_size: 0x100, offset: 0x80, writable: true, executable: false };
    let p = plan_segment(&s, 0x1000);
    assert_eq!((p.first_page, p.last_page), (0x40_1000, 0x40_3000));
    assert!(p.writable && p.no_execute);
    assert_eq!((p.copy_start, p.copy_end, p.zero_len), (0x80, 0x180, 0x1f00));
    let t = LoadSegment { vaddr: 0x1000, mem_size: 0x10, file_size: 0x10, offset: 0, writable: false, executable: true };
    let q = plan_segment(&t, 0x10);
    assert_eq!((q.first_page, q.last_page), (0x1000, 0x1000));
    assert!(!q.writable && !q.no_execute);
    assert_eq!((q.copy_start, q.copy_end, q.zero_len), (0, 0x10, 0));
}

#[test]
fn fat_root_listing_walks_boot_and_root() {
    let (lba, st) = list_root_files();
    assert_eq!(lba, 0);
    assert!(st.check(true, &boot_sector()));
    let (lba, st) = match st.next(true, &boot_sector()) {
        RootListStep::Read(lba, st) => (lba, st),
        RootListStep::Done(_) => panic!("the boot sector is valid"),
    };
    assert_eq!(lba, 232);
    match st.next(true, &root_sector()) {
        RootListStep::Done(ls) => assert_eq!(ls, vec![b"HELLO.TXT (13 b)".to_vec(), b"DOCS/".to_vec()]),
        RootListStep::Read(..) => panic!("the listing is done"),
    }
    let (_, st) = list_root_files();
    match st.next(false, &boot_sector()) {
        RootListStep::Done(ls) => assert_eq!(ls, vec![b"ATA Read Error".to_vec()]),
        RootListStep::Read(..) => panic!("the read failed"),
    }
    let (_, st) = list_root_files();
    let mut bad = boot_sector();
    bad[12] = 4;
    match st.next(true, &bad) {
        RootListStep::Done(ls) => assert_eq!(ls, vec![b"Not valid FAT32 (invalid sector size)".to_vec()]),
        RootListStep::Read(..) => panic!("the sector size is wrong"),
    }
    let (_, st) = list_root_files();
    let st = match st.next(true, &boot_sector()) {
        RootListStep::Read(_, st) => st,
        RootListStep::Done(_) => panic!("the boot sector is valid"),
    };
    match st.next(false, &root_sector()) {
        RootListStep::Done(ls) => assert_eq!(ls, vec![b"Failed to read Root Dir".to_vec()]),
        RootListStep::Read(..) => panic!("the read failed"),
    }
}

#[test]
fn task_contexts_are_reached_by_index() {
    let mut s = Scheduler::new();
    assert_eq!(s.next_id(), 1);
    s.spawn("a", vec![0u8; TASK_STACK_SIZE], 0x10000, 1, 2);
    assert_eq!(s.next_id(), 2);
    s.context_mut(1).rbx = 77;
    assert_eq!(s.task_list()[1].context.rbx, 77);
    assert_eq!(s.task_list()[1].context.rsp, 0x10000 - 56);
    assert_eq!(s.task_list()[0].context, Context::empty());
}

#[test]
fn cleanup_keeps_the_current_task() {
    let mut s = Scheduler::new();
    s.spawn("a", vec![0u8; TASK_STACK_SIZE], 0x10000, 1, 2);
    s.spawn("b", vec![0u8; TASK_STACK_SIZE], 0x10000, 1, 2);
    assert_eq!(s.schedule_yield(), Some((0, 1)));
    s.terminate_current();
    assert!(s.kill_task(TaskId(2)));
    s.cleanup_terminated();
    // task 2 is gone; the kernel task and the current (terminated) task 1 stay
    let ids: Vec<u64> = s.task_list().iter().map(|t| t.id.0).collect();
    assert_eq!(ids, vec![0, 1]);
    assert_eq!(sys_getpid(&s), 0);
    // the next yield moves from task 1 back to the kernel task
    assert_eq!(s.schedule_yield(), Some((1, 0)));
    s.cleanup_terminated();
    let ids: Vec<u64> = s.task_list().iter().map(|t| t.id.0).collect();
    assert_eq!(ids, vec![0]);
    assert_eq!(s.schedule_yield(), None);
}

#[test]
fn segments_are_checked_before_planning() {
    let seg = |vaddr: u64, mem_size: u64, file_size: u64, offset: u64| LoadSegment {
        vaddr,
        mem_size,
        file_size,
        offset,
        writable: false,
        executable: true,
    };
    assert!(segment_fits(&seg(0x400000, 0x2000, 0x100, 0x40), 0x200));
    // the file bytes reach past the image
    assert!(!segment_fits(&seg(0x400000, 0x2000, 0x100, 0x180), 0x200));
    // a non-canonical start or end
    assert!(!segment_fits(&seg(0x8000_0000_0000, 0x10, 0, 0), 0));
    assert!(!segment_fits(&seg(0x7FFF_FFFF_F000, 0x2000, 0, 0), 0));
    // an empty segment at address 0 has no last byte
    assert!(!segment_fits(&seg(0, 0, 0, 0), 0));
    // the segment may end at the top of the address space
    assert!(segment_fits(&seg(0xFFFF_FFFF_FFFF_F000, 0x1000, 0, 0), 0));
}
