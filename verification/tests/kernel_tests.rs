use mizu::elf::{parse_elf, ElfError};
use mizu::fileio::{ReadOut, WriteOut};
use mizu::frames::FrameAllocator;
use mizu::kernel::{FdType, Kernel};
use mizu::keyboard::Keyboard;
use mizu::paging::PageDir;
use mizu::ramfs::{FileInfo, FileSystem};
use mizu::systable::{decode_syscall, Syscall};
use mizu::usermem::UserMem;

fn booted() -> Kernel {
    let mut k = Kernel::new();
    k.init(0x1000);
    k
}

fn with_files(k: &mut Kernel, files: &[(&str, &[u8])]) {
    k.fs = FileSystem {
        files: Some(files.iter().map(|(n, d)| FileInfo { name: n.to_string(), size: d.len(), data: d.to_vec() }).collect()),
        ram_files: None,
    };
}

#[test]
fn the_first_process_has_its_standard_descriptors() {
    let k = booted();
    assert_eq!(k.sys_getpid(), 1);
    assert_eq!(k.sys_getppid(), 0);
    assert_eq!(k.sys_getuid(), 1000);
    assert!(matches!(k.get_fd(1, 0).ftype, FdType::Stdin));
    assert!(matches!(k.get_fd(1, 1).ftype, FdType::Stdout));
    assert!(matches!(k.get_fd(1, 2).ftype, FdType::Stderr));
    assert!(matches!(k.get_fd(1, 3).ftype, FdType::Unused));
}

#[test]
fn pipes_keep_bytes_in_order() {
    let mut k = booted();
    let id = k.alloc_pipe().unwrap();
    assert_eq!(k.pipe_write(id, b"hello"), 5);
    assert_eq!(k.pipe_read(id, 3), b"hel".to_vec());
    assert_eq!(k.pipe_write(id, b"!"), 1);
    assert_eq!(k.pipe_read(id, 10), b"lo!".to_vec());
    assert!(k.pipe_read(id, 10).is_empty());
}

#[test]
fn pipe_gives_the_same_descriptor_twice() {
    let mut k = booted();
    let (r, fds) = k.sys_pipe();
    assert_eq!(r, 0);
    assert_eq!(fds, Some((3, 3)));
    assert!(matches!(k.get_fd(1, 3).ftype, FdType::PipeWriter(0)));
}

#[test]
fn dup_takes_the_lowest_free_descriptor() {
    let mut k = booted();
    assert_eq!(k.sys_dup(1), 3);
    assert!(matches!(k.get_fd(1, 3).ftype, FdType::Stdout));
    assert_eq!(k.sys_dup(9), -9);
    assert_eq!(k.sys_dup2(1, 7), 7);
    assert!(matches!(k.get_fd(1, 7).ftype, FdType::Stdout));
}

#[test]
fn writes_to_stdout_go_to_the_console() {
    let mut k = booted();
    let mut mem = UserMem::zeroed(0x1000, 64);
    mem.write_bytes(0x1010, b"hi there");
    match k.sys_write(&mem, 1, 0x1010, 8) {
        WriteOut::Console(t) => assert_eq!(t, b"hi there".to_vec()),
        _ => panic!("expected console text"),
    }
    match k.sys_write(&mem, 9, 0x1010, 8) {
        WriteOut::Done(n) => assert_eq!(n as i32, -9),
        _ => panic!("expected an error"),
    }
}

#[test]
fn files_open_and_read() {
    let mut k = booted();
    with_files(&mut k, &[("/hello.txt", b"hello world")]);
    k.opened_init();
    let mut mem = UserMem::zeroed(0x2000, 256);
    mem.write_bytes(0x2000, b"/hello.txt\0");
    let fd = k.sys_open(&mem, 0x2000, 0, 0);
    assert_eq!(fd, 3);
    match k.sys_read(&mut mem, 3, 0x2080, 5) {
        ReadOut::Done(n) => assert_eq!(n, 5),
        _ => panic!("expected bytes"),
    }
    assert_eq!(mem.read_bytes(0x2080, 5), b"hello".to_vec());
    match k.sys_read(&mut mem, 3, 0x2080, 100) {
        ReadOut::Done(n) => assert_eq!(n, 6),
        _ => panic!("expected bytes"),
    }
    assert_eq!(mem.read_bytes(0x2080, 6), b" world".to_vec());
    mem.write_bytes(0x2000, b"/missing\0");
    assert_eq!(k.sys_open(&mem, 0x2000, 0, 0) as i32, -2);
    assert!(matches!(k.sys_read(&mut mem, 0, 0x2080, 10), ReadOut::Keyboard));
}

#[test]
fn getcwd_and_uname_fill_user_memory() {
    let mut k = booted();
    let mut mem = UserMem::zeroed(0x3000, 512);
    assert_eq!(k.sys_getcwd(&mut mem, 0x3000, 16), 1);
    assert_eq!(mem.read_bytes(0x3000, 2), b"/\0".to_vec());
    assert_eq!(k.sys_getcwd(&mut mem, 0x3000, 1) as i32, -34);
    assert_eq!(k.sys_uname(&mut mem, 0x3000), 0);
    assert_eq!(mem.read_bytes(0x3000, 7), b"MizuOS\0".to_vec());
    assert_eq!(mem.read_bytes(0x3000 + 65 * 4, 5), b"i686\0".to_vec());
}

#[test]
fn user_memory_is_little_endian() {
    let mut mem = UserMem::zeroed(0x100, 16);
    mem.write_u32(0x104, 0x1122_3344);
    assert_eq!(mem.read_bytes(0x104, 4), vec![0x44, 0x33, 0x22, 0x11]);
    assert_eq!(mem.read_u32(0x104), 0x1122_3344);
    assert!(mem.has(0x100, 16));
    assert!(!mem.has(0x100, 17));
    assert!(!mem.has(0xff, 1));
}

#[test]
fn keyboard_keys_come_out_in_order() {
    let mut kb = Keyboard::new();
    kb.push_key(b'a');
    kb.push_key(b'b');
    assert_eq!(kb.pop_key(), Some(b'a'));
    assert_eq!(kb.pop_key(), Some(b'b'));
    assert_eq!(kb.pop_key(), None);
    // scancode 0x1E is 'a'; with shift it is 'A'
    kb.irq_scancode(1, 0x1e);
    kb.irq_scancode(1, 0x2a);
    kb.irq_scancode(1, 0x1e);
    kb.irq_scancode(1, 0xaa);
    kb.irq_scancode(1, 0x1e);
    assert_eq!(kb.pop_key(), Some(b'a'));
    assert_eq!(kb.pop_key(), Some(b'A'));
    assert_eq!(kb.pop_key(), Some(b'a'));
}

#[test]
fn elf_headers_are_checked() {
    assert_eq!(parse_elf(b"nope").err(), Some(ElfError::BadMagic));
    let mut h = vec![0u8; 52 + 32];
    h[0..4].copy_from_slice(b"\x7fELF");
    h[4] = 2;
    assert_eq!(parse_elf(&h).err(), Some(ElfError::Not32Bit));
    h[4] = 1;
    assert_eq!(parse_elf(&h).err(), Some(ElfError::NotExec));
    h[16] = 2;
    assert_eq!(parse_elf(&h).err(), Some(ElfError::NoSegments));
    h[24..28].copy_from_slice(&0x0804_8000u32.to_le_bytes());
    h[28..32].copy_from_slice(&52u32.to_le_bytes());
    h[42] = 32;
    h[44] = 1;
    h[52..56].copy_from_slice(&1u32.to_le_bytes());
    h[56..60].copy_from_slice(&0u32.to_le_bytes());
    h[60..64].copy_from_slice(&0x0804_8000u32.to_le_bytes());
    h[68..72].copy_from_slice(&84u32.to_le_bytes());
    h[72..76].copy_from_slice(&0x1000u32.to_le_bytes());
    let img = parse_elf(&h).unwrap();
    assert_eq!(img.entry, 0x0804_8000);
    assert_eq!(img.phnum, 1);
    assert_eq!(img.segments.len(), 1);
    assert_eq!(img.segments[0].vaddr, 0x0804_8000);
    assert_eq!(img.segments[0].filesz, 84);
    assert_eq!(img.segments[0].memsz, 0x1000);
    assert_eq!(img.phdr_addr, 0x0804_8000 + 52);
}

#[test]
fn page_tables_translate_what_was_mapped() {
    let mut frames = FrameAllocator::init(1024, 0x10_0000);
    let mut mem = UserMem::zeroed(0, 2 * 1024 * 1024);
    let pd = PageDir::new(&mut frames, &mut mem).unwrap();
    assert_eq!(pd.phys_addr() % 4096, 0);
    assert!(pd.map(&mut frames, &mut mem, 0x0804_8000, 0x0010_0000, true));
    assert_eq!(pd.translate_page(&mem, 0x0804_8123), Some(0x0010_0000));
    assert_eq!(pd.translate_page(&mem, 0x0805_0000), None);
}

#[test]
fn system_call_numbers_decode() {
    let mut regs = [0u32; 12];
    regs[8] = 1;
    regs[10] = 0x2000;
    regs[9] = 5;
    assert!(matches!(decode_syscall(4, &regs), Syscall::Write(1, 0x2000, 5)));
    assert!(matches!(decode_syscall(20, &regs), Syscall::Getpid));
    assert!(matches!(decode_syscall(9999, &regs), Syscall::Unknown(9999)));
}
