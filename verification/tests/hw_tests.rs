use mizu::builtins::{Builtins, ShBuiltin};
use mizu::gdt::{gdt_entry, gdt_table, tss_entry, KERNEL_DS};
use mizu::init_shell::{cmd_echo, exec_argv, parse_args, path_buffer, read_line};
use mizu::interrupts::{init as idt_init, interrupt_handler, multiboot_mem_upper, IsrAction};
use mizu::personality::{ends_with_elf, find_first_elf, first_elf_name};
use mizu::pic::{init as pic_init, mask_all, pic_eoi};
use mizu::pit::{elapsed, init as pit_init, Ticks};
use mizu::ramfs::{FileInfo, FileSystem};
use mizu::serial::{get_char, init as serial_init, is_transmit_empty};

#[test]
fn pit_runs_at_100_hz() {
    assert_eq!(pit_init(), vec![(0x43, 0x36), (0x40, 0x9c), (0x40, 0x2e)]);
    let mut t = Ticks::new();
    t.tick();
    t.tick();
    assert_eq!(t.get_ticks(), 2);
    let mut w = Ticks { count: u32::MAX };
    w.tick();
    assert_eq!(w.get_ticks(), 0);
    assert!(elapsed(u32::MAX - 1, 3, 5));
    assert!(!elapsed(10, 12, 5));
}

#[test]
fn pic_remap_and_masks() {
    let r = pic_init(0xff, 0xbf);
    assert_eq!(r.len(), 10);
    assert_eq!(r[8], (0x21, 0xfc));
    assert_eq!(r[9], (0xa1, 0xbf));
    assert_eq!(mask_all(), vec![(0x21, 0xff), (0xa1, 0xff)]);
    assert_eq!(pic_eoi(33), vec![(0x20, 0x20)]);
    assert_eq!(pic_eoi(44), vec![(0xa0, 0x20), (0x20, 0x20)]);
}

#[test]
fn gdt_descriptors() {
    assert_eq!(gdt_entry(0, 0xfffff, 0x9a, 0xc), 0x00cf_9a00_0000_ffff);
    assert_eq!(gdt_entry(0, 0xfffff, 0xf2, 0xc), 0x00cf_f200_0000_ffff);
    assert_eq!(gdt_entry(0x1234_5678, 0x67, 0x89, 0), 0x1200_8934_5678_0067);
    assert_eq!(tss_entry(0x0011_b000, 103), 0x0000_8911_b000_0067);
    let mut g = gdt_table();
    assert_eq!(g.entries[1], 0x00cf_9a00_0000_ffff);
    let p = g.init(0x11b590, 0x0011_b000, 0x0011_c000);
    assert_eq!(p.limit, 47);
    assert_eq!(p.base, 0x0011_c000);
    assert_eq!(g.tss.ss0, KERNEL_DS);
    assert_eq!(g.tss.esp0, 0x11b590);
    assert_eq!(g.entries[5], 0x0000_8911_b000_0067);
}

#[test]
fn interrupts_dispatch() {
    let stubs: [u32; 49] = core::array::from_fn(|i| 0x1000 + 16 * i as u32);
    let gates = idt_init(&stubs, 48);
    assert_eq!(gates.len(), 49);
    assert_eq!(gates[0], (0, 0x1000, 8, 0x8e));
    assert_eq!(gates[47], (47, 0x1000 + 16 * 47, 8, 0x8e));
    assert_eq!(gates[48], (0x80, 0x1000 + 16 * 48, 8, 0xee));
    let (a, eoi) = interrupt_handler(32);
    assert_eq!(a, IsrAction::Tick);
    assert_eq!(eoi, vec![(0x20, 0x20)]);
    let (a, eoi) = interrupt_handler(14);
    assert_eq!(a, IsrAction::PageFault);
    assert!(eoi.is_empty());
    let (a, eoi) = interrupt_handler(45);
    assert_eq!(a, IsrAction::Unhandled);
    assert_eq!(eoi.len(), 2);
    assert_eq!(multiboot_mem_upper(0, 5), 131072);
    assert_eq!(multiboot_mem_upper(1, 5), 5);
}

#[test]
fn serial_port() {
    let w = serial_init();
    assert_eq!(w.len(), 8);
    assert_eq!(w[1], (0x3fb, 0x80));
    assert!(is_transmit_empty(0x60));
    assert!(!is_transmit_empty(0x01));
    assert_eq!(get_char(0x01, b'k'), Some(b'k'));
    assert_eq!(get_char(0x60, b'k'), None);
}

#[test]
fn the_first_elf_file_is_chosen() {
    let fs = FileSystem {
        files: Some(vec![
            FileInfo { name: "readme".into(), size: 1, data: vec![1] },
            FileInfo { name: "init.elf".into(), size: 2, data: vec![7, 8] },
            FileInfo { name: "sh.elf".into(), size: 1, data: vec![9] },
        ]),
        ram_files: None,
    };
    assert_eq!(first_elf_name(&fs), Some("init.elf".to_string()));
    assert_eq!(find_first_elf(&fs), Some(&[7u8, 8][..]));
    assert!(ends_with_elf("a.elf"));
    assert!(!ends_with_elf("elf"));
    assert!(!ends_with_elf("a.elfx"));
    assert_eq!(find_first_elf(&FileSystem::new()), None);
}

#[test]
fn host_shell_builtins() {
    let b = Builtins::new();
    assert!(b.is_builtin("cd"));
    assert!(b.is_builtin("hostname"));
    assert!(!b.is_builtin("grep"));
    assert_eq!(b.exec("mv"), Some(ShBuiltin::Mv));
    assert_eq!(b.exec("vim"), None);
}

#[test]
fn init_shell_arguments() {
    let a = parse_args(b"  cat \"my file\" x  ");
    assert_eq!(a.argc, 3);
    assert_eq!(a.argv, vec![b"cat".to_vec(), b"my file".to_vec(), b"x".to_vec()]);
    let b = parse_args(b"echo \"open");
    assert_eq!(b.argv, vec![b"echo".to_vec(), b"open".to_vec()]);
    let many = "a ".repeat(20);
    assert_eq!(parse_args(many.as_bytes()).argc, 16);
    assert_eq!(cmd_echo(&a), b"my file x\n".to_vec());
    assert_eq!(cmd_echo(&parse_args(b"echo")), b"\n".to_vec());
}

#[test]
fn init_shell_lines_and_buffers() {
    let buf = b"ls -l\r\nrest";
    assert_eq!(read_line(buf, buf.len()), Some(b"ls -l".to_vec()));
    assert_eq!(read_line(buf, 0), None);
    assert_eq!(read_line(&[0xff, b'\n'], 2), None);
    let p = path_buffer(b"/bin/sh");
    assert_eq!(&p[..8], b"/bin/sh\0");
    assert!(p[8..].iter().all(|&b| b == 0));
    let long = vec![b'x'; 200];
    let q = path_buffer(&long);
    assert_eq!(q[126], b'x');
    assert_eq!(q[127], 0);
    let (bytes, offs) = exec_argv(&parse_args(b"prog ab c"));
    assert_eq!(bytes, b"prog\0ab\0c\0".to_vec());
    assert_eq!(offs, vec![0, 5, 8]);
    let big = format!("{} {}", "y".repeat(200), "z".repeat(100));
    let (bytes, offs) = exec_argv(&parse_args(big.as_bytes()));
    assert_eq!(bytes.len(), 201);
    assert_eq!(offs, vec![0]);
}
