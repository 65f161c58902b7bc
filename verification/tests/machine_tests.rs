use mizu::dispatch::{handle_syscall, SysOut};
use mizu::frames::FrameAllocator;
use mizu::kernel::{Kernel, State};
use mizu::paging::PageDir;
use mizu::usermem::UserMem;

const KERNEL_END: usize = 0x100000;

fn machine() -> (Kernel, FrameAllocator, UserMem) {
    let mut frames = FrameAllocator::init(7168, KERNEL_END);
    let mut phys = UserMem::zeroed(0, 8 * 1024 * 1024);
    let pd = PageDir::new(&mut frames, &mut phys).unwrap();
    let mut k = Kernel::new();
    k.init(pd.phys_addr());
    (k, frames, phys)
}

#[test]
fn brk_maps_the_pages_it_grows_by() {
    let (mut k, mut frames, mut phys) = machine();
    let b = k.sys_brk(&mut frames, &mut phys, 0);
    assert_eq!(b, 0x4000_0000);
    let used = frames.used_count();
    assert_eq!(k.sys_brk(&mut frames, &mut phys, b + 0x2000), b + 0x2000);
    assert_eq!(frames.used_count(), used + 3);
    let pd = PageDir::from_phys(k.procs[1].pd);
    assert!(pd.translate_page(&phys, b).is_some());
    assert!(pd.translate_page(&phys, b + 0x1000).is_some());
    assert_eq!(k.sys_brk(&mut frames, &mut phys, b + 0x1000), b + 0x1000);
    assert_eq!(k.sys_brk(&mut frames, &mut phys, 0), b + 0x1000);
}

#[test]
fn mmap_hands_out_anonymous_pages_one_after_another() {
    let (mut k, mut frames, mut phys) = machine();
    let first = k.sys_mmap(&mut frames, &mut phys, 0, 5000, 3, 0x22, 0xFFFF_FFFF, 0);
    assert_eq!(first, 0x4000_0000);
    let second = k.sys_mmap(&mut frames, &mut phys, 0, 100, 3, 0x22, 0xFFFF_FFFF, 0);
    assert_eq!(second, 0x4000_2000);
    assert_eq!(k.sys_mmap(&mut frames, &mut phys, 0, 100, 3, 0x02, 3, 0), 0xFFFF_FFFF);
}

#[test]
fn fork_makes_a_ready_child_that_sees_zero() {
    let (mut k, mut frames, mut phys) = machine();
    let frame_esp = 0x7000u32;
    phys.write_u32(frame_esp + 44, 123);
    let parent_pd = k.procs[1].pd;
    let r = k.sys_fork(&mut frames, &mut phys, KERNEL_END, frame_esp);
    assert_eq!(r, 2);
    let c = k.procs[2];
    assert!(matches!(c.state, State::Ready));
    assert_eq!(c.ppid, 1);
    assert_eq!(c.pid, 2);
    assert_ne!(c.pd, parent_pd);
    assert_eq!(c.saved_esp, c.kstack_base + 8192 - 68);
    assert_eq!(phys.read_u32(c.saved_esp + 44), 0);
}

#[test]
fn llseek_answers_the_edx_slot_and_unknown_calls_are_handed_out() {
    let (mut k, mut frames, mut phys) = machine();
    let mut mem = UserMem::zeroed(0x1000, 64);
    let regs = [0u32, 0, 0, 0, 0, 0, 0, 0, 3, 7, 5, 0];
    let r = handle_syscall(&mut k, &mut mem, &mut frames, &mut phys, KERNEL_END, 0x7000, 140, &regs);
    assert!(matches!(r, SysOut::Ret(7)));
    let r = handle_syscall(&mut k, &mut mem, &mut frames, &mut phys, KERNEL_END, 0x7000, 9999, &[0u32; 12]);
    assert!(matches!(r, SysOut::Unknown(9999, 0, 0, 0)));
    let r = handle_syscall(&mut k, &mut mem, &mut frames, &mut phys, KERNEL_END, 0x7000, 37, &[0u32, 0, 0, 0, 0, 0, 0, 0, 5, 0, 9, 0]);
    assert!(matches!(r, SysOut::Ret(v) if v as i32 == -3));
}

fn le32(v: u32) -> [u8; 4] {
    v.to_le_bytes()
}

/// An executable with one loadable segment at 0x0804_8000: four file bytes, eight in memory.
fn tiny_elf() -> Vec<u8> {
    let mut d = vec![0u8; 84];
    d[0..4].copy_from_slice(&[0x7f, b'E', b'L', b'F']);
    d[4] = 1;
    d[16] = 2;
    d[24..28].copy_from_slice(&le32(0x0804_8000));
    d[28..32].copy_from_slice(&le32(52));
    d[42] = 32;
    d[44] = 1;
    d[52..56].copy_from_slice(&le32(1));
    d[56..60].copy_from_slice(&le32(84));
    d[60..64].copy_from_slice(&le32(0x0804_8000));
    d[68..72].copy_from_slice(&le32(4));
    d[72..76].copy_from_slice(&le32(8));
    d.extend_from_slice(&[0xAA, 0xBB, 0xCC, 0xDD]);
    d
}

#[test]
fn load_elf_copies_file_bytes_and_zeroes_the_rest() {
    let mut frames = FrameAllocator::init(7168, KERNEL_END);
    let mut phys = UserMem::zeroed(0, 8 * 1024 * 1024);
    let data = tiny_elf();
    let (pd, entry, sp) = mizu::elf::load_elf(&mut frames, &mut phys, &data).unwrap();
    assert_eq!(entry, 0x0804_8000);
    assert_eq!(sp, 0xBFFF_FFE0 - 80);
    let dir = PageDir::from_phys(pd);
    let frame = dir.translate_page(&phys, 0x0804_8000).unwrap();
    let bytes: Vec<u8> = (0..8).map(|i| phys.read_u8(frame + i)).collect();
    assert_eq!(bytes, vec![0xAA, 0xBB, 0xCC, 0xDD, 0, 0, 0, 0]);
    let top = dir.translate_page(&phys, sp).unwrap();
    assert_eq!(phys.read_u32(top + (sp % 4096)), 1);
}

#[test]
fn load_elf_reports_a_bad_header_without_touching_frames() {
    let mut frames = FrameAllocator::init(7168, KERNEL_END);
    let mut phys = UserMem::zeroed(0, 8 * 1024 * 1024);
    let used = frames.used_count();
    let mut data = tiny_elf();
    data[16] = 3;
    assert!(matches!(mizu::elf::load_elf(&mut frames, &mut phys, &data), Err(mizu::elf::ElfError::NotExec)));
    assert_eq!(frames.used_count(), used);
}

#[test]
fn unknown_call_returns_enosys() {
    assert_eq!(SysOut::Unknown(9999, 0, 0, 0).eax(), Some(0xFFFF_FFDA));
}
