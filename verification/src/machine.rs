//! The system calls and set-up steps that touch physical memory: kernel stacks, the first
//! process, user processes from executables, `fork`, `brk`, `mmap` and `execve`. Physical
//! memory is a byte window at base 0 (the kernel's identity map).
use vstd::prelude::*;
use crate::abi;
use crate::kernel::{Kernel, Process, State, FdType, FdEntry, MAX_PROCS, MAX_FDS, KSTACK_SIZE, MMAP_BASE, fd_index, add_ref};
use crate::frames::{FrameAllocator, FRAME_SIZE, BITMAP_FRAMES, kernel_end_frame, page_round_up, free_count,
    lemma_free_count_all_used, lemma_free_count_two};
use crate::usermem::{UserMem, le_bytes, overwrite, word_at};
use crate::paging::{PageDir, pd_check, frames_fit, frames_grow, frame_of, pd_index, pd_ok, lemma_frame_aligned,
    lemma_word_same, lemma_word_other};
use crate::elf::{ElfError, load_elf, exec_elf, parse_elf, words, lemma_words_len, push_words, concat, deep, STACK_SIZE, header_error, u32_at, u16_at, phdr_addr_of, exec_stack_spec, boot_stack_spec,
    elf_segments, elf_loadable, elf_loaded, layout_ok, stack_loaded, load_frames};
use crate::syscalls::same_but_procs;
use crate::fileio::{cstr, cstr_ok, latin1, user_string};
use crate::ramfs::first_zero_from;
use crate::text::str_eq;

verus! {

/// Whether `i` is the lowest free process slot from 1 on.
pub open spec fn lowest_free_slot(t: Seq<Process>, i: int) -> bool {
    &&& 1 <= i < MAX_PROCS
    &&& t[i].state == State::Free
    &&& forall|j: int| 1 <= j < i ==> t[j].state != State::Free
}

/// The saved context of the first process: segment registers, eight general registers and
/// a return to `entry` in kernel mode with interrupts on; lowest address first.
pub open spec fn pid1_frame(entry: u32) -> Seq<u32> {
    seq![0x10u32, 0x10, 0x10, 0x10, 0, 0, 0, 0, 0, 0, 0, 0, entry, 0x08, 0x202]
}

/// The saved context of a new user process whose kernel stack ends at `top`: segment
/// registers, general registers (the saved stack pointer at the return frame), and a
/// return to `entry` in user mode on stack `sp`; lowest address first.
pub open spec fn user_frame(top: u32, entry: u32, sp: u32) -> Seq<u32> {
    seq![0x10u32, 0x10, 0x10, 0x10, 0, 0, 0, (top - 20) as u32, 0, 0, 0, 0, entry, 0x1B, 0x202, sp, 0x23]
}

impl Kernel {
    /// The lowest free process slot from 1 on.
    pub fn alloc_pid(&self) -> (r: Option<u32>)
        requires
            self.wf(),
        ensures
            match r {
                Some(i) => lowest_free_slot(self.procs@, i as int),
                None => forall|j: int| 1 <= j < MAX_PROCS ==> self.procs@[j].state != State::Free,
            },
    {
        let mut i: usize = 1;
        while i < MAX_PROCS
            invariant
                self.wf(),
                1 <= i <= MAX_PROCS,
                forall|j: int| 1 <= j < i ==> self.procs@[j].state != State::Free,
            decreases MAX_PROCS - i,
        {
            if self.procs[i].state == State::Free {
                return Some(i as u32);
            }
            i = i + 1;
        }
        None
    }

    /// Sets up the process table for the first process: every slot emptied, slot 1 running
    /// as user 1000 in session and group 1 with directory `kpd`, program break at
    /// `MMAP_BASE`, working directory `/`, and its standard descriptors 0 to 2.
    pub fn init(&mut self, kpd: u32)
        requires
            old(self).wf(),
        ensures
            final(self).wf(),
            final(self).current_pid == 1,
            final(self).next_pid == 2,
            final(self).pipe_ctl == old(self).pipe_ctl,
            final(self).pipe_data == old(self).pipe_data,
            final(self).fs == old(self).fs,
            forall|i: int| 0 <= i < MAX_PROCS && i != 1 ==> (#[trigger] final(self).procs@[i]).state == State::Free,
            ({
                let p = final(self).procs@[1];
                &&& p.state == State::Running && p.pid == 1 && p.ppid == 0 && p.pd == kpd
                &&& p.uid == 1000 && p.gid == 1000 && p.euid == 1000 && p.egid == 1000
                &&& p.pgid == 1 && p.sid == 1 && p.ctty == 0 && p.brk == MMAP_BASE && p.mmap_base == MMAP_BASE
                &&& p.cwd@[0] == 0x2fu8 && p.cwd_len == 1
                &&& p.sigpending == 0 && p.sigmask == 0 && p.exit_code == 0
            }),
            final(self).fd(1, 0).ftype == FdType::Stdin,
            final(self).fd(1, 1).ftype == FdType::Stdout,
            final(self).fd(1, 2).ftype == FdType::Stderr,
            forall|i: int| 0 <= i < MAX_PROCS * MAX_FDS && !(32 <= i < 35) ==> final(self).fdtable@[i] == old(self).fdtable@[i],
    {
        let mut i: usize = 0;
        while i < MAX_PROCS
            invariant
                self.wf(),
                self.pipe_ctl == old(self).pipe_ctl,
                self.pipe_data == old(self).pipe_data,
                self.fdtable == old(self).fdtable,
                self.opened == old(self).opened,
                self.fs == old(self).fs,
                i <= MAX_PROCS,
                forall|j: int| 0 <= j < i ==> (#[trigger] self.procs@[j]).state == State::Free
                    && self.procs@[j].sigpending == 0 && self.procs@[j].sigmask == 0 && self.procs@[j].exit_code == 0
                    && self.procs@[j].mmap_base == MMAP_BASE,
            decreases MAX_PROCS - i,
        {
            self.procs.set(i, crate::kernel::empty_process());
            i = i + 1;
        }
        self.current_pid = 1;
        let mut p = self.procs[1];
        p.state = State::Running;
        p.pid = 1;
        p.ppid = 0;
        p.pd = kpd;
        p.uid = 1000;
        p.gid = 1000;
        p.euid = 1000;
        p.egid = 1000;
        p.pgid = 1;
        p.sid = 1;
        p.ctty = 0;
        p.brk = MMAP_BASE;
        p.cwd[0] = 0x2f;
        p.cwd_len = 1;
        assert(p.cwd@[0] == 0x2fu8);
        self.procs.set(1, p);
        self.next_pid = 2;
        self.set_fd(1, 0, FdType::Stdin, false);
        self.set_fd(1, 1, FdType::Stdout, false);
        self.set_fd(1, 2, FdType::Stderr, false);
    }
}

/// The page end of `x`: `x + 0xFFF` (wrapping) with the low twelve bits cleared.
pub open spec fn page_end(x: u32) -> u32 {
    x.wrapping_add(0xFFF) & !0xFFFu32
}

/// The number of pages `brk` maps when the break moves from `b` to `addr`.
pub open spec fn brk_pages(b: u32, addr: u32) -> int {
    if page_end(addr) > page_end(b) { (page_end(addr) - page_end(b)) / 4096 } else { 0 }
}

/// Whether frames `i` and `i + 1` exist and are both free.
pub open spec fn kstack_fits(f: FrameAllocator, i: int) -> bool {
    i + 1 < f.total_frames && !f.used(i) && !f.used(i + 1)
}

/// The lowest frame a kernel stack may start at: past the kernel's end, and at least 257.
pub open spec fn kstack_low(kernel_end: int) -> int {
    let kef = page_round_up(kernel_end) / 4096;
    if kef >= 256 { kef + 1 } else { 257 }
}

/// The frame below which a kernel stack must start: 3071, or the number of frames.
pub open spec fn kstack_high(f: FrameAllocator) -> int {
    if 3071 < f.total_frames { 3071 } else { f.total_frames as int }
}

/// Takes two adjacent frames for an 8 KiB kernel stack, highest first, between the end of
/// the kernel (at least frame 257) and frame 3071 (inside the 12 MiB identity map); returns
/// the top of the stack.
pub fn alloc_kstack(frames: &mut FrameAllocator, kernel_end: usize) -> (r: Option<u32>)
    requires
        old(frames).wf(),
        kernel_end + 0xFFF <= usize::MAX,
        old(frames).used_frames < usize::MAX - 4,
    ensures
        final(frames).wf(),
        final(frames).total_frames == old(frames).total_frames,
        final(frames).used_frames <= old(frames).used_frames + 2,
        frames_grow(*old(frames), *final(frames)),
        match r {
            Some(top) => {
                let a = top - 8192;
                &&& top >= 8192
                &&& top % 4096 == 0
                &&& a / 4096 + 1 < old(frames).total_frames
                &&& top <= 3072 * 4096
                &&& !old(frames).used(a / 4096) && !old(frames).used(a / 4096 + 1)
                &&& final(frames).used(a / 4096) && final(frames).used(a / 4096 + 1)
                &&& kstack_low(kernel_end as int) <= a / 4096 < kstack_high(*old(frames))
                &&& kstack_fits(*old(frames), a / 4096)
                &&& forall|j: int| a / 4096 < j < kstack_high(*old(frames)) ==> !kstack_fits(*old(frames), j)
                &&& forall|j: int| 0 <= j < BITMAP_FRAMES && j != a / 4096 && j != a / 4096 + 1
                    ==> final(frames).used(j) == old(frames).used(j)
                &&& final(frames).used_frames == old(frames).used_frames + 2
            },
            None => {
                &&& forall|j: int| 0 <= j < BITMAP_FRAMES ==> final(frames).used(j) == old(frames).used(j)
                &&& final(frames).used_frames == old(frames).used_frames
            },
        },
        r is None <==> forall|i: int| kstack_low(kernel_end as int) <= i < kstack_high(*old(frames))
            ==> !kstack_fits(*old(frames), i),
{
    let end_frame: usize = if 3071 < frames.total_frames { 3071 } else { frames.total_frames };
    let kef = kernel_end_frame(kernel_end);
    let start_frame: usize = if kef >= 256 { if kef < usize::MAX { kef + 1 } else { kef } } else { 257 };
    let mut frame: usize = end_frame;
    while frame > start_frame
        invariant
            frames.wf(),
            frames.total_frames == old(frames).total_frames,
            frames.used_frames == old(frames).used_frames,
            frames_grow(*old(frames), *frames),
            forall|j: int| 0 <= j < BITMAP_FRAMES ==> frames.used(j) == old(frames).used(j),
            end_frame <= 3071,
            end_frame <= frames.total_frames,
            frame <= end_frame,
            old(frames).used_frames < usize::MAX - 4,
            end_frame == kstack_high(*old(frames)),
            start_frame == kstack_low(kernel_end as int),
            forall|j: int| frame <= j < end_frame && start_frame <= j ==> !kstack_fits(*old(frames), j),
        decreases frame,
    {
        frame = frame - 1;
        let addr = frame * 4096;
        proof {
            assert(addr / 4096 == frame && (addr + 4096) / 4096 == frame + 1) by (nonlinear_arith)
                requires addr == frame * 4096;
        }
        let ghost f0 = *frames;
        if frames.alloc_frame_at(addr) {
            if frames.alloc_frame_at(addr + 4096) {
                proof {
                    assert(addr / 4096 == frame && (addr + 4096) / 4096 == frame + 1 && (addr + 8192) % 4096 == 0
                        && (addr + 8192 - 8192) / 4096 == frame) by (nonlinear_arith)
                        requires addr == frame * 4096;
                    assert(kstack_fits(*old(frames), frame as int));
                    assert(kstack_low(kernel_end as int) <= frame < kstack_high(*old(frames)));
                }
                return Some((addr + KSTACK_SIZE as usize) as u32);
            }
            assert(!kstack_fits(*old(frames), frame as int));
            let ghost f1 = *frames;
            proof {
                assert(addr / 4096 == frame) by (nonlinear_arith) requires addr == frame * 4096;
            }
            frames.free_frame(addr);
            assert forall|j: int| 0 <= j < BITMAP_FRAMES implies frames.used(j) == old(frames).used(j) by {
                if j != frame { assert(f1.used(j) == old(frames).used(j)); }
            }
        } else {
            assert(!kstack_fits(*old(frames), frame as int));
        }
    }
    None
}

/// What `brk` does.
pub open spec fn brk_post(o: Kernel, f: Kernel, of: FrameAllocator, ff: FrameAllocator, addr: u32, r: u32) -> bool {
    &&& same_but_procs(o, f)
    &&& ({
        let b = o.cur().brk;
        if addr == 0 {
            r == b && f == o
        } else if addr <= b {
            r == addr && f.procs@ == o.procs@.update(o.current_pid as int,
                Process { brk: addr, ..o.cur() })
        } else {
            ||| r == addr && f.procs@ == o.procs@.update(o.current_pid as int,
                Process { brk: addr, ..o.cur() })
            ||| r == b && f.procs == o.procs
                && forall|j: int| 0 <= j < ff.total_frames ==> #[trigger] ff.used(j)
        }
    })
    &&& ({
        let b = o.cur().brk;
        addr > b && free_count(of, of.total_frames as int) >= 2 * brk_pages(b, addr) ==> r == addr
    })
}

impl Kernel {
    /// Prepares slot 1 to enter the kernel shell at `shell_entry`: a kernel stack, and on it
    /// the context of `pid1_frame`; slot 1 becomes ready with that context saved. False (and
    /// nothing changed in the table) when no kernel stack can be had.
    pub fn setup_pid1(&mut self, frames: &mut FrameAllocator, phys: &mut UserMem, kernel_end: usize, shell_entry: u32) -> (r: bool)
        requires
            old(self).wf(),
            old(frames).wf(),
            frames_fit(*old(frames), *old(phys)),
            kernel_end + 0xFFF <= usize::MAX,
            old(frames).used_frames < usize::MAX - 4,
        ensures
            final(self).wf(),
            final(frames).wf(),
            frames_fit(*final(frames), *final(phys)),
            same_but_procs(*old(self), *final(self)),
            !r ==> final(self).procs == old(self).procs && *final(phys) == *old(phys),
            r ==> {
                let p = final(self).procs@[1];
                let top = p.kstack_base + 8192;
                &&& final(self).procs@ == old(self).procs@.update(1, Process {
                    kstack_base: p.kstack_base, saved_esp: (top - 60) as u32, state: State::Ready, ..old(self).procs@[1] })
                &&& final(phys).bytes@ == overwrite(old(phys).bytes@, top - 60, words(pid1_frame(shell_entry)))
                &&& p.kstack_base % 4096 == 0
                &&& kstack_low(kernel_end as int) <= p.kstack_base / 4096 < kstack_high(*old(frames))
                &&& kstack_fits(*old(frames), p.kstack_base as int / 4096)
                &&& forall|j: int| p.kstack_base / 4096 < j < kstack_high(*old(frames)) ==> !kstack_fits(*old(frames), j)
            },
            r <==> exists|i: int| kstack_low(kernel_end as int) <= i < kstack_high(*old(frames))
                && kstack_fits(*old(frames), i),
    {
        let top = match alloc_kstack(frames, kernel_end) {
            Some(t) => t,
            None => return false,
        };
        let sp = top - 60;
        let w: Vec<u32> = vec![0x10u32, 0x10, 0x10, 0x10, 0, 0, 0, 0, 0, 0, 0, 0, shell_entry, 0x08, 0x202];
        let mut bytes: Vec<u8> = Vec::new();
        push_words(&mut bytes, &w);
        proof {
            lemma_words_len(w@);
            assert(w@ =~= pid1_frame(shell_entry));
            assert(top as int + 0 <= frames.total_frames * 4096) by (nonlinear_arith)
                requires (top - 8192) / 4096 + 1 < frames.total_frames, top % 4096 == 0, top >= 8192;
        }
        phys.write_bytes(sp, bytes.as_slice());
        let mut p = self.procs[1];
        p.kstack_base = top - KSTACK_SIZE;
        p.saved_esp = sp;
        p.state = State::Ready;
        self.procs.set(1, p);
        true
    }

    /// `brk`: 0 asks for the current break; a lower or equal one is taken as is; a higher
    /// one maps fresh user pages from the old break's page end to the new one's in the
    /// current address space, and if a frame runs out keeps the old break (never while twice
    /// as many frames as pages are free). Returns the break.
    pub fn sys_brk(&mut self, frames: &mut FrameAllocator, phys: &mut UserMem, addr: u32) -> (r: u32)
        requires
            old(self).wf(),
            old(frames).wf(),
            frames_fit(*old(frames), *old(phys)),
            old(frames).used_frames < usize::MAX - 0x300000,
        ensures
            final(self).wf(),
            final(frames).wf(),
            frames_fit(*final(frames), *final(phys)),
            brk_post(*old(self), *final(self), *old(frames), *final(frames), addr, r),
    {
        let i = self.current_pid as usize;
        let p = self.procs[i];
        if addr == 0 {
            return p.brk;
        }
        if addr <= p.brk {
            let mut q = p;
            q.brk = addr;
            self.procs.set(i, q);
            return addr;
        }
        let old_end: u32 = p.brk.wrapping_add(0xFFF) & !0xFFFu32;
        let new_end: u32 = addr.wrapping_add(0xFFF) & !0xFFFu32;
        assert(old_end == page_end(p.brk) && new_end == page_end(addr));
        if new_end > old_end {
            let pd = PageDir::from_phys(p.pd);
            let mut page: u32 = old_end;
            let npages: u32 = (new_end - old_end) / 4096;
            let ghost room = free_count(*old(frames), old(frames).total_frames as int) >= 2 * npages;
            let mut k: u32 = 0;
            while k < npages
                invariant
                    *self == *old(self),
                    frames.total_frames == old(frames).total_frames,
                    room ==> free_count(*frames, frames.total_frames as int) >= 2 * (npages - k),
                    room == (free_count(*old(frames), old(frames).total_frames as int) >= 2 * brk_pages(p.brk, addr)),
                    self.wf(),
                    i == self.current_pid,
                    p == old(self).cur(),
                    addr > p.brk,
                    frames.wf(),
                    frames_fit(*frames, *phys),
                    k <= npages,
                    npages <= 0x100000,
                    frames.used_frames <= old(frames).used_frames + 2 * k,
                    old(frames).used_frames < usize::MAX - 0x300000,
                    page == old_end + 4096 * k,
                    old_end + 4096 * npages <= new_end,
                decreases npages - k,
            {
                let ghost f0 = *frames;
                let frame = match frames.alloc_frame() {
                    Some(f) => f,
                    None => {
                        proof {
                            lemma_free_count_all_used(f0, f0.total_frames as int);
                        }
                        return p.brk;
                    },
                };
                proof {
                    let i = (frame / FRAME_SIZE) as int;
                    lemma_free_count_two(f0, *frames, i, i, f0.total_frames as int);
                }
                let ghost f1 = *frames;
                if pd_check(frames, phys, pd.phys) && frames.used_frames < usize::MAX - 8 {
                    proof {
                        let e_at = pd.phys + 4 * crate::paging::pd_index(page as int);
                        assert(0 <= crate::paging::pd_index(page as int) < 1024);
                        let _e = word_at(phys.bytes@, e_at);
                    }
                    pd.map(frames, phys, page, frame as u32, true);
                    proof {
                        let i = frame_of(word_at(phys.bytes@, pd.phys + 4 * pd_index(page as int))) / 4096;
                        lemma_free_count_two(f1, *frames, i as int, i as int, f1.total_frames as int);
                    }
                }
                page = page + 4096;
                k = k + 1;
            }
        }
        let mut q = p;
        q.brk = addr;
        self.procs.set(i, q);
        addr
    }
}

/// What `mmap` does.
pub open spec fn mmap_post(o: Kernel, f: Kernel, of: FrameAllocator, ff: FrameAllocator, op: UserMem, fp: UserMem, length: u32, flags: u32, fd: u32, r: u32) -> bool {
    &&& same_but_procs(o, f)
    &&& ({
        let base = o.cur().mmap_base;
        let pages = (length as int + 0xFFF) / 0x1000;
        if flags & abi::MAP_ANONYMOUS == 0 && fd != 0xFFFFFFFF && fd != 0 {
            r == abi::MAP_FAILED && f == o && ff == of && fp == op
        } else {
            ||| r == base && f.procs@ == o.procs@.update(o.current_pid as int,
                Process { mmap_base: (base + 4096 * pages) as u32, ..o.cur() })
            ||| r == abi::MAP_FAILED && f.procs == o.procs
                && forall|j: int| 0 <= j < ff.total_frames ==> #[trigger] ff.used(j)
        }
    })
    &&& ({
        let pages = (length as int + 0xFFF) / 0x1000;
        !(flags & abi::MAP_ANONYMOUS == 0 && fd != 0xFFFFFFFF && fd != 0)
            && free_count(of, of.total_frames as int) >= 2 * pages
            ==> r == o.cur().mmap_base
    })
}

impl Kernel {
    /// `mmap`: anonymous memory (or a descriptor of 0 or -1) only; maps
    /// `ceil(length / 4096)` fresh user pages at the current process's mapping base, which
    /// moves past them, and returns the old base. Returns `MAP_FAILED` for a file mapping or
    /// when frames run out (the base then stays; never while twice as many frames as pages
    /// are free).
    pub fn sys_mmap(&mut self, frames: &mut FrameAllocator, phys: &mut UserMem, addr: u32, length: u32, prot: u32,
        flags: u32, fd: u32, offset: u32) -> (r: u32)
        requires
            old(self).wf(),
            old(frames).wf(),
            frames_fit(*old(frames), *old(phys)),
            old(frames).used_frames < usize::MAX - 0x300000,
        ensures
            final(self).wf(),
            final(frames).wf(),
            frames_fit(*final(frames), *final(phys)),
            mmap_post(*old(self), *final(self), *old(frames), *final(frames), *old(phys), *final(phys), length, flags, fd, r),
    {
        if flags & abi::MAP_ANONYMOUS == 0 && fd != 0xFFFFFFFF && fd != 0 {
            return abi::MAP_FAILED;
        }
        let pages: u32 = ((length as u64 + 0xFFF) / 0x1000) as u32;
        let i = self.current_pid as usize;
        let p = self.procs[i];
        let base = p.mmap_base;
        let pd = PageDir::from_phys(p.pd);
        let ghost room = free_count(*old(frames), old(frames).total_frames as int) >= 2 * pages;
        let mut k: u32 = 0;
        while k < pages
            invariant
                *self == *old(self),
                frames.total_frames == old(frames).total_frames,
                room ==> free_count(*frames, frames.total_frames as int) >= 2 * (pages - k),
                room == (free_count(*old(frames), old(frames).total_frames as int) >= 2 * ((length as int + 0xFFF) / 0x1000)),
                self.wf(),
                i == self.current_pid,
                p == old(self).cur(),
                base == p.mmap_base,
                frames.wf(),
                frames_fit(*frames, *phys),
                k <= pages,
                pages == (length as int + 0xFFF) / 0x1000,
                frames.used_frames <= old(frames).used_frames + 2 * k,
                old(frames).used_frames < usize::MAX - 0x300000,
                !(flags & abi::MAP_ANONYMOUS == 0 && fd != 0xFFFFFFFF && fd != 0),
            decreases pages - k,
        {
            let page: u32 = (base as u64 + 4096 * k as u64) as u32;
            let ghost f0 = *frames;
            let frame = match frames.alloc_frame() {
                Some(f) => f,
                None => {
                    proof {
                        lemma_free_count_all_used(f0, f0.total_frames as int);
                    }
                    return abi::MAP_FAILED;
                },
            };
            proof {
                let i = (frame / FRAME_SIZE) as int;
                lemma_free_count_two(f0, *frames, i, i, f0.total_frames as int);
            }
            let ghost f1 = *frames;
            if pd_check(frames, phys, pd.phys) && frames.used_frames < usize::MAX - 8 {
                proof {
                    assert(0 <= crate::paging::pd_index(page as int) < 1024);
                    let _e = word_at(phys.bytes@, pd.phys + 4 * crate::paging::pd_index(page as int));
                }
                pd.map(frames, phys, page, frame as u32, true);
                proof {
                    let i = frame_of(word_at(phys.bytes@, pd.phys + 4 * pd_index(page as int))) / 4096;
                    lemma_free_count_two(f1, *frames, i as int, i as int, f1.total_frames as int);
                }
            }
            k = k + 1;
        }
        let page: u32 = (base as u64 + 4096 * pages as u64) as u32;
        let mut q = p;
        q.mmap_base = page;
        self.procs.set(i, q);
        base
    }
}

/// Whether every pipe reference count can grow by `n`.
pub open spec fn refs_room(k: Kernel, n: int) -> bool {
    forall|i: int| 0 <= i < 64 ==> (#[trigger] k.pipe_ctl@[i]).readers + n < u32::MAX
        && k.pipe_ctl@[i].writers + n < u32::MAX
}

/// The pipe table after one more reference for each of the first `n` descriptors of
/// process `pid`.
pub open spec fn add_refs(t: Seq<crate::kernel::PipeBufCtl>, k: Kernel, pid: int, n: int) -> Seq<crate::kernel::PipeBufCtl>
    decreases n,
{
    if n <= 0 { t } else { add_ref(add_refs(t, k, pid, n - 1), k.fd(pid, n - 1)) }
}

/// The child that `fork` makes of `p` in slot `child`, before its kernel stack, directory
/// and saved context are set.
pub open spec fn forked(p: Process, child: u32, parent: u32) -> Process {
    Process { pid: child, state: State::Ready, ppid: parent, exit_code: 0, sigpending: 0, ..p }
}

/// Entry `i` of the directory (or word `i` of the table) at `pd` in memory `m`.
pub open spec fn pde_of(m: Seq<u8>, pd: int, i: int) -> u32 {
    word_at(m, pd + 4 * i)
}

/// Whether entry `e` is present and for user pages: `fork` gives the child its own copy of
/// such a table.
pub open spec fn pde_user(e: u32) -> bool {
    e & 1 != 0 && e & 4 != 0
}

/// The number of user entries among entries 1 to `i - 1` of the directory at `pd`.
pub open spec fn user_tables(m: Seq<u8>, pd: int, i: int) -> nat
    decreases i,
{
    if i <= 1 { 0 } else { user_tables(m, pd, i - 1) + (if pde_user(pde_of(m, pd, i - 1)) { 1nat } else { 0nat }) }
}

proof fn lemma_user_tables_mono(m: Seq<u8>, pd: int, i: int, j: int)
    requires
        i <= j,
    ensures
        user_tables(m, pd, i) <= user_tables(m, pd, j),
    decreases j - i,
{
    if i < j {
        lemma_user_tables_mono(m, pd, i, j - 1);
    }
}

/// What `fork` needs besides a free slot: room for a kernel stack, a sound current
/// directory, and one free frame for the new directory and one for each user table.
pub open spec fn fork_room(k: Kernel, f: FrameAllocator, phys: UserMem, kernel_end: int) -> bool {
    &&& exists|i: int| kstack_low(kernel_end) <= i < kstack_high(f) && kstack_fits(f, i)
    &&& pd_ok(f, phys, k.cur().pd)
    &&& free_count(f, f.total_frames as int) >= 3 + user_tables(phys.bytes@, k.cur().pd as int, 1024)
}

/// Whether the table at `t` (in `fp`) is a copy of the table at `src` (in `op`), made in a
/// frame that was free (in `of`) and is now used (in `ff`).
pub open spec fn table_copied(op: Seq<u8>, fp: Seq<u8>, of: FrameAllocator, ff: FrameAllocator, t: u32, src: u32) -> bool {
    &&& t % 4096 == 0
    &&& !of.used(t as int / 4096)
    &&& ff.used(t as int / 4096)
    &&& forall|j: int| 0 <= j < 1024 ==> #[trigger] pde_of(fp, t as int, j) == pde_of(op, src as int, j)
}

/// Entry `i` of the child's directory at `cpd` (in `fp`) against the parent's at `ppd` (in
/// `op`): absent entries cleared, entry 0 and the other non-user entries shared, and each
/// user entry pointing, with the same flags, to a fresh copy of the parent's table.
pub open spec fn child_slot(op: Seq<u8>, fp: Seq<u8>, of: FrameAllocator, ff: FrameAllocator, ppd: int, cpd: int, i: int) -> bool {
    let pde = pde_of(op, ppd, i);
    let e = pde_of(fp, cpd, i);
    if pde & 1 == 0 {
        e == 0
    } else if i == 0 || pde & 4 == 0 {
        e == pde
    } else {
        exists|t: u32| #[trigger] table_copied(op, fp, of, ff, t, pde & 0xFFFFF000u32) && e == t | (pde & 0xFFF)
    }
}

/// What `fork` writes in entry `i` of the child's directory for the parent's entry `pde`,
/// `t` being the copy of its table when it has one.
spec fn child_entry(pde: u32, i: int, t: u32) -> u32 {
    if pde & 1 == 0 { 0 } else if i == 0 || pde & 4 == 0 { pde } else { t | (pde & 0xFFF) }
}

/// A table copy made by `fork` in a frame other than the new directory's (`np`) and the
/// kernel stack's (`ka`, `ka + 1`).
spec fn fresh_table(op: Seq<u8>, m: Seq<u8>, of: FrameAllocator, f: FrameAllocator, t: u32, src: u32, np: int, ka: int,
    tot: int) -> bool {
    &&& table_copied(op, m, of, f, t, src)
    &&& (t as int) / 4096 < tot
    &&& t + 4096 <= m.len()
    &&& (t as int) / 4096 != np / 4096
    &&& (t as int) / 4096 != ka
    &&& (t as int) / 4096 != ka + 1
}

/// A write to another frame leaves a table copy as it was.
proof fn lemma_table_kept(op: Seq<u8>, m: Seq<u8>, of: FrameAllocator, f: FrameAllocator, t: u32, src: u32,
    fa: int, oa: int, data: Seq<u8>)
    requires
        table_copied(op, m, of, f, t, src),
        fa % 4096 == 0,
        0 <= fa,
        fa != t,
        0 <= oa,
        oa + data.len() <= 4096,
        t + 4096 <= m.len(),
    ensures
        table_copied(op, overwrite(m, fa + oa, data), of, f, t, src),
{
    let n = overwrite(m, fa + oa, data);
    assert forall|j: int| 0 <= j < 1024 implies #[trigger] pde_of(n, t as int, j) == pde_of(op, src as int, j) by {
        assert(pde_of(m, t as int, j) == pde_of(op, src as int, j));
        lemma_word_kept(m, fa, oa, data, t as int, 4 * j);
    }
}

/// Whether every byte of the 68-byte trap frame at `esp` lies in a frame in use.
pub open spec fn frame_in_use(f: FrameAllocator, esp: int) -> bool {
    forall|b: int| esp <= b < esp + 68 ==> #[trigger] f.used(b / 4096)
}

/// A write of `data` at offset `oa` of frame `fa` leaves the word at offset `ob` of another
/// frame `fb` alone.
proof fn lemma_word_kept(m: Seq<u8>, fa: int, oa: int, data: Seq<u8>, fb: int, ob: int)
    requires
        fa % 4096 == 0,
        fb % 4096 == 0,
        fa != fb,
        0 <= fa,
        0 <= fb,
        0 <= oa,
        oa + data.len() <= 4096,
        0 <= ob <= 4092,
        fb + ob + 4 <= m.len(),
    ensures
        word_at(overwrite(m, fa + oa, data), fb + ob) == word_at(m, fb + ob),
{
    assert(fb + ob + 4 <= fa + oa || fa + oa + data.len() <= fb + ob) by (nonlinear_arith)
        requires fa % 4096 == 0, fb % 4096 == 0, fa != fb, 0 <= fa, 0 <= fb, 0 <= oa,
            oa + data.len() <= 4096, 0 <= ob <= 4092;
    crate::paging::lemma_word_other(m, fa + oa, data, fb + ob);
}

/// A byte inside the frame at `f` belongs to that frame.
proof fn lemma_in_frame(f: int, b: int)
    requires
        f % 4096 == 0,
        0 <= f <= b < f + 4096,
    ensures
        b / 4096 == f / 4096,
{
    assert(b / 4096 == f / 4096) by (nonlinear_arith)
        requires f % 4096 == 0, 0 <= f <= b, b < f + 4096;
}

/// A write of `data` at offset `o` of a frame `f` free in `of` leaves every byte of the
/// frames used in `of` alone.
proof fn lemma_used_bytes_kept(m: Seq<u8>, op: Seq<u8>, of: FrameAllocator, f: int, o: int, data: Seq<u8>)
    requires
        f % 4096 == 0,
        0 <= f,
        0 <= o,
        o + data.len() <= 4096,
        !of.used(f / 4096),
        m.len() == op.len(),
        forall|b: int| 0 <= b < m.len() && of.used(b / 4096) ==> #[trigger] m[b] == op[b],
    ensures
        forall|b: int| 0 <= b < m.len() && of.used(b / 4096) ==> #[trigger] overwrite(m, f + o, data)[b] == op[b],
{
    assert forall|b: int| 0 <= b < m.len() && of.used(b / 4096) implies #[trigger] overwrite(m, f + o, data)[b] == op[b] by {
        if f + o <= b < f + o + data.len() {
            lemma_in_frame(f, b);
        }
    }
}

/// Words made of bytes that agree agree.
proof fn lemma_word_same_bytes(m: Seq<u8>, n: Seq<u8>, a: int)
    requires
        m[a] == n[a] && m[a + 1] == n[a + 1] && m[a + 2] == n[a + 2] && m[a + 3] == n[a + 3],
    ensures
        word_at(m, a) == word_at(n, a),
{
}

proof fn lemma_add_ref_bounds(t: Seq<crate::kernel::PipeBufCtl>, e: FdEntry, i: int)
    requires
        0 <= i < t.len(),
        crate::kernel::fd_pipe_ok(e),
        t.len() == 64,
    ensures
        add_ref(t, e)[i].readers <= t[i].readers + 1,
        add_ref(t, e)[i].writers <= t[i].writers + 1,
        add_ref(t, e)[i].start == t[i].start,
        add_ref(t, e)[i].len == t[i].len,
        add_ref(t, e).len() == 64,
{
}

/// What `fork` does.
pub open spec fn fork_post(o: Kernel, f: Kernel, of: FrameAllocator, ff: FrameAllocator, op: UserMem, fp: UserMem, kernel_end: usize,
    frame_esp: u32, r: i32) -> bool {
    &&& f.current_pid == o.current_pid
    &&& f.opened == o.opened
    &&& f.pipe_data == o.pipe_data
    &&& f.fs == o.fs
    &&& ({
        let cur = o.current_pid;
        if forall|j: int| 1 <= j < MAX_PROCS ==> o.procs@[j].state != State::Free {
            r == -abi::ENOMEM && f == o
        } else if r == -abi::ENOMEM {
            exists|c: int| {
                &&& lowest_free_slot(o.procs@, c)
                &&& f.procs@ == o.procs@.update(c, Process {
                    state: State::Free, kstack_base: f.procs@[c].kstack_base, pd: f.procs@[c].pd,
                    ..forked(o.cur(), c as u32, cur) })
                &&& f.fdtable == o.fdtable
                &&& f.pipe_ctl == o.pipe_ctl
            }
        } else {
            let c = r as int;
            let q = f.procs@[c];
            &&& lowest_free_slot(o.procs@, c)
            &&& f.procs@ == o.procs@.update(c, Process {
                kstack_base: q.kstack_base, pd: q.pd, saved_esp: q.saved_esp, ..forked(o.cur(), c as u32, cur) })
            &&& q.saved_esp == q.kstack_base + 8192 - 68
            &&& forall|d: int| 0 <= d < MAX_FDS ==> f.fd(c, d) == o.fd(cur as int, d)
            &&& forall|i: int| 0 <= i < MAX_PROCS * MAX_FDS && !(c * 32 <= i < c * 32 + 32)
                ==> f.fdtable@[i] == o.fdtable@[i]
            &&& f.pipe_ctl@ == add_refs(o.pipe_ctl@, o, cur as int, 32)
            &&& q.pd % 4096 == 0 && !of.used(q.pd as int / 4096) && ff.used(q.pd as int / 4096)
            &&& word_at(fp.bytes@, q.saved_esp + 44) == 0
            &&& q.kstack_base % 4096 == 0
            &&& kstack_low(kernel_end as int) <= q.kstack_base as int / 4096 < kstack_high(of)
            &&& kstack_fits(of, q.kstack_base as int / 4096)
            &&& forall|j: int| q.kstack_base as int / 4096 < j < kstack_high(of) ==> !kstack_fits(of, j)
            &&& ff.used(q.kstack_base as int / 4096) && ff.used(q.kstack_base as int / 4096 + 1)
            &&& pd_ok(of, op, o.cur().pd) ==> forall|i: int| 0 <= i < 1024
                ==> #[trigger] child_slot(op.bytes@, fp.bytes@, of, ff, o.cur().pd as int, q.pd as int, i)
            &&& frame_in_use(of, frame_esp as int) ==> forall|b: int| 0 <= b < 68 && !(44 <= b < 48)
                ==> #[trigger] fp.bytes@[q.saved_esp + b] == op.bytes@[frame_esp + b]
        }
    })
    &&& (exists|j: int| 1 <= j < MAX_PROCS && o.procs@[j].state == State::Free)
        && fork_room(o, of, op, kernel_end as int) ==> r != -abi::ENOMEM
}

impl Kernel {
    /// `fork`: the lowest free slot becomes a ready copy of the current process (its own
    /// pid, the current process as parent, no status, nothing pending) with a new kernel
    /// stack, a new directory (absent entries cleared, directory entry 0 and kernel tables
    /// shared, user tables copied), a copy of the saved context at `frame_esp` with 0 as the
    /// child's result, and a copy of every descriptor (each pipe end counted once more).
    /// Returns the child's pid. Error: `-ENOMEM` when no slot, stack or frame is free, or a
    /// user table of the current directory lies outside memory (the slot is then left
    /// free); with a free slot, a sound current directory, a kernel stack and a free frame
    /// for the new directory and each user table (`fork_room`) it succeeds.
    #[verifier::rlimit(50)]
    pub fn sys_fork(&mut self, frames: &mut FrameAllocator, phys: &mut UserMem, kernel_end: usize, frame_esp: u32) -> (r: i32)
        requires
            old(self).wf(),
            refs_room(*old(self), 32),
            old(frames).wf(),
            frames_fit(*old(frames), *old(phys)),
            kernel_end + 0xFFF <= usize::MAX,
            old(frames).used_frames < usize::MAX - 0x1000,
            old(phys).contains(old(self).cur().pd as int, 4096),
            old(phys).contains(frame_esp as int, 68),
            old(self).cur().state != State::Free,
        ensures
            final(self).wf(),
            final(frames).wf(),
            frames_fit(*final(frames), *final(phys)),
            fork_post(*old(self), *final(self), *old(frames), *final(frames), *old(phys), *final(phys), kernel_end, frame_esp, r),
    {
        let ghost room = fork_room(*old(self), *old(frames), *old(phys), kernel_end as int);
        let ghost pdok = pd_ok(*old(frames), *old(phys), old(self).cur().pd);
        let ghost tot = old(frames).total_frames as int;
        let ghost op = old(phys).bytes@;
        let new_pid = match self.alloc_pid() {
            Some(p) => p,
            None => return -abi::ENOMEM,
        };
        let cur = self.current_pid;
        let child = new_pid as usize;
        let parent = self.procs[cur as usize];
        let mut c = parent;
        c.pid = new_pid;
        c.state = State::Ready;
        c.ppid = cur;
        c.exit_code = 0;
        c.sigpending = 0;
        self.procs.set(child, c);
        let kstack = match alloc_kstack(frames, kernel_end) {
            Some(s) => s,
            None => {
                c.state = State::Free;
                self.procs.set(child, c);
                assert(old(self).procs@[child as int].state == State::Free);
                assert(self.procs@ == old(self).procs@.update(child as int, Process {
                    state: State::Free, kstack_base: self.procs@[child as int].kstack_base, pd: self.procs@[child as int].pd,
                    ..forked(old(self).cur(), child as u32, cur) }));
                assert(lowest_free_slot(old(self).procs@, child as int));
                return -abi::ENOMEM;
            },
        };
        let ghost ka = (kstack - 8192) / 4096;
        c.kstack_base = kstack - KSTACK_SIZE;
        self.procs.set(child, c);
        proof {
            lemma_free_count_two(*old(frames), *frames, ka as int, ka + 1, tot);
            assert(c.kstack_base % 4096 == 0 && c.kstack_base / 4096 == ka) by (nonlinear_arith)
                requires c.kstack_base == kstack - 8192, kstack % 4096 == 0, kstack >= 8192, ka == (kstack - 8192) / 4096;
        }
        let ghost f0 = *frames;
        let new_pd: u32 = match frames.alloc_frame() {
            Some(f) => {
                proof {
                    lemma_free_count_two(f0, *frames, f as int / 4096, f as int / 4096, tot);
                    assert(f + 4096 <= phys.bytes@.len()) by (nonlinear_arith)
                        requires f % 4096 == 0, f / 4096 < frames.total_frames, frames.total_frames * 4096 <= phys.bytes@.len();
                }
                f as u32
            },
            None => {
                proof {
                    lemma_free_count_all_used(f0, tot);
                }
                c.state = State::Free;
                self.procs.set(child, c);
                assert(old(self).procs@[child as int].state == State::Free);
                assert(self.procs@ == old(self).procs@.update(child as int, Process {
                    state: State::Free, kstack_base: self.procs@[child as int].kstack_base, pd: self.procs@[child as int].pd,
                    ..forked(old(self).cur(), child as u32, cur) }));
                assert(lowest_free_slot(old(self).procs@, child as int));
                return -abi::ENOMEM;
            },
        };
        proof {
            assert forall|j: int| 0 <= j < BITMAP_FRAMES && old(frames).used(j) implies #[trigger] frames.used(j) by {
                assert(f0.used(j));
            }
        }
        c.pd = new_pd;
        self.procs.set(child, c);
        let old_pd = parent.pd;
        let ghost mut tabs: Seq<u32> = Seq::new(1024, |t: int| 0u32);
        let mut i: u32 = 0;
        while i < 1024
            invariant
                frames.wf(),
                frames_fit(*frames, *phys),
                frames.used_frames < usize::MAX - 0x1000 + 3 + 2 * i,
                i <= 1024,
                phys.contains(old_pd as int, 4096),
                phys.contains(new_pd as int, 4096),
                phys.contains(frame_esp as int, 68),
                self.wf(),
                old(self).wf(),
                self.procs@ == old(self).procs@.update(child as int, c),
                c == (Process { kstack_base: c.kstack_base, pd: c.pd, ..forked(old(self).cur(), new_pid, cur) }),
                c.pd == new_pd,
                c.kstack_base == kstack - 8192,
                kstack >= 8192,
                kstack <= 3072 * 4096,
                (kstack - 8192) / 4096 + 1 < frames.total_frames,
                kstack % 4096 == 0,
                lowest_free_slot(old(self).procs@, child as int),
                child == new_pid,
                cur == old(self).current_pid,
                old(self).cur().state != State::Free,
                parent == old(self).cur(),
                old_pd == parent.pd,
                self.fdtable == old(self).fdtable,
                self.pipe_ctl == old(self).pipe_ctl,
                self.pipe_data == old(self).pipe_data,
                self.opened == old(self).opened,
                self.fs == old(self).fs,
                self.current_pid == old(self).current_pid,
                frames.total_frames == tot,
                tot == old(frames).total_frames,
                op == old(phys).bytes@,
                phys.bytes@.len() == op.len(),
                room == fork_room(*old(self), *old(frames), *old(phys), kernel_end as int),
                pdok == pd_ok(*old(frames), *old(phys), old_pd),
                new_pd % 4096 == 0,
                !old(frames).used(new_pd as int / 4096),
                frames.used(new_pd as int / 4096),
                new_pd as int / 4096 < tot,
                ka == (kstack - 8192) / 4096,
                !old(frames).used(ka) && !old(frames).used(ka + 1),
                frames.used(ka) && frames.used(ka + 1),
                new_pd as int / 4096 != ka && new_pd as int / 4096 != ka + 1,
                forall|j: int| 0 <= j < BITMAP_FRAMES && old(frames).used(j) ==> #[trigger] frames.used(j),
                forall|b: int| 0 <= b < phys.bytes@.len() && old(frames).used(b / 4096) ==> #[trigger] phys.bytes@[b] == op[b],
                tabs.len() == 1024,
                room ==> pdok,
                room ==> free_count(*frames, tot) + user_tables(op, old_pd as int, i as int)
                    >= user_tables(op, old_pd as int, 1024),
                pdok ==> forall|t: int| 0 <= t < i ==> #[trigger] pde_of(phys.bytes@, new_pd as int, t)
                    == child_entry(pde_of(op, old_pd as int, t), t, tabs[t]),
                pdok ==> forall|t: int| #![trigger tabs[t]] 1 <= t < i && pde_user(pde_of(op, old_pd as int, t))
                    ==> fresh_table(op, phys.bytes@, *old(frames), *frames, tabs[t], pde_of(op, old_pd as int, t) & 0xFFFFF000u32,
                        new_pd as int, ka, tot),
            decreases 1024 - i,
        {
            let pde = phys.read_u32(old_pd + 4 * i);
            proof {
                if pdok {
                    let a = old_pd + 4 * i;
                    lemma_in_frame(old_pd as int, a);
                    lemma_in_frame(old_pd as int, a + 1);
                    lemma_in_frame(old_pd as int, a + 2);
                    lemma_in_frame(old_pd as int, a + 3);
                    lemma_word_same_bytes(phys.bytes@, op, a);
                    assert(pde == pde_of(op, old_pd as int, i as int));
                }
            }
            let ghost m0 = phys.bytes@;
            let ghost fr0 = *frames;
            let e: u32 = if pde & 1 == 0 {
                0
            } else if i == 0 || pde & 4 == 0 {
                pde
            } else {
                let src = pde & 0xFFFFF000;
                proof {
                    lemma_frame_aligned(pde);
                }
                if !phys.has(src, 4096) {
                    proof {
                        if room {
                            assert(pde == word_at(op, old_pd + 4 * (i as int)));
                        }
                    }
                    c.state = State::Free;
                    self.procs.set(child, c);
                    assert(old(self).procs@[child as int].state == State::Free);
                    assert(self.procs@ == old(self).procs@.update(child as int, Process {
                        state: State::Free, kstack_base: self.procs@[child as int].kstack_base, pd: self.procs@[child as int].pd,
                        ..forked(old(self).cur(), child as u32, cur) }));
                    assert(lowest_free_slot(old(self).procs@, child as int));
                    return -abi::ENOMEM;
                }
                let ghost f1 = *frames;
                proof {
                    if room {
                        assert(pde_user(pde_of(op, old_pd as int, i as int)));
                        assert(user_tables(op, old_pd as int, i + 1) == user_tables(op, old_pd as int, i as int) + 1);
                        lemma_user_tables_mono(op, old_pd as int, i + 1, 1024);
                    }
                }
                let pt = match frames.alloc_frame() {
                    Some(f) => {
                        proof {
                            lemma_free_count_two(f1, *frames, f as int / 4096, f as int / 4096, tot);
                            assert(f + 4096 <= phys.bytes@.len()) by (nonlinear_arith)
                                requires f % 4096 == 0, f / 4096 < frames.total_frames, frames.total_frames * 4096 <= phys.bytes@.len();
                        }
                        f as u32
                    },
                    None => {
                        proof {
                            lemma_free_count_all_used(f1, tot);
                        }
                        c.state = State::Free;
                        self.procs.set(child, c);
                        assert(old(self).procs@[child as int].state == State::Free);
                        assert(self.procs@ == old(self).procs@.update(child as int, Process {
                            state: State::Free, kstack_base: self.procs@[child as int].kstack_base, pd: self.procs@[child as int].pd,
                            ..forked(old(self).cur(), child as u32, cur) }));
                        assert(lowest_free_slot(old(self).procs@, child as int));
                        return -abi::ENOMEM;
                    },
                };
                proof {
                    assert forall|j: int| 0 <= j < BITMAP_FRAMES && old(frames).used(j) implies #[trigger] frames.used(j) by {
                        assert(f1.used(j));
                    }
                    if pdok {
                        assert forall|t: int| #![trigger tabs[t]] 1 <= t < i && pde_user(pde_of(op, old_pd as int, t))
                            implies fresh_table(op, phys.bytes@, *old(frames), *frames, tabs[t],
                                pde_of(op, old_pd as int, t) & 0xFFFFF000u32, new_pd as int, ka, tot)
                                && (tabs[t] as int) / 4096 != pt as int / 4096 by {
                            assert(f1.used(tabs[t] as int / 4096));
                        }
                    }
                }
                let mut j: u32 = 0;
                while j < 1024
                    invariant
                        frames_fit(*frames, *phys),
                        phys.contains(src as int, 4096),
                        phys.contains(pt as int, 4096),
                        phys.contains(old_pd as int, 4096),
                        phys.contains(new_pd as int, 4096),
                        phys.contains(frame_esp as int, 68),
                        j <= 1024,
                        i < 1024,
                        pt % 4096 == 0,
                        src % 4096 == 0,
                        src == pde & 0xFFFFF000,
                        new_pd % 4096 == 0,
                        !old(frames).used(pt as int / 4096),
                        frames.used(pt as int / 4096),
                        pt as int / 4096 != new_pd as int / 4096,
                        op == old(phys).bytes@,
                        phys.bytes@.len() == op.len(),
                        tabs.len() == 1024,
                        pdok == pd_ok(*old(frames), *old(phys), old_pd),
                        pdok ==> pde == pde_of(op, old_pd as int, i as int),
                        pdok ==> old(frames).used(src as int / 4096),
                        forall|b: int| 0 <= b < phys.bytes@.len() && old(frames).used(b / 4096) ==> #[trigger] phys.bytes@[b] == op[b],
                        pdok ==> forall|jj: int| 0 <= jj < j ==> #[trigger] pde_of(phys.bytes@, pt as int, jj) == pde_of(op, src as int, jj),
                        pdok ==> forall|t: int| 0 <= t < i ==> #[trigger] pde_of(phys.bytes@, new_pd as int, t)
                            == child_entry(pde_of(op, old_pd as int, t), t, tabs[t]),
                        pdok ==> forall|t: int| #![trigger tabs[t]] 1 <= t < i && pde_user(pde_of(op, old_pd as int, t))
                            ==> fresh_table(op, phys.bytes@, *old(frames), *frames, tabs[t], pde_of(op, old_pd as int, t) & 0xFFFFF000u32,
                                new_pd as int, ka, tot) && (tabs[t] as int) / 4096 != pt as int / 4096,
                    decreases 1024 - j,
                {
                    let pte = phys.read_u32(src + 4 * j);
                    let ghost m1 = phys.bytes@;
                    proof {
                        if pdok {
                            let a = src + 4 * j;
                            lemma_in_frame(src as int, a);
                            lemma_in_frame(src as int, a + 1);
                            lemma_in_frame(src as int, a + 2);
                            lemma_in_frame(src as int, a + 3);
                            lemma_word_same_bytes(phys.bytes@, op, a);
                        }
                    }
                    phys.write_u32(pt + 4 * j, pte);
                    proof {
                        let d = le_bytes(pte);
                        lemma_used_bytes_kept(m1, op, *old(frames), pt as int, 4 * j, d);
                        lemma_word_same(m1, pt + 4 * j, pte);
                        if pdok {
                            assert(pte == pde_of(op, src as int, j as int));
                            assert(phys.bytes@ == overwrite(m1, pt + 4 * j, d));
                            assert(pde_of(phys.bytes@, pt as int, j as int) == pte);
                            assert forall|jj: int| 0 <= jj < j + 1 implies #[trigger] pde_of(phys.bytes@, pt as int, jj)
                                == pde_of(op, src as int, jj) by {
                                if jj < j {
                                    assert(pde_of(m1, pt as int, jj) == pde_of(op, src as int, jj));
                                    lemma_word_other(m1, pt + 4 * j, d, pt + 4 * jj);
                                }
                            }
                            assert forall|t: int| 0 <= t < i implies #[trigger] pde_of(phys.bytes@, new_pd as int, t)
                                == child_entry(pde_of(op, old_pd as int, t), t, tabs[t]) by {
                                assert(pde_of(m1, new_pd as int, t) == child_entry(pde_of(op, old_pd as int, t), t, tabs[t]));
                                lemma_word_kept(m1, pt as int, 4 * j, d, new_pd as int, 4 * t);
                            }
                            assert forall|t: int| #![trigger tabs[t]] 1 <= t < i && pde_user(pde_of(op, old_pd as int, t))
                                implies fresh_table(op, phys.bytes@, *old(frames), *frames, tabs[t],
                                    pde_of(op, old_pd as int, t) & 0xFFFFF000u32, new_pd as int, ka, tot)
                                    && (tabs[t] as int) / 4096 != pt as int / 4096 by {
                                lemma_table_kept(op, m1, *old(frames), *frames, tabs[t], pde_of(op, old_pd as int, t) & 0xFFFFF000u32,
                                    pt as int, 4 * j, d);
                            }
                        }
                    }
                    j = j + 1;
                }
                proof {
                    tabs = tabs.update(i as int, pt);
                    assert(pt + 4096 <= phys.bytes@.len());
                    if pdok {
                        assert(table_copied(op, phys.bytes@, *old(frames), *frames, pt, src));
                        assert(pt as int / 4096 != ka && pt as int / 4096 != ka + 1);
                    }
                }
                pt | (pde & 0xFFF)
            };
            let ghost m2 = phys.bytes@;
            phys.write_u32(new_pd + 4 * i, e);
            proof {
                let d = le_bytes(e);
                lemma_used_bytes_kept(m2, op, *old(frames), new_pd as int, 4 * i, d);
                if pdok {
                    lemma_word_same(m2, new_pd + 4 * i, e);
                    assert(e == child_entry(pde_of(op, old_pd as int, i as int), i as int, tabs[i as int]));
                    assert forall|t: int| 0 <= t < i + 1 implies #[trigger] pde_of(phys.bytes@, new_pd as int, t)
                        == child_entry(pde_of(op, old_pd as int, t), t, tabs[t]) by {
                        if t < i {
                            assert(pde_of(m2, new_pd as int, t) == child_entry(pde_of(op, old_pd as int, t), t, tabs[t]));
                            lemma_word_other(m2, new_pd + 4 * i, d, new_pd + 4 * t);
                        } else {
                            assert(pde_of(phys.bytes@, new_pd as int, t) == e);
                        }
                    }
                    assert forall|t: int| #![trigger tabs[t]] 1 <= t < i + 1 && pde_user(pde_of(op, old_pd as int, t))
                        implies fresh_table(op, phys.bytes@, *old(frames), *frames, tabs[t],
                            pde_of(op, old_pd as int, t) & 0xFFFFF000u32, new_pd as int, ka, tot) by {
                        lemma_table_kept(op, m2, *old(frames), *frames, tabs[t], pde_of(op, old_pd as int, t) & 0xFFFFF000u32,
                            new_pd as int, 4 * i, d);
                    }
                }
                if room {
                    if !pde_user(pde_of(op, old_pd as int, i as int)) || i == 0 {
                        assert(user_tables(op, old_pd as int, i + 1) == user_tables(op, old_pd as int, i as int)) ;
                    }
                }
            }
            i = i + 1;
        }
        let child_esp = kstack - 68;
        proof {
            assert(kstack as int <= frames.total_frames * 4096) by (nonlinear_arith)
                requires (kstack - 8192) / 4096 + 1 < frames.total_frames, kstack % 4096 == 0, kstack >= 8192;
            assert(child_esp == (ka + 1) * 4096 + 4028 && ka + 1 >= 0) by (nonlinear_arith)
                requires child_esp == kstack - 68, ka == (kstack - 8192) / 4096, kstack % 4096 == 0, kstack >= 8192;
        }
        let ctx = phys.read_bytes(frame_esp, 68);
        let ghost m3 = phys.bytes@;
        phys.write_bytes(child_esp, ctx.as_slice());
        let ghost m4 = phys.bytes@;
        phys.write_u32(child_esp + 44, 0);
        proof {
            crate::usermem::lemma_le_roundtrip(0);
            let kf = (ka + 1) * 4096;
            assert(kf % 4096 == 0 && kf / 4096 == ka + 1) by (nonlinear_arith) requires kf == (ka + 1) * 4096, ka + 1 >= 0;
            if frame_in_use(*old(frames), frame_esp as int) {
                assert forall|b: int| 0 <= b < 68 && !(44 <= b < 48) implies #[trigger] phys.bytes@[child_esp + b]
                    == op[frame_esp + b] by {
                    assert(old(frames).used((frame_esp + b) / 4096));
                    assert(ctx@[b] == m3[frame_esp + b]);
                }
            }
            if pdok {
                assert forall|t: int| 0 <= t < 1024 implies #[trigger] child_slot(op, phys.bytes@, *old(frames), *frames,
                    old_pd as int, new_pd as int, t) by {
                    assert(pde_of(m3, new_pd as int, t) == child_entry(pde_of(op, old_pd as int, t), t, tabs[t]));
                    lemma_word_kept(m3, kf, 4028, ctx@, new_pd as int, 4 * t);
                    lemma_word_kept(m4, kf, 4072, le_bytes(0), new_pd as int, 4 * t);
                    let pde = pde_of(op, old_pd as int, t);
                    if pde & 1 != 0 && !(t == 0 || pde & 4 == 0) {
                        let src = pde & 0xFFFFF000u32;
                        lemma_table_kept(op, m3, *old(frames), *frames, tabs[t], src, kf, 4028, ctx@);
                        lemma_table_kept(op, m4, *old(frames), *frames, tabs[t], src, kf, 4072, le_bytes(0));
                        assert(table_copied(op, phys.bytes@, *old(frames), *frames, tabs[t], src));
                    }
                }
            }
        }
        c.saved_esp = child_esp;
        self.procs.set(child, c);
        let mut fd: u32 = 0;
        while fd < MAX_FDS as u32
            invariant
                self.wf(),
                fd <= 32,
                refs_room(*old(self), 32),
                self.procs@ == old(self).procs@.update(child as int, c),
                lowest_free_slot(old(self).procs@, child as int),
                child == new_pid,
                cur == old(self).current_pid,
                old(self).cur().state != State::Free,
                self.current_pid == old(self).current_pid,
                self.pipe_data == old(self).pipe_data,
                self.opened == old(self).opened,
                self.fs == old(self).fs,
                self.pipe_ctl@ == add_refs(old(self).pipe_ctl@, *old(self), cur as int, fd as int),
                forall|i: int| 0 <= i < 64 ==> (#[trigger] self.pipe_ctl@[i]).readers <= old(self).pipe_ctl@[i].readers + fd
                    && self.pipe_ctl@[i].writers <= old(self).pipe_ctl@[i].writers + fd,
                forall|f: int| 0 <= f < fd ==> self.fd(child as int, f) == old(self).fd(cur as int, f),
                forall|i: int| 0 <= i < MAX_PROCS * MAX_FDS && !(child * 32 <= i < child * 32 + fd)
                    ==> self.fdtable@[i] == old(self).fdtable@[i],
            decreases 32 - fd,
        {
            let entry = self.get_fd(cur, fd);
            assert(entry == old(self).fd(cur as int, fd as int)) by {
                assert(cur != child);
            }
            self.fdtable.set(child * MAX_FDS + fd as usize, entry);
            let ghost before = self.pipe_ctl@;
            self.add_pipe_ref(entry);
            proof {
                assert forall|i: int| 0 <= i < 64 implies (#[trigger] self.pipe_ctl@[i]).readers <= old(self).pipe_ctl@[i].readers + fd + 1
                    && self.pipe_ctl@[i].writers <= old(self).pipe_ctl@[i].writers + fd + 1 by {
                    lemma_add_ref_bounds(before, entry, i);
                }
            }
            fd = fd + 1;
        }
        new_pid as i32
    }
}

/// Whether `n` pointers, then a null one, start at `addr`, each pointing to a
/// zero-terminated string in the window.
pub open spec fn args_ok(mem: UserMem, addr: u32, n: int) -> bool {
    &&& 0 <= n
    &&& mem.contains(addr as int, 4 * n + 4)
    &&& word_at(mem.bytes@, addr - mem.base + 4 * n) == 0
    &&& forall|i: int| 0 <= i < n ==> {
        let p = #[trigger] word_at(mem.bytes@, addr - mem.base + 4 * i);
        p != 0 && mem.base <= p && cstr_ok(mem.bytes@, p - mem.base)
    }
}

/// The strings of a pointer array, each with its terminating zero.
pub open spec fn arg_strings(mem: UserMem, addr: u32, n: int) -> Seq<Seq<u8>> {
    Seq::new(n as nat, |i: int| cstr(mem.bytes@, word_at(mem.bytes@, addr - mem.base + 4 * i) - mem.base).push(0u8))
}

/// The zero-terminated string at `p`, with its zero.
fn user_cstr(mem: &UserMem, p: u32) -> (r: Vec<u8>)
    requires
        mem.base <= p,
        cstr_ok(mem.bytes@, p - mem.base),
    ensures
        r@ == cstr(mem.bytes@, p - mem.base).push(0u8),
{
    let off = (p - mem.base) as usize;
    let ghost z = first_zero_from(mem.bytes@, off as int);
    proof { crate::fileio::lemma_first_zero_bounds(mem.bytes@, off as int); }
    let n: usize = mem.bytes.len();
    let mut r: Vec<u8> = Vec::new();
    let mut i = off;
    while mem.bytes[i] != 0
        invariant
            n == mem.bytes@.len(),
            off <= i <= z,
            z < mem.bytes@.len(),
            z == first_zero_from(mem.bytes@, off as int),
            mem.bytes@[z] == 0u8,
            forall|k: int| off <= k < z ==> mem.bytes@[k] != 0u8,
            r@ == mem.bytes@.subrange(off as int, i as int),
        decreases z - i,
    {
        r.push(mem.bytes[i]);
        assert(r@ =~= mem.bytes@.subrange(off as int, i + 1));
        i = i + 1;
    }
    r.push(0u8);
    r
}

/// The strings of the null-terminated pointer array at `addr` (none for a null `addr`).
pub fn read_args(mem: &UserMem, addr: u32) -> (r: Vec<Vec<u8>>)
    requires
        addr != 0 ==> exists|n: int| args_ok(*mem, addr, n),
    ensures
        addr == 0 ==> r@.len() == 0,
        addr != 0 ==> deep(r@) == arg_strings(*mem, addr, choose|n: int| args_ok(*mem, addr, n)),
{
    let mut out: Vec<Vec<u8>> = Vec::new();
    if addr == 0 {
        return out;
    }
    let ghost n = choose|n: int| args_ok(*mem, addr, n);
    let mut i: u32 = 0;
    loop
        invariant
            addr != 0,
            args_ok(*mem, addr, n),
            0 <= i <= n,
            deep(out@) == arg_strings(*mem, addr, n).take(i as int),
        decreases n - i,
    {
        let at = addr + 4 * i;
        assert(at - mem.base == addr - mem.base + 4 * i);
        let p = mem.read_u32(at);
        if p == 0 {
            proof {
                if (i as int) < n {
                    assert(word_at(mem.bytes@, addr - mem.base + 4 * i) != 0);
                }
            }
            assert(arg_strings(*mem, addr, n).take(i as int) =~= arg_strings(*mem, addr, n));
            return out;
        }
        proof {
            if (i as int) >= n {
                assert(false);
            }
        }
        assert(p == word_at(mem.bytes@, addr - mem.base + 4 * i));
        let s = user_cstr(mem, p);
        let ghost before = out@;
        out.push(s);
        proof {
            assert(deep(out@) =~= deep(before).push(s@));
            assert(arg_strings(*mem, addr, n).take(i + 1) =~= arg_strings(*mem, addr, n).take(i as int).push(s@));
        }
        i = i + 1;
    }
}

/// The strings of the pointer array at `addr` (none for a null `addr`).
pub open spec fn exec_args(mem: UserMem, addr: u32) -> Seq<Seq<u8>> {
    if addr == 0 { Seq::empty() } else { arg_strings(mem, addr, choose|n: int| args_ok(mem, addr, n)) }
}

/// What `execve` does.
pub open spec fn execve_post(o: Kernel, f: Kernel, of: FrameAllocator, ff: FrameAllocator, op: UserMem, fp: UserMem, m: UserMem, filename: u32, argv: u32, envp: u32, r: (i32, Option<(u32, u32)>)) -> bool {
    &&& same_but_procs(o, f)
    &&& ({
        let name = latin1(cstr(m.bytes@, filename - m.base));
        let cur = o.current_pid as int;
        match o.fs.lookup(name) {
            Some(data) if name.len() > 0 => {
                if r.0 == 0 {
                    &&& header_error(data) is None
                    &&& r.1 matches Some((entry, sp)) && entry == u32_at(data, 24)
                        && sp == exec_stack_spec(exec_args(m, argv), exec_args(m, envp), entry,
                            u16_at(data, 44) as u32, phdr_addr_of(data, u16_at(data, 44) as int)).0
                    &&& f.procs@ == o.procs@.update(cur, Process {
                        pd: f.procs@[cur].pd, brk: MMAP_BASE, mmap_base: MMAP_BASE, ..o.cur() })
                    &&& layout_ok(elf_segments(data)) ==> {
                        let st = exec_stack_spec(exec_args(m, argv), exec_args(m, envp), u32_at(data, 24),
                            u16_at(data, 44) as u32, phdr_addr_of(data, u16_at(data, 44) as int));
                        &&& elf_loaded(fp.bytes@, f.procs@[cur].pd as int, data)
                        &&& stack_loaded(fp.bytes@, f.procs@[cur].pd as int, st.0, st.1, st.2, st.3)
                    }
                } else {
                    &&& r.0 == -abi::ENOENT && r.1 is None && f.procs == o.procs
                    &&& !elf_loadable(of, data)
                }
            },
            _ => r.0 == -abi::ENOENT && r.1 is None && f == o
                && ff == of && fp == op,
        }
    })
}

/// Whether `execve` of the name at `filename` gets as far as reading its arguments: the
/// name is not empty and names a file whose header is a loadable executable's.
pub open spec fn exec_ready(k: Kernel, mem: UserMem, filename: u32) -> bool {
    let name = latin1(cstr(mem.bytes@, filename - mem.base));
    name.len() > 0 && (k.fs.lookup(name) matches Some(d) && header_error(d) is None)
}

/// Whether the argument and environment arrays at `argv` and `envp` are well formed and
/// their strings fit the user stack.
pub open spec fn exec_args_ok(mem: UserMem, argv: u32, envp: u32) -> bool {
    &&& argv != 0 ==> exists|n: int| args_ok(mem, argv, n)
    &&& envp != 0 ==> exists|n: int| args_ok(mem, envp, n)
    &&& concat(exec_args(mem, argv)).len() + concat(exec_args(mem, envp)).len()
        + 4 * (exec_args(mem, argv).len() + exec_args(mem, envp).len()) + 128 <= STACK_SIZE
}

impl Kernel {
    /// `execve`: replaces the current program with the executable named by the string at
    /// `filename`, giving it the argument and environment strings of the arrays at `argv` and
    /// `envp`: a new address space (see `exec_elf`), the program break and mapping base
    /// reset. Returns 0 with the new entry point and stack pointer for the caller to resume
    /// at. Error: `-ENOENT` for an empty name, a missing file or one that cannot be loaded.
    /// A file that `elf_loadable` accepts is loaded, and the new address space then holds its
    /// segments and the stack (see `execve_post`).
    pub fn sys_execve(&mut self, mem: &UserMem, frames: &mut FrameAllocator, phys: &mut UserMem, filename: u32, argv: u32, envp: u32)
        -> (r: (i32, Option<(u32, u32)>))
        requires
            old(self).wf(),
            old(frames).wf(),
            frames_fit(*old(frames), *old(phys)),
            old(frames).used_frames < usize::MAX - 8,
            mem.base <= filename,
            cstr_ok(mem.bytes@, filename - mem.base),
            exec_ready(*old(self), *mem, filename) ==> exec_args_ok(*mem, argv, envp),
        ensures
            final(self).wf(),
            final(frames).wf(),
            frames_fit(*final(frames), *final(phys)),
            execve_post(*old(self), *final(self), *old(frames), *final(frames), *old(phys), *final(phys), *mem, filename, argv, envp, r),
    {
        let fname = user_string(mem, filename);
        if fname.unicode_len() == 0 {
            return (-abi::ENOENT, None);
        }
        let result = match self.fs.file_read(fname.as_str()) {
            Some(data) => {
                match parse_elf(data) {
                    Err(_) => return (-abi::ENOENT, None),
                    Ok(_) => {},
                }
                let argv_s = read_args(mem, argv);
                let envp_s = read_args(mem, envp);
                exec_elf(frames, phys, data, &argv_s, &envp_s)
            },
            None => return (-abi::ENOENT, None),
        };
        match result {
            Ok((pd, entry, sp)) => {
                let i = self.current_pid as usize;
                let mut p = self.procs[i];
                p.pd = pd;
                p.brk = MMAP_BASE;
                p.mmap_base = MMAP_BASE;
                self.procs.set(i, p);
                (0, Some((entry, sp)))
            },
            Err(_) => (-abi::ENOENT, None),
        }
    }
}

impl Kernel {
    /// Makes a user process from the executable `data` (loaded as by `load_elf`): the lowest
    /// free slot, ready, child of process 1, user 1000 in session 1 and its own group,
    /// working directory `/`, standard descriptors 0 to 2, and a kernel stack holding the
    /// context of `user_frame`. Returns its pid. Fails when the executable cannot be loaded
    /// or no slot or kernel stack is free; an executable that `elf_loadable` accepts, with a
    /// free slot and room for a kernel stack after loading, always gets a process.
    pub fn create_user(&mut self, frames: &mut FrameAllocator, phys: &mut UserMem, kernel_end: usize, data: &[u8]) -> (r: Result<u32, ()>)
        requires
            old(self).wf(),
            old(frames).wf(),
            frames_fit(*old(frames), *old(phys)),
            kernel_end + 0xFFF <= usize::MAX,
            old(frames).used_frames < usize::MAX - 0x100000,
        ensures
            final(self).wf(),
            final(frames).wf(),
            frames_fit(*final(frames), *final(phys)),
            final(self).current_pid == old(self).current_pid,
            final(self).pipe_ctl == old(self).pipe_ctl,
            final(self).pipe_data == old(self).pipe_data,
            final(self).fs == old(self).fs,
            r is Err ==> final(self).procs == old(self).procs && final(self).fdtable == old(self).fdtable,
            header_error(data@) is Some ==> r is Err && *final(frames) == *old(frames) && *final(phys) == *old(phys),
            (forall|j: int| 1 <= j < MAX_PROCS ==> old(self).procs@[j].state != State::Free) ==> r is Err,
            elf_loadable(*old(frames), data@)
                && (exists|j: int| 1 <= j < MAX_PROCS && old(self).procs@[j].state == State::Free)
                && (exists|i: int| kstack_low(kernel_end as int) <= i < kstack_high(*final(frames))
                    && kstack_fits(*final(frames), i))
                ==> r is Ok,
            r matches Ok(pid) ==> {
                let q = final(self).procs@[pid as int];
                let top = q.kstack_base + 8192;
                &&& lowest_free_slot(old(self).procs@, pid as int)
                &&& header_error(data@) is None
                &&& final(self).procs@ == old(self).procs@.update(pid as int, Process {
                    state: State::Ready, pid, ppid: 1, pd: q.pd, kstack_base: q.kstack_base, saved_esp: (top - 68) as u32,
                    uid: 1000, gid: 1000, euid: 1000, egid: 1000, pgid: pid, sid: 1, brk: MMAP_BASE, cwd: q.cwd, cwd_len: 1,
                    ..old(self).procs@[pid as int] })
                &&& q.cwd@ == old(self).procs@[pid as int].cwd@.update(0, 0x2fu8)
                &&& final(self).fd(pid as int, 0).ftype == FdType::Stdin
                &&& final(self).fd(pid as int, 1).ftype == FdType::Stdout
                &&& final(self).fd(pid as int, 2).ftype == FdType::Stderr
                &&& final(phys).bytes@ == overwrite(final(phys).bytes@, top - 68, words(user_frame(top as u32,
                    u32_at(data@, 24), boot_stack_spec(u32_at(data@, 24), u16_at(data@, 44) as u32,
                        phdr_addr_of(data@, u16_at(data@, 44) as int)).0)))
                &&& final(frames).used((top - 8192) / 4096) && final(frames).used((top - 8192) / 4096 + 1)
                &&& kstack_low(kernel_end as int) <= (top - 8192) / 4096
            },
    {
        let (pd, entry, user_sp) = match load_elf(frames, phys, data) {
            Ok(t) => t,
            Err(_) => return Err(()),
        };
        let new_pid = match self.alloc_pid() {
            Some(p) => p,
            None => return Err(()),
        };
        if frames.used_frames >= usize::MAX - 8 {
            proof {
                if elf_loadable(*old(frames), data@) {
                    crate::elf::lemma_load_frames_nonneg(elf_segments(data@));
                }
            }
            return Err(());
        }
        let ghost before = *frames;
        let kstack = match alloc_kstack(frames, kernel_end) {
            Some(k) => k,
            None => {
                proof {
                    assert forall|i: int| kstack_low(kernel_end as int) <= i < kstack_high(*frames)
                        implies !#[trigger] kstack_fits(*frames, i) by {
                        assert(!kstack_fits(before, i));
                        assert(i < BITMAP_FRAMES);
                        assert(frames.used(i) == before.used(i));
                        assert(frames.used(i + 1) == before.used(i + 1));
                    }
                }
                return Err(());
            },
        };
        let child = new_pid as usize;
        let mut c = self.procs[child];
        c.state = State::Ready;
        c.pid = new_pid;
        c.ppid = 1;
        c.pd = pd;
        c.kstack_base = kstack - KSTACK_SIZE;
        c.uid = 1000;
        c.gid = 1000;
        c.euid = 1000;
        c.egid = 1000;
        c.pgid = new_pid;
        c.sid = 1;
        c.brk = MMAP_BASE;
        c.cwd[0] = 0x2f;
        c.cwd_len = 1;
        let esp = kstack - 68;
        c.saved_esp = esp;
        self.procs.set(child, c);
        let ghost procs1 = self.procs;
        self.set_fd(new_pid, 0, FdType::Stdin, false);
        self.set_fd(new_pid, 1, FdType::Stdout, false);
        self.set_fd(new_pid, 2, FdType::Stderr, false);
        let w: Vec<u32> = vec![0x10u32, 0x10, 0x10, 0x10, 0, 0, 0, kstack - 20, 0, 0, 0, 0, entry, 0x1B, 0x202, user_sp, 0x23];
        let mut bytes: Vec<u8> = Vec::new();
        push_words(&mut bytes, &w);
        proof {
            lemma_words_len(w@);
            assert(w@ =~= user_frame(kstack, entry, user_sp));
            assert(kstack as int <= frames.total_frames * 4096) by (nonlinear_arith)
                requires (kstack - 8192) / 4096 + 1 < frames.total_frames, kstack % 4096 == 0, kstack >= 8192;
        }
        phys.write_bytes(esp, bytes.as_slice());
        proof {
            assert(overwrite(phys.bytes@, esp as int, bytes@) =~= phys.bytes@);
        }
        Ok(new_pid)
    }
}

} // verus!
