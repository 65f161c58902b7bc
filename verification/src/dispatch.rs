//! The system call trap: the call is taken apart from the saved registers and carried out.
//! What the kernel cannot do itself (resume another process, read the keyboard, show
//! text, jump into a new program) it hands back to the caller.
use vstd::prelude::*;
use crate::abi;
use crate::kernel::{Kernel, State, dup2_post, sys_pipe_post, dup_post};
use crate::frames::FrameAllocator;
use crate::usermem::{UserMem, le_bytes, overwrite};
use crate::paging::frames_fit;
use crate::fileio::{ReadOut, WriteOut, read_span, write_span, ioctl_span, cstr_ok, cstr, latin1, fcntl_post, ioctl_post,
    open_post, close_post, lseek_post, read_post, write_post, getdents_post, getdents64_post, stat_post, fstat_post};
use crate::sched::{exit_post, waitpid_post};
use crate::syscalls::{kill_post, setuid_post, setgid_post, setsid_post, setpgid_post, getsid_post, getpgid_post,
    chdir_post, access_post, uname_post, getcwd_post, sigaction_post, sigprocmask_post, sigpending_post, clock_gettime_post,
    getrandom_post, prlimit64_post, getrlimit_post};
use crate::systable::{Syscall, decode_syscall, spec_decode};
use crate::machine::{refs_room, exec_ready, exec_args_ok, fork_post, brk_post, mmap_post, execve_post};

verus! {

/// What the trap handler does after a system call.
pub enum SysOut {
    /// Return this value to the caller.
    Ret(u32),
    /// The process ended: resume this process, or halt when there is none.
    Switch(Option<u32>),
    /// Read a line of at most `len` keys from the keyboard into `buf`.
    Keyboard(u32, u32),
    /// Show this text; the call returns its length.
    Console(Vec<u8>),
    /// Resume in the new program at this entry point with this stack pointer; the call
    /// returns 0.
    Exec(u32, u32),
    /// An unknown call, with its number and `ebx`, `ecx`, `edx`: note it on the serial line
    /// with the current pid; the call returns `-ENOSYS`.
    Unknown(u32, u32, u32, u32),
}

impl SysOut {
    /// The value the caller finds in `eax` when the answer returns to it at once: the value
    /// itself, the length of the text shown, 0 for a new program and `-ENOSYS` for an
    /// unknown call. `None` when the caller does not resume now (another process runs, or
    /// the answer waits for keys).
    pub fn eax(&self) -> (r: Option<u32>)
        ensures
            r == (match *self {
                SysOut::Ret(v) => Some(v),
                SysOut::Console(t) => Some(t@.len() as u32),
                SysOut::Exec(_, _) => Some(0u32),
                SysOut::Unknown(_, _, _, _) => Some((-abi::ENOSYS) as u32),
                SysOut::Switch(_) | SysOut::Keyboard(_, _) => None::<u32>,
            }),
    {
        match self {
            SysOut::Ret(v) => Some(*v),
            SysOut::Console(t) => Some(t.len() as u32),
            SysOut::Exec(_, _) => Some(0),
            SysOut::Unknown(_, _, _, _) => Some((-abi::ENOSYS) as u32),
            SysOut::Switch(_) | SysOut::Keyboard(_, _) => None,
        }
    }
}

/// Whether a call can be carried out: its pointers lie in user memory and the tables have
/// room for what it adds.
pub open spec fn call_ok(k: Kernel, mem: UserMem, frames: FrameAllocator, phys: UserMem, kernel_end: usize,
    frame_esp: u32, call: Syscall) -> bool {
    &&& k.wf()
    &&& refs_room(k, 32)
    &&& frames.wf()
    &&& frames_fit(frames, phys)
    &&& frames.used_frames < usize::MAX - 0x300000
    &&& kernel_end + 0xFFF <= usize::MAX
    &&& k.cur().state != State::Free
    &&& k.cur().cwd_len <= 256
    &&& phys.contains(k.cur().pd as int, 4096)
    &&& phys.contains(frame_esp as int, 68)
    &&& forall|n: Seq<char>| #[trigger] k.fs.lookup(n) matches Some(d) ==> d.len() <= u32::MAX
    &&& match call {
        Syscall::Read(fd, buf, len) => mem.contains(buf as int, read_span(k, fd, len)),
        Syscall::Write(fd, buf, len) => mem.contains(buf as int, write_span(k, fd, len)),
        Syscall::Open(p, _, _) => mem.base <= p && cstr_ok(mem.bytes@, p - mem.base),
        Syscall::Waitpid(_, st, _) => st != 0 ==> mem.contains(st as int, 4),
        Syscall::Wait4(_, st, _, _) => st != 0 ==> mem.contains(st as int, 4),
        Syscall::Execve(f, a, e) => {
            &&& mem.base <= f && cstr_ok(mem.bytes@, f - mem.base)
            &&& exec_ready(k, mem, f) ==> exec_args_ok(mem, a, e)
        },
        Syscall::Chdir(p) => mem.contains(p as int, 1),
        Syscall::Access(p, _) => mem.contains(p as int, 1),
        Syscall::Ioctl(_, req, argp) => argp != 0 ==> mem.contains(argp as int, ioctl_span(req)),
        Syscall::Uname(b) => mem.contains(b as int, 390),
        Syscall::Getcwd(b, size) => k.cur().cwd_len < size ==> mem.contains(b as int, k.cur().cwd_len + 1),
        Syscall::Pipe(p) => mem.contains(p as int, 8),
        Syscall::Pipe2(p, _) => mem.contains(p as int, 8),
        Syscall::Sigaction(sig, act, oa) => !(sig >= 32 || sig == abi::SIGKILL || sig == abi::SIGSTOP) ==> {
            &&& oa != 0 ==> mem.contains(oa as int, 20)
            &&& act != 0 ==> mem.contains(act as int, 20)
        },
        Syscall::Sigprocmask(_, set, os) => (os != 0 ==> mem.contains(os as int, 8)) && (set != 0 ==> mem.contains(set as int, 8)),
        Syscall::Sigpending(s) => s != 0 ==> mem.contains(s as int, 8),
        Syscall::Getdents(fd, d, c) => fd == 0 && k.fs.files is Some ==> mem.contains(d as int, c as int),
        Syscall::Getdents64(fd, d, c) => fd == 0 && k.fs.files is Some ==> mem.contains(d as int, c as int),
        Syscall::Stat(p, sb) => mem.base <= p && cstr_ok(mem.bytes@, p - mem.base) && (sb != 0 ==> mem.contains(sb as int, 88)),
        Syscall::Fstat(_, sb) => sb != 0 ==> mem.contains(sb as int, 88),
        Syscall::ClockGettime(_, tp) => tp != 0 ==> mem.contains(tp as int, 8),
        Syscall::Getrandom(b, len, _) => mem.contains(b as int, if len > 256 { 256 } else { len as int }),
        Syscall::Prlimit64(_, _, _, o) => o != 0 ==> mem.contains(o as int, 16),
        Syscall::Getrlimit(_, r) => r != 0 ==> mem.contains(r as int, 16),
        _ => true,
    }
}

/// What the handler returns for the calls that only read the process table or answer a
/// constant.
pub open spec fn simple_result(k: Kernel, call: Syscall) -> Option<u32> {
    match call {
        Syscall::Time => Some(1740000000u32),
        Syscall::Getpid => Some(k.current_pid),
        Syscall::Getppid => Some(k.cur().ppid),
        Syscall::Getuid => Some(k.cur().uid),
        Syscall::Geteuid => Some(k.cur().euid),
        Syscall::Getgid => Some(k.cur().gid),
        Syscall::Getegid => Some(k.cur().egid),
        Syscall::Getpgrp => Some(k.cur().pgid),
        Syscall::Alarm(_) => Some(0u32),
        Syscall::Readlink(_, _, _) => Some((-abi::EINVAL) as u32),
        Syscall::Sigsuspend(_) => Some((-abi::EINTR) as u32),
        Syscall::Sigaltstack(_, _) => Some(0u32),
        Syscall::Sigreturn => Some(0u32),
        Syscall::SchedYield => Some(0u32),
        Syscall::Munmap(_, _) => Some(0u32),
        Syscall::Mprotect(_, _, _) => Some(0u32),
        Syscall::Echo(x) => Some(x),
        Syscall::Symlink(_, _) => Some((-abi::ENOSYS) as u32),
        Syscall::Unlink(_) => Some((-abi::ENOSYS) as u32),
        Syscall::Mkdir(_, _) => Some((-abi::ENOSYS) as u32),
        Syscall::Rmdir(_) => Some((-abi::ENOSYS) as u32),
        Syscall::Rename(_, _) => Some((-abi::ENOSYS) as u32),
        Syscall::Chmod(_, _) => Some(0u32),
        Syscall::Nanosleep(_, _) => Some(0u32),
        Syscall::Umask(_) => Some(0o22u32),
        Syscall::Setrlimit(_, _) => Some(0u32),
        Syscall::Utimensat(_, _, _, _) => Some(0u32),
        Syscall::Syslog(_, _, _) => Some((-abi::ENOSYS) as u32),
        _ => None,
    }
}

proof fn lemma_refs_room_bounded(k: Kernel)
    requires
        refs_room(k, 32),
    ensures
        k.refs_bounded(),
{
    assert forall|i: int| 0 <= i < 64 implies (#[trigger] k.pipe_ctl@[i]).readers < u32::MAX
        && k.pipe_ctl@[i].writers < u32::MAX by {
        assert(k.pipe_ctl@[i].readers + 32 < u32::MAX);
    }
}

/// The calls whose work touches neither frames nor physical memory.
pub open spec fn dispatch_keeps(call: Syscall) -> bool {
    match call {
        Syscall::Exit(_) | Syscall::ExitGroup(_) | Syscall::Kill(_, _) | Syscall::Tgkill(_, _, _)
        | Syscall::Fcntl(_, _, _) | Syscall::Fcntl64(_, _, _) | Syscall::Dup2(_, _) | Syscall::Open(_, _, _)
        | Syscall::Ioctl(_, _, _) | Syscall::Pipe(_) | Syscall::Pipe2(_, _) | Syscall::Waitpid(_, _, _)
        | Syscall::Wait4(_, _, _, _) | Syscall::Echo(_) | Syscall::Setuid(_) | Syscall::Setgid(_) | Syscall::Setsid
        | Syscall::Setpgid(_, _) | Syscall::Getsid(_) | Syscall::Getpgid(_) | Syscall::Close(_) | Syscall::Lseek(_, _, _)
        | Syscall::Dup(_) | Syscall::Read(_, _, _) | Syscall::Write(_, _, _) | Syscall::Chdir(_) | Syscall::Access(_, _)
        | Syscall::Uname(_) | Syscall::Getcwd(_, _) | Syscall::Sigaction(_, _, _) | Syscall::Sigprocmask(_, _, _)
        | Syscall::Sigpending(_) | Syscall::Getdents(_, _, _) | Syscall::Getdents64(_, _, _) | Syscall::Stat(_, _)
        | Syscall::Fstat(_, _) | Syscall::ClockGettime(_, _) | Syscall::Getrandom(_, _, _) | Syscall::Prlimit64(_, _, _, _)
        | Syscall::Getrlimit(_, _) => true,
        _ => false,
    }
}

/// Those of them that leave the caller's memory as it was too.
pub open spec fn dispatch_keeps_mem(call: Syscall) -> bool {
    match call {
        Syscall::Exit(_) | Syscall::ExitGroup(_) | Syscall::Kill(_, _) | Syscall::Tgkill(_, _, _)
        | Syscall::Fcntl(_, _, _) | Syscall::Fcntl64(_, _, _) | Syscall::Dup2(_, _) | Syscall::Open(_, _, _)
        | Syscall::Echo(_) | Syscall::Setuid(_) | Syscall::Setgid(_) | Syscall::Setsid | Syscall::Setpgid(_, _)
        | Syscall::Getsid(_) | Syscall::Getpgid(_) | Syscall::Close(_) | Syscall::Lseek(_, _, _) | Syscall::Dup(_)
        | Syscall::Write(_, _, _) | Syscall::Chdir(_) | Syscall::Access(_, _) => true,
        _ => false,
    }
}

/// Whether `pipe2` was asked for close-on-exec descriptors.
pub open spec fn pipe2_cloexec(flags: u32) -> bool {
    flags & abi::O_CLOEXEC != 0
}

/// The caller's memory after the two descriptors of a new pipe are stored at `off`.
pub open spec fn pipe_fds_stored(m: Seq<u8>, off: int, fds: Option<(u32, u32)>) -> Seq<u8> {
    match fds {
        Some((a, b)) => overwrite(overwrite(m, off, le_bytes(a)), off + 4, le_bytes(b)),
        None => m,
    }
}

/// How the handler's answer `r` and the kernel after it (`o` before, `f` after; the
/// caller's memory `om` then `fm`, at `base`) follow from the operation each call is
/// carried out by.
pub open spec fn dispatch_post(o: Kernel, f: Kernel, om: Seq<u8>, fm: Seq<u8>, base: int, call: Syscall, r: SysOut) -> bool {
    match call {
        Syscall::Exit(c) => r matches SysOut::Switch(s) && exit_post(o, f, c, s),
        Syscall::ExitGroup(c) => r matches SysOut::Switch(s) && exit_post(o, f, c, s),
        Syscall::Kill(p, sig) => exists|x: i32| r == SysOut::Ret(x as u32) && #[trigger] kill_post(o, f, p, sig, x),
        Syscall::Tgkill(_, p, sig) => exists|x: i32| r == SysOut::Ret(x as u32) && #[trigger] kill_post(o, f, p, sig, x),
        Syscall::Fcntl(fd, c, a) => exists|x: i32| r == SysOut::Ret(x as u32) && #[trigger] fcntl_post(o, f, fd, c, a, x),
        Syscall::Fcntl64(fd, c, a) => exists|x: i32| r == SysOut::Ret(x as u32) && #[trigger] fcntl_post(o, f, fd, c, a, x),
        Syscall::Dup2(a, b) => exists|x: i32| r == SysOut::Ret(x as u32) && #[trigger] dup2_post(o, f, a, b, x),
        Syscall::Open(p, fl, _) => r matches SysOut::Ret(v) && open_post(o, f, latin1(cstr(om, p - base)), fl, v),
        Syscall::Ioctl(_, req, argp) => f == o && exists|x: i32| r == SysOut::Ret(x as u32)
            && #[trigger] ioctl_post(o, om, base, req, argp, x, fm),
        Syscall::Pipe(p) => exists|x: (i32, Option<(u32, u32)>)| r == SysOut::Ret(x.0 as u32)
            && #[trigger] sys_pipe_post(o, f, x, false) && fm == pipe_fds_stored(om, p - base, x.1),
        Syscall::Pipe2(p, flags) => exists|x: (i32, Option<(u32, u32)>)| r == SysOut::Ret(x.0 as u32)
            && #[trigger] sys_pipe_post(o, f, x, pipe2_cloexec(flags)) && fm == pipe_fds_stored(om, p - base, x.1),
        Syscall::Waitpid(pid, st, opt) => {
            let off = st - base;
            let p = pid as i32;
            let op = opt as i32;
            exists|x: i32| r == SysOut::Ret(x as u32) && #[trigger] waitpid_post(o, f, om, fm, off, p, st, op, x)
        },
        Syscall::Wait4(pid, st, opt, _) => {
            let off = st - base;
            let p = pid as i32;
            let op = opt as i32;
            exists|x: i32| r == SysOut::Ret(x as u32) && #[trigger] waitpid_post(o, f, om, fm, off, p, st, op, x)
        },
        Syscall::Echo(x) => r == SysOut::Ret(x) && f == o,
        Syscall::Setuid(u) => exists|x: i32| r == SysOut::Ret(x as u32) && #[trigger] setuid_post(o, f, u, x),
        Syscall::Setgid(g) => exists|x: i32| r == SysOut::Ret(x as u32) && #[trigger] setgid_post(o, f, g, x),
        Syscall::Setsid => exists|x: u32| r == SysOut::Ret(x) && #[trigger] setsid_post(o, f, x),
        Syscall::Setpgid(p, g) => exists|x: i32| r == SysOut::Ret(x as u32) && #[trigger] setpgid_post(o, f, p, g, x),
        Syscall::Getsid(p) => f == o && exists|x: u32| r == SysOut::Ret(x) && #[trigger] getsid_post(o, p, x),
        Syscall::Getpgid(p) => f == o && exists|x: i32| r == SysOut::Ret(x as u32) && #[trigger] getpgid_post(o, p, x),
        Syscall::Close(fd) => exists|x: u32| r == SysOut::Ret(x) && #[trigger] close_post(o, f, fd, x),
        Syscall::Lseek(fd, off, wh) => exists|x: i32| r == SysOut::Ret(x as u32) && #[trigger] lseek_post(o, f, fd, off, wh, x),
        Syscall::Dup(fd) => exists|x: i32| r == SysOut::Ret(x as u32) && #[trigger] dup_post(o, f, fd, x),
        _ => true,
    }
}

/// How the answer to the calls that read or write the caller's memory (`om` before, `fm`
/// after) follows from the operation each is carried out by.
pub open spec fn dispatch_post_mem(o: Kernel, f: Kernel, om: UserMem, fm: UserMem, call: Syscall, r: SysOut) -> bool {
    match call {
        Syscall::Read(fd, buf, len) => exists|x: ReadOut| #[trigger] read_post(o, f, om, fm, fd, buf, len, x)
            && r == (match x { ReadOut::Done(n) => SysOut::Ret(n), ReadOut::Keyboard => SysOut::Keyboard(buf, len) }),
        Syscall::Write(fd, buf, len) => fm == om && exists|x: WriteOut| #[trigger] write_post(o, f, om, fd, buf, len, x)
            && r == (match x { WriteOut::Done(n) => SysOut::Ret(n), WriteOut::Console(t) => SysOut::Console(t) }),
        Syscall::Chdir(p) => fm == om && exists|x: i32| r == SysOut::Ret(x as u32) && #[trigger] chdir_post(o, f, om, p, x),
        Syscall::Access(p, md) => f == o && fm == om
            && exists|x: i32| r == SysOut::Ret(x as u32) && #[trigger] access_post(o, om, p, md, x),
        Syscall::Uname(b) => f == o && exists|x: i32| r == SysOut::Ret(x as u32) && #[trigger] uname_post(o, om, fm, b, x),
        Syscall::Getcwd(b, sz) => f == o
            && exists|x: i32| r == SysOut::Ret(x as u32) && #[trigger] getcwd_post(o, om, fm, b, sz, x),
        Syscall::Sigaction(sg, a, oa) => exists|x: i32| r == SysOut::Ret(x as u32)
            && #[trigger] sigaction_post(o, f, om, fm, sg, a, oa, x),
        Syscall::Sigprocmask(h, st, os) => exists|x: i32| r == SysOut::Ret(x as u32)
            && #[trigger] sigprocmask_post(o, f, om, fm, h, st, os, x),
        Syscall::Sigpending(st) => f == o
            && exists|x: i32| r == SysOut::Ret(x as u32) && #[trigger] sigpending_post(o, om, fm, st, x),
        Syscall::Getdents(fd, d, c) => f == o
            && exists|x: i32| r == SysOut::Ret(x as u32) && #[trigger] getdents_post(o, om, fm, fd, d, c, x),
        Syscall::Getdents64(fd, d, c) => f == o
            && exists|x: i32| r == SysOut::Ret(x as u32) && #[trigger] getdents64_post(o, om, fm, fd, d, c, x),
        Syscall::Stat(p, sb) => f == o && exists|x: u32| r == SysOut::Ret(x) && #[trigger] stat_post(o, om, fm, p, sb, x),
        Syscall::Fstat(fd, sb) => f == o && exists|x: u32| r == SysOut::Ret(x) && #[trigger] fstat_post(o, om, fm, fd, sb, x),
        Syscall::ClockGettime(c, tp) => f == o
            && exists|x: i32| r == SysOut::Ret(x as u32) && #[trigger] clock_gettime_post(o, om, fm, c, tp, x),
        Syscall::Getrandom(b, l, fl) => f == o
            && exists|x: i32| r == SysOut::Ret(x as u32) && #[trigger] getrandom_post(o, om, fm, b, l, fl, x),
        Syscall::Prlimit64(p, res, nr, orl) => f == o
            && exists|x: i32| r == SysOut::Ret(x as u32) && #[trigger] prlimit64_post(o, om, fm, p, res, nr, orl, x),
        Syscall::Getrlimit(res, rl) => f == o
            && exists|x: i32| r == SysOut::Ret(x as u32) && #[trigger] getrlimit_post(o, om, fm, res, rl, x),
        _ => true,
    }
}

/// How the answer to the calls that take frames or touch physical memory follows from the
/// operation each is carried out by (`of`, `op` the frames and physical memory before, `ff`,
/// `fp` after; `m` the caller's memory).
pub open spec fn dispatch_post_phys(o: Kernel, f: Kernel, of: FrameAllocator, ff: FrameAllocator, op: UserMem, fp: UserMem,
    m: UserMem, kernel_end: usize, frame_esp: u32, call: Syscall, r: SysOut) -> bool {
    match call {
        Syscall::Fork => exists|x: i32| r == SysOut::Ret(x as u32) && #[trigger] fork_post(o, f, of, ff, op, fp, kernel_end, frame_esp, x),
        Syscall::Brk(a) => exists|x: u32| r == SysOut::Ret(x) && #[trigger] brk_post(o, f, of, ff, a, x),
        Syscall::Mmap(_, l, _, fl, fd, _) => exists|x: u32| r == SysOut::Ret(x) && #[trigger] mmap_post(o, f, of, ff, op, fp, l, fl, fd, x),
        Syscall::Execve(name, a, e) => exists|x: (i32, Option<(u32, u32)>)| #[trigger] execve_post(o, f, of, ff, op, fp, m, name, a, e, x)
            && r == (match x.1 { Some((entry, sp)) => SysOut::Exec(entry, sp), None => SysOut::Ret(x.0 as u32) }),
        _ => true,
    }
}

/// Carries out system call `num` with the saved registers `regs` (`gs, fs, es, ds, edi,
/// esi, ebp, esp, ebx, edx, ecx, eax`) of the current process, whose memory is `mem`;
/// physical memory is `phys`, the kernel ends at `kernel_end` and the trap frame is at
/// `frame_esp`.
#[verifier::rlimit(100)]
pub fn handle_syscall(k: &mut Kernel, mem: &mut UserMem, frames: &mut FrameAllocator, phys: &mut UserMem,
    kernel_end: usize, frame_esp: u32, num: u32, regs: &[u32; 12]) -> (r: SysOut)
    requires
        call_ok(*old(k), *old(mem), *old(frames), *old(phys), kernel_end, frame_esp, spec_decode(num, regs@)),
    ensures
        final(k).wf(),
        final(mem).base == old(mem).base,
        simple_result(*old(k), spec_decode(num, regs@)) matches Some(v) ==> r == SysOut::Ret(v) && *final(k) == *old(k),
        simple_result(*old(k), spec_decode(num, regs@)) is Some ==> *final(mem) == *old(mem)
            && *final(frames) == *old(frames) && *final(phys) == *old(phys),
        dispatch_post(*old(k), *final(k), old(mem).bytes@, final(mem).bytes@, old(mem).base as int, spec_decode(num, regs@), r),
        spec_decode(num, regs@) is Unknown ==> r == SysOut::Unknown(num, regs@[8], regs@[10], regs@[9])
            && *final(k) == *old(k) && *final(mem) == *old(mem) && *final(frames) == *old(frames) && *final(phys) == *old(phys),
        dispatch_post_mem(*old(k), *final(k), *old(mem), *final(mem), spec_decode(num, regs@), r),
        dispatch_post_phys(*old(k), *final(k), *old(frames), *final(frames), *old(phys), *final(phys), *old(mem), kernel_end,
            frame_esp, spec_decode(num, regs@), r),
        dispatch_keeps(spec_decode(num, regs@)) ==> *final(frames) == *old(frames) && *final(phys) == *old(phys)
            && (dispatch_keeps_mem(spec_decode(num, regs@)) ==> *final(mem) == *old(mem)),
{
    let call = decode_syscall(num, regs);
    proof { lemma_refs_room_bounded(*k); }
    match call {
        Syscall::Exit(code) => SysOut::Switch(k.sys_exit(code)),
        Syscall::ExitGroup(code) => SysOut::Switch(k.sys_exit_group(code)),
        Syscall::Fork => {
            let ghost (k0, f0, p0) = (*k, *frames, *phys);
            let x = k.sys_fork(frames, phys, kernel_end, frame_esp);
            assert(fork_post(k0, *k, f0, *frames, p0, *phys, kernel_end, frame_esp, x));
            SysOut::Ret(x as u32)
        },
        Syscall::Read(fd, buf, len) => {
            let ghost (k0, m0) = (*k, *mem);
            let x = k.sys_read(mem, fd, buf, len);
            assert(read_post(k0, *k, m0, *mem, fd, buf, len, x));
            match x {
                ReadOut::Done(n) => SysOut::Ret(n),
                ReadOut::Keyboard => SysOut::Keyboard(buf, len),
            }
        },
        Syscall::Write(fd, buf, len) => {
            let ghost k0 = *k;
            let x = k.sys_write(mem, fd, buf, len);
            assert(write_post(k0, *k, *mem, fd, buf, len, x));
            match x {
                WriteOut::Done(n) => SysOut::Ret(n),
                WriteOut::Console(t) => SysOut::Console(t),
            }
        },
        Syscall::Open(p, flags, mode) => SysOut::Ret(k.sys_open(mem, p, flags, mode)),
        Syscall::Close(fd) => {
            let ghost k0 = *k;
            let x = k.sys_close(fd);
            assert(close_post(k0, *k, fd, x));
            SysOut::Ret(x)
        },
        Syscall::Waitpid(pid, st, opt) => {
            let ghost k0 = *k;
            let ghost m0 = mem.bytes@;
            let x = k.sys_waitpid(mem, pid as i32, st, opt as i32);
            assert(waitpid_post(k0, *k, m0, mem.bytes@, st - mem.base, pid as i32, st, opt as i32, x));
            SysOut::Ret(x as u32)
        },
        Syscall::Wait4(pid, st, opt, ru) => {
            let ghost k0 = *k;
            let ghost m0 = mem.bytes@;
            let x = k.sys_wait4(mem, pid as i32, st, opt as i32, ru);
            assert(waitpid_post(k0, *k, m0, mem.bytes@, st - mem.base, pid as i32, st, opt as i32, x));
            SysOut::Ret(x as u32)
        },
        Syscall::Execve(f, a, e) => {
            let ghost (k0, f0, p0) = (*k, *frames, *phys);
            let (rv, at) = k.sys_execve(mem, frames, phys, f, a, e);
            assert(execve_post(k0, *k, f0, *frames, p0, *phys, *mem, f, a, e, (rv, at)));
            match at {
                Some((entry, sp)) => SysOut::Exec(entry, sp),
                None => SysOut::Ret(rv as u32),
            }
        },
        Syscall::Chdir(p) => {
            let ghost k0 = *k;
            let x = k.sys_chdir(mem, p);
            assert(chdir_post(k0, *k, *mem, p, x));
            SysOut::Ret(x as u32)
        },
        Syscall::Time => SysOut::Ret(k.sys_time()),
        Syscall::Getpid => SysOut::Ret(k.sys_getpid()),
        Syscall::Getppid => SysOut::Ret(k.sys_getppid()),
        Syscall::Getuid => SysOut::Ret(k.sys_getuid()),
        Syscall::Geteuid => SysOut::Ret(k.sys_geteuid()),
        Syscall::Getgid => SysOut::Ret(k.sys_getgid()),
        Syscall::Getegid => SysOut::Ret(k.sys_getegid()),
        Syscall::Setuid(u) => {
            let ghost k0 = *k;
            let x = k.sys_setuid(u);
            assert(setuid_post(k0, *k, u, x));
            SysOut::Ret(x as u32)
        },
        Syscall::Setgid(g) => {
            let ghost k0 = *k;
            let x = k.sys_setgid(g);
            assert(setgid_post(k0, *k, g, x));
            SysOut::Ret(x as u32)
        },
        Syscall::Alarm(s) => SysOut::Ret(k.sys_alarm(s)),
        Syscall::Brk(a) => {
            let ghost (k0, f0) = (*k, *frames);
            let x = k.sys_brk(frames, phys, a);
            assert(brk_post(k0, *k, f0, *frames, a, x));
            SysOut::Ret(x)
        },
        Syscall::Access(p, m) => {
            let x = k.sys_access(mem, p, m);
            assert(access_post(*k, *mem, p, m, x));
            SysOut::Ret(x as u32)
        },
        Syscall::Kill(pid, sig) => {
            let ghost k0 = *k;
            let x = k.sys_kill(pid, sig);
            assert(kill_post(k0, *k, pid, sig, x));
            SysOut::Ret(x as u32)
        },
        Syscall::Tgkill(t, pid, sig) => {
            let ghost k0 = *k;
            let x = k.sys_tgkill(t, pid, sig);
            assert(kill_post(k0, *k, pid, sig, x));
            SysOut::Ret(x as u32)
        },
        Syscall::Ioctl(fd, req, argp) => {
            let ghost m0 = mem.bytes@;
            let x = k.sys_ioctl(mem, fd, req, argp);
            assert(ioctl_post(*k, m0, mem.base as int, req, argp, x, mem.bytes@));
            SysOut::Ret(x as u32)
        },
        Syscall::Fcntl(fd, cmd, arg) => {
            let ghost k0 = *k;
            let x = k.sys_fcntl(fd, cmd, arg);
            assert(fcntl_post(k0, *k, fd, cmd, arg, x));
            SysOut::Ret(x as u32)
        },
        Syscall::Fcntl64(fd, cmd, arg) => {
            let ghost k0 = *k;
            let x = k.sys_fcntl64(fd, cmd, arg);
            assert(fcntl_post(k0, *k, fd, cmd, arg, x));
            SysOut::Ret(x as u32)
        },
        Syscall::Uname(b) => {
            let ghost m0 = *mem;
            let x = k.sys_uname(mem, b);
            assert(uname_post(*k, m0, *mem, b, x));
            SysOut::Ret(x as u32)
        },
        Syscall::Getcwd(b, size) => {
            let ghost m0 = *mem;
            let x = k.sys_getcwd(mem, b, size);
            assert(getcwd_post(*k, m0, *mem, b, size, x));
            SysOut::Ret(x as u32)
        },
        Syscall::Readlink(p, b, n) => SysOut::Ret(k.sys_readlink(p, b, n) as u32),
        Syscall::Pipe(p) => {
            let ghost k0 = *k;
            let ghost m0 = mem.bytes@;
            let (rv, fds) = k.sys_pipe();
            assert(sys_pipe_post(k0, *k, (rv, fds), false));
            if let Some((a, b)) = fds {
                mem.write_u32(p, a);
                mem.write_u32(p + 4, b);
            }
            assert(mem.bytes@ =~= pipe_fds_stored(m0, p - mem.base, fds));
            SysOut::Ret(rv as u32)
        },
        Syscall::Pipe2(p, flags) => {
            let ghost k0 = *k;
            let ghost m0 = mem.bytes@;
            let (rv, fds) = k.sys_pipe2(flags);
            assert(sys_pipe_post(k0, *k, (rv, fds), pipe2_cloexec(flags)));
            if let Some((a, b)) = fds {
                mem.write_u32(p, a);
                mem.write_u32(p + 4, b);
            }
            assert(mem.bytes@ =~= pipe_fds_stored(m0, p - mem.base, fds));
            SysOut::Ret(rv as u32)
        },
        Syscall::Dup(fd) => {
            let ghost k0 = *k;
            let x = k.sys_dup(fd);
            assert(dup_post(k0, *k, fd, x));
            SysOut::Ret(x as u32)
        },
        Syscall::Dup2(a, b) => {
            let ghost k0 = *k;
            let x = k.sys_dup2(a, b);
            assert(dup2_post(k0, *k, a, b, x));
            SysOut::Ret(x as u32)
        },
        Syscall::Getpgrp => SysOut::Ret(k.sys_getpgrp()),
        Syscall::Getpgid(pid) => {
            let x = k.sys_getpgid(pid);
            assert(getpgid_post(*k, pid, x));
            SysOut::Ret(x as u32)
        },
        Syscall::Setsid => {
            let ghost k0 = *k;
            let x = k.sys_setsid();
            assert(setsid_post(k0, *k, x));
            SysOut::Ret(x)
        },
        Syscall::Setpgid(pid, g) => {
            let ghost k0 = *k;
            let x = k.sys_setpgid(pid, g);
            assert(setpgid_post(k0, *k, pid, g, x));
            SysOut::Ret(x as u32)
        },
        Syscall::Getsid(pid) => {
            let x = k.sys_getsid(pid);
            assert(getsid_post(*k, pid, x));
            SysOut::Ret(x)
        },
        Syscall::Sigaction(sig, act, oa) => {
            let ghost (k0, m0) = (*k, *mem);
            let x = k.sys_sigaction(mem, sig, act, oa);
            assert(sigaction_post(k0, *k, m0, *mem, sig, act, oa, x));
            SysOut::Ret(x as u32)
        },
        Syscall::Sigprocmask(how, set, os) => {
            let ghost (k0, m0) = (*k, *mem);
            let x = k.sys_sigprocmask(mem, how, set, os);
            assert(sigprocmask_post(k0, *k, m0, *mem, how, set, os, x));
            SysOut::Ret(x as u32)
        },
        Syscall::Sigpending(s) => {
            let ghost m0 = *mem;
            let x = k.sys_sigpending(mem, s);
            assert(sigpending_post(*k, m0, *mem, s, x));
            SysOut::Ret(x as u32)
        },
        Syscall::Sigsuspend(m) => SysOut::Ret(k.sys_sigsuspend(m) as u32),
        Syscall::Sigaltstack(a, b) => SysOut::Ret(k.sys_sigaltstack(a, b) as u32),
        Syscall::Sigreturn => SysOut::Ret(k.sys_sigreturn() as u32),
        Syscall::SchedYield => SysOut::Ret(k.sys_sched_yield() as u32),
        Syscall::Getdents(fd, d, c) => {
            let ghost m0 = *mem;
            let x = k.sys_getdents(mem, fd, d, c);
            assert(getdents_post(*k, m0, *mem, fd, d, c, x));
            SysOut::Ret(x as u32)
        },
        Syscall::Getdents64(fd, d, c) => {
            let ghost m0 = *mem;
            let x = k.sys_getdents64(mem, fd, d, c);
            assert(getdents64_post(*k, m0, *mem, fd, d, c, x));
            SysOut::Ret(x as u32)
        },
        Syscall::Lseek(fd, off, wh) => {
            let ghost k0 = *k;
            let x = k.sys_lseek(fd, off, wh);
            assert(lseek_post(k0, *k, fd, off, wh, x));
            SysOut::Ret(x as u32)
        },
        Syscall::Stat(p, sb) => {
            let ghost m0 = *mem;
            let x = k.sys_stat(mem, p, sb);
            assert(stat_post(*k, m0, *mem, p, sb, x));
            SysOut::Ret(x)
        },
        Syscall::Fstat(fd, sb) => {
            let ghost m0 = *mem;
            let x = k.sys_fstat(mem, fd, sb);
            assert(fstat_post(*k, m0, *mem, fd, sb, x));
            SysOut::Ret(x)
        },
        Syscall::Mmap(a, l, pr, fl, fd, off) => {
            let ghost (k0, f0, p0) = (*k, *frames, *phys);
            let x = k.sys_mmap(frames, phys, a, l, pr, fl, fd, off);
            assert(mmap_post(k0, *k, f0, *frames, p0, *phys, l, fl, fd, x));
            SysOut::Ret(x)
        },
        Syscall::Munmap(a, l) => SysOut::Ret(k.sys_munmap(a, l) as u32),
        Syscall::Mprotect(a, l, pr) => SysOut::Ret(k.sys_mprotect(a, l, pr) as u32),
        Syscall::Echo(x) => SysOut::Ret(x),
        Syscall::Symlink(a, b) => SysOut::Ret(k.sys_symlink(a, b) as u32),
        Syscall::Unlink(a) => SysOut::Ret(k.sys_unlink(a) as u32),
        Syscall::Mkdir(a, m) => SysOut::Ret(k.sys_mkdir(a, m) as u32),
        Syscall::Rmdir(a) => SysOut::Ret(k.sys_rmdir(a) as u32),
        Syscall::Rename(a, b) => SysOut::Ret(k.sys_rename(a, b) as u32),
        Syscall::Chmod(a, m) => SysOut::Ret(k.sys_chmod(a, m) as u32),
        Syscall::ClockGettime(c, tp) => {
            let ghost m0 = *mem;
            let x = k.sys_clock_gettime(mem, c, tp);
            assert(clock_gettime_post(*k, m0, *mem, c, tp, x));
            SysOut::Ret(x as u32)
        },
        Syscall::Nanosleep(a, b) => SysOut::Ret(k.sys_nanosleep(a, b) as u32),
        Syscall::Umask(m) => SysOut::Ret(k.sys_umask(m)),
        Syscall::Getrandom(b, l, f) => {
            let ghost m0 = *mem;
            let x = k.sys_getrandom(mem, b, l, f);
            assert(getrandom_post(*k, m0, *mem, b, l, f, x));
            SysOut::Ret(x as u32)
        },
        Syscall::Prlimit64(pid, res, nr, or) => {
            let ghost m0 = *mem;
            let x = k.sys_prlimit64(mem, pid, res, nr, or);
            assert(prlimit64_post(*k, m0, *mem, pid, res, nr, or, x));
            SysOut::Ret(x as u32)
        },
        Syscall::Getrlimit(res, rl) => {
            let ghost m0 = *mem;
            let x = k.sys_getrlimit(mem, res, rl);
            assert(getrlimit_post(*k, m0, *mem, res, rl, x));
            SysOut::Ret(x as u32)
        },
        Syscall::Setrlimit(res, rl) => SysOut::Ret(k.sys_setrlimit(res, rl) as u32),
        Syscall::Utimensat(d, p, t, f) => SysOut::Ret(k.sys_utimensat(d, p, t, f) as u32),
        Syscall::Syslog(t, b, l) => SysOut::Ret(k.sys_syslog(t, b, l) as u32),
        Syscall::Unknown(n) => SysOut::Unknown(n, regs[8], regs[10], regs[9]),
    }
}

} // verus!
