//! The system call table: which call each number selects and with which registers.
use vstd::prelude::*;
use crate::abi;

verus! {

/// A system call with its arguments, as the trap handler takes it apart.
#[derive(Clone, Copy, PartialEq, Eq, Structural, Debug)]
pub enum Syscall {
    Exit(u32),
    ExitGroup(u32),
    Fork,
    Read(u32, u32, u32),
    Write(u32, u32, u32),
    Open(u32, u32, u32),
    Close(u32),
    Waitpid(u32, u32, u32),
    Wait4(u32, u32, u32, u32),
    Execve(u32, u32, u32),
    Chdir(u32),
    Time,
    Getpid,
    Getppid,
    Getuid,
    Geteuid,
    Getgid,
    Getegid,
    Setuid(u32),
    Setgid(u32),
    Alarm(u32),
    Brk(u32),
    Access(u32, u32),
    Kill(u32, u32),
    Tgkill(u32, u32, u32),
    Ioctl(u32, u32, u32),
    Fcntl(u32, u32, u32),
    Fcntl64(u32, u32, u32),
    Uname(u32),
    Getcwd(u32, u32),
    Readlink(u32, u32, u32),
    Pipe(u32),
    Pipe2(u32, u32),
    Dup(u32),
    Dup2(u32, u32),
    Getpgrp,
    Getpgid(u32),
    Setsid,
    Setpgid(u32, u32),
    Getsid(u32),
    Sigaction(u32, u32, u32),
    Sigprocmask(u32, u32, u32),
    Sigpending(u32),
    Sigsuspend(u32),
    Sigaltstack(u32, u32),
    Sigreturn,
    SchedYield,
    Getdents(u32, u32, u32),
    Getdents64(u32, u32, u32),
    Lseek(u32, u32, u32),
    Stat(u32, u32),
    Fstat(u32, u32),
    Mmap(u32, u32, u32, u32, u32, u32),
    Munmap(u32, u32),
    Mprotect(u32, u32, u32),
    Echo(u32),
    Symlink(u32, u32),
    Unlink(u32),
    Mkdir(u32, u32),
    Rmdir(u32),
    Rename(u32, u32),
    Chmod(u32, u32),
    ClockGettime(u32, u32),
    Nanosleep(u32, u32),
    Umask(u32),
    Getrandom(u32, u32, u32),
    Prlimit64(u32, u32, u32, u32),
    Getrlimit(u32, u32),
    Setrlimit(u32, u32),
    Utimensat(u32, u32, u32, u32),
    Syslog(u32, u32, u32),
    Unknown(u32),
}

/// The call that number `num` selects, its arguments taken from the saved registers
/// `regs` (`gs, fs, es, ds, edi, esi, ebp, esp, ebx, edx, ecx, eax`): `ebx`, `ecx`, `edx`,
/// `esi`, `edi`, `ebp` in that order.
pub open spec fn spec_decode(num: u32, regs: Seq<u32>) -> Syscall {
    if num == abi::SYS_EXIT {
        Syscall::Exit(regs[8])
    } else if num == abi::SYS_EXIT_GROUP {
        Syscall::ExitGroup(regs[8])
    } else if num == abi::SYS_FORK {
        Syscall::Fork
    } else if num == abi::SYS_READ {
        Syscall::Read(regs[8], regs[10], regs[9])
    } else if num == abi::SYS_WRITE {
        Syscall::Write(regs[8], regs[10], regs[9])
    } else if num == abi::SYS_OPEN {
        Syscall::Open(regs[8], regs[10], regs[9])
    } else if num == abi::SYS_CLOSE {
        Syscall::Close(regs[8])
    } else if num == abi::SYS_WAITPID {
        Syscall::Waitpid(regs[8], regs[10], regs[9])
    } else if num == abi::SYS_WAIT4 {
        Syscall::Wait4(regs[8], regs[10], regs[9], regs[5])
    } else if num == abi::SYS_EXECVE {
        Syscall::Execve(regs[8], regs[10], regs[9])
    } else if num == abi::SYS_CHDIR {
        Syscall::Chdir(regs[8])
    } else if num == abi::SYS_TIME {
        Syscall::Time
    } else if num == abi::SYS_GETPID {
        Syscall::Getpid
    } else if num == abi::SYS_GETPPID {
        Syscall::Getppid
    } else if num == abi::SYS_GETUID {
        Syscall::Getuid
    } else if num == abi::SYS_GETEUID {
        Syscall::Geteuid
    } else if num == abi::SYS_GETGID {
        Syscall::Getgid
    } else if num == abi::SYS_GETEGID {
        Syscall::Getegid
    } else if num == abi::SYS_SETUID {
        Syscall::Setuid(regs[8])
    } else if num == abi::SYS_SETGID {
        Syscall::Setgid(regs[8])
    } else if num == abi::SYS_ALARM {
        Syscall::Alarm(regs[8])
    } else if num == abi::SYS_BRK {
        Syscall::Brk(regs[8])
    } else if num == abi::SYS_ACCESS {
        Syscall::Access(regs[8], regs[10])
    } else if num == abi::SYS_KILL {
        Syscall::Kill(regs[8], regs[10])
    } else if num == abi::SYS_TGKILL {
        Syscall::Tgkill(regs[8], regs[10], regs[9])
    } else if num == abi::SYS_IOCTL {
        Syscall::Ioctl(regs[8], regs[10], regs[9])
    } else if num == abi::SYS_FCNTL {
        Syscall::Fcntl(regs[8], regs[10], regs[9])
    } else if num == abi::SYS_FCNTL64 {
        Syscall::Fcntl64(regs[8], regs[10], regs[9])
    } else if num == abi::SYS_UNAME {
        Syscall::Uname(regs[8])
    } else if num == abi::SYS_GETCWD {
        Syscall::Getcwd(regs[8], regs[10])
    } else if num == abi::SYS_READLINK {
        Syscall::Readlink(regs[8], regs[10], regs[9])
    } else if num == abi::SYS_PIPE {
        Syscall::Pipe(regs[8])
    } else if num == abi::SYS_PIPE2 {
        Syscall::Pipe2(regs[8], regs[10])
    } else if num == abi::SYS_DUP {
        Syscall::Dup(regs[8])
    } else if num == abi::SYS_DUP2 {
        Syscall::Dup2(regs[8], regs[10])
    } else if num == abi::SYS_GETPGRP {
        Syscall::Getpgrp
    } else if num == abi::SYS_GETPGID {
        Syscall::Getpgid(regs[8])
    } else if num == abi::SYS_SETSID {
        Syscall::Setsid
    } else if num == abi::SYS_SETPGID {
        Syscall::Setpgid(regs[8], regs[10])
    } else if num == abi::SYS_GETSID {
        Syscall::Getsid(regs[8])
    } else if num == abi::SYS_SIGACTION {
        Syscall::Sigaction(regs[8], regs[10], regs[9])
    } else if num == abi::SYS_RT_SIGACTION {
        Syscall::Sigaction(regs[8], regs[10], regs[9])
    } else if num == abi::SYS_SIGPROCMASK {
        Syscall::Sigprocmask(regs[8], regs[10], regs[9])
    } else if num == abi::SYS_RT_SIGPROCMASK {
        Syscall::Sigprocmask(regs[8], regs[10], regs[9])
    } else if num == abi::SYS_SIGPENDING {
        Syscall::Sigpending(regs[8])
    } else if num == abi::SYS_SIGSUSPEND {
        Syscall::Sigsuspend(regs[8])
    } else if num == abi::SYS_SIGALTSTACK {
        Syscall::Sigaltstack(regs[8], regs[10])
    } else if num == abi::SYS_SIGRETURN {
        Syscall::Sigreturn
    } else if num == abi::SYS_RT_SIGRETURN {
        Syscall::Sigreturn
    } else if num == abi::SYS_SCHED_YIELD {
        Syscall::SchedYield
    } else if num == abi::SYS_GETDENTS {
        Syscall::Getdents(regs[8], regs[10], regs[9])
    } else if num == abi::SYS_GETDENTS64 {
        Syscall::Getdents64(regs[8], regs[10], regs[9])
    } else if num == abi::SYS_LSEEK {
        Syscall::Lseek(regs[8], regs[10], regs[9])
    } else if num == abi::SYS_STAT {
        Syscall::Stat(regs[8], regs[10])
    } else if num == abi::SYS_LSTAT {
        Syscall::Stat(regs[8], regs[10])
    } else if num == abi::SYS_LSTAT64 {
        Syscall::Stat(regs[8], regs[10])
    } else if num == abi::SYS_STAT64 {
        Syscall::Stat(regs[8], regs[10])
    } else if num == abi::SYS_FSTAT {
        Syscall::Fstat(regs[8], regs[10])
    } else if num == abi::SYS_FSTAT64 {
        Syscall::Fstat(regs[8], regs[10])
    } else if num == abi::SYS_MMAP {
        Syscall::Mmap(regs[8], regs[10], regs[9], regs[5], regs[4], regs[6])
    } else if num == abi::SYS_MUNMAP {
        Syscall::Munmap(regs[8], regs[10])
    } else if num == abi::SYS_MPROTECT {
        Syscall::Mprotect(regs[8], regs[10], regs[9])
    } else if num == abi::SYS_LLSEEK {
        Syscall::Echo(regs[9])
    } else if num == abi::SYS_SYMLINK {
        Syscall::Symlink(regs[8], regs[10])
    } else if num == abi::SYS_UNLINK {
        Syscall::Unlink(regs[8])
    } else if num == abi::SYS_MKDIR {
        Syscall::Mkdir(regs[8], regs[10])
    } else if num == abi::SYS_RMDIR {
        Syscall::Rmdir(regs[8])
    } else if num == abi::SYS_RENAME {
        Syscall::Rename(regs[8], regs[10])
    } else if num == abi::SYS_CHMOD {
        Syscall::Chmod(regs[8], regs[10])
    } else if num == abi::SYS_CLOCK_GETTIME {
        Syscall::ClockGettime(regs[8], regs[10])
    } else if num == abi::SYS_NANOSLEEP {
        Syscall::Nanosleep(regs[8], regs[10])
    } else if num == abi::SYS_GETTIMEOFDAY {
        Syscall::Echo(regs[9])
    } else if num == abi::SYS_UMASK {
        Syscall::Umask(regs[8])
    } else if num == abi::SYS_GETRANDOM {
        Syscall::Getrandom(regs[8], regs[10], regs[9])
    } else if num == abi::SYS_PRLIMIT64 {
        Syscall::Prlimit64(regs[8], regs[10], regs[9], regs[5])
    } else if num == abi::SYS_GETRLIMIT {
        Syscall::Getrlimit(regs[8], regs[10])
    } else if num == abi::SYS_SETRLIMIT {
        Syscall::Setrlimit(regs[8], regs[10])
    } else if num == abi::SYS_UTIMENSAT {
        Syscall::Utimensat(regs[8], regs[10], regs[9], regs[5])
    } else if num == abi::SYS_SYSLOG {
        Syscall::Syslog(regs[8], regs[10], regs[9])
    } else {
        Syscall::Unknown(num)
    }
}

/// Takes a trap apart into the system call it asks for.
pub fn decode_syscall(num: u32, regs: &[u32; 12]) -> (r: Syscall)
    ensures
        r == spec_decode(num, regs@),
{
    if num == abi::SYS_EXIT {
        Syscall::Exit(regs[8])
    } else if num == abi::SYS_EXIT_GROUP {
        Syscall::ExitGroup(regs[8])
    } else if num == abi::SYS_FORK {
        Syscall::Fork
    } else if num == abi::SYS_READ {
        Syscall::Read(regs[8], regs[10], regs[9])
    } else if num == abi::SYS_WRITE {
        Syscall::Write(regs[8], regs[10], regs[9])
    } else if num == abi::SYS_OPEN {
        Syscall::Open(regs[8], regs[10], regs[9])
    } else if num == abi::SYS_CLOSE {
        Syscall::Close(regs[8])
    } else if num == abi::SYS_WAITPID {
        Syscall::Waitpid(regs[8], regs[10], regs[9])
    } else if num == abi::SYS_WAIT4 {
        Syscall::Wait4(regs[8], regs[10], regs[9], regs[5])
    } else if num == abi::SYS_EXECVE {
        Syscall::Execve(regs[8], regs[10], regs[9])
    } else if num == abi::SYS_CHDIR {
        Syscall::Chdir(regs[8])
    } else if num == abi::SYS_TIME {
        Syscall::Time
    } else if num == abi::SYS_GETPID {
        Syscall::Getpid
    } else if num == abi::SYS_GETPPID {
        Syscall::Getppid
    } else if num == abi::SYS_GETUID {
        Syscall::Getuid
    } else if num == abi::SYS_GETEUID {
        Syscall::Geteuid
    } else if num == abi::SYS_GETGID {
        Syscall::Getgid
    } else if num == abi::SYS_GETEGID {
        Syscall::Getegid
    } else if num == abi::SYS_SETUID {
        Syscall::Setuid(regs[8])
    } else if num == abi::SYS_SETGID {
        Syscall::Setgid(regs[8])
    } else if num == abi::SYS_ALARM {
        Syscall::Alarm(regs[8])
    } else if num == abi::SYS_BRK {
        Syscall::Brk(regs[8])
    } else if num == abi::SYS_ACCESS {
        Syscall::Access(regs[8], regs[10])
    } else if num == abi::SYS_KILL {
        Syscall::Kill(regs[8], regs[10])
    } else if num == abi::SYS_TGKILL {
        Syscall::Tgkill(regs[8], regs[10], regs[9])
    } else if num == abi::SYS_IOCTL {
        Syscall::Ioctl(regs[8], regs[10], regs[9])
    } else if num == abi::SYS_FCNTL {
        Syscall::Fcntl(regs[8], regs[10], regs[9])
    } else if num == abi::SYS_FCNTL64 {
        Syscall::Fcntl64(regs[8], regs[10], regs[9])
    } else if num == abi::SYS_UNAME {
        Syscall::Uname(regs[8])
    } else if num == abi::SYS_GETCWD {
        Syscall::Getcwd(regs[8], regs[10])
    } else if num == abi::SYS_READLINK {
        Syscall::Readlink(regs[8], regs[10], regs[9])
    } else if num == abi::SYS_PIPE {
        Syscall::Pipe(regs[8])
    } else if num == abi::SYS_PIPE2 {
        Syscall::Pipe2(regs[8], regs[10])
    } else if num == abi::SYS_DUP {
        Syscall::Dup(regs[8])
    } else if num == abi::SYS_DUP2 {
        Syscall::Dup2(regs[8], regs[10])
    } else if num == abi::SYS_GETPGRP {
        Syscall::Getpgrp
    } else if num == abi::SYS_GETPGID {
        Syscall::Getpgid(regs[8])
    } else if num == abi::SYS_SETSID {
        Syscall::Setsid
    } else if num == abi::SYS_SETPGID {
        Syscall::Setpgid(regs[8], regs[10])
    } else if num == abi::SYS_GETSID {
        Syscall::Getsid(regs[8])
    } else if num == abi::SYS_SIGACTION {
        Syscall::Sigaction(regs[8], regs[10], regs[9])
    } else if num == abi::SYS_RT_SIGACTION {
        Syscall::Sigaction(regs[8], regs[10], regs[9])
    } else if num == abi::SYS_SIGPROCMASK {
        Syscall::Sigprocmask(regs[8], regs[10], regs[9])
    } else if num == abi::SYS_RT_SIGPROCMASK {
        Syscall::Sigprocmask(regs[8], regs[10], regs[9])
    } else if num == abi::SYS_SIGPENDING {
        Syscall::Sigpending(regs[8])
    } else if num == abi::SYS_SIGSUSPEND {
        Syscall::Sigsuspend(regs[8])
    } else if num == abi::SYS_SIGALTSTACK {
        Syscall::Sigaltstack(regs[8], regs[10])
    } else if num == abi::SYS_SIGRETURN {
        Syscall::Sigreturn
    } else if num == abi::SYS_RT_SIGRETURN {
        Syscall::Sigreturn
    } else if num == abi::SYS_SCHED_YIELD {
        Syscall::SchedYield
    } else if num == abi::SYS_GETDENTS {
        Syscall::Getdents(regs[8], regs[10], regs[9])
    } else if num == abi::SYS_GETDENTS64 {
        Syscall::Getdents64(regs[8], regs[10], regs[9])
    } else if num == abi::SYS_LSEEK {
        Syscall::Lseek(regs[8], regs[10], regs[9])
    } else if num == abi::SYS_STAT {
        Syscall::Stat(regs[8], regs[10])
    } else if num == abi::SYS_LSTAT {
        Syscall::Stat(regs[8], regs[10])
    } else if num == abi::SYS_LSTAT64 {
        Syscall::Stat(regs[8], regs[10])
    } else if num == abi::SYS_STAT64 {
        Syscall::Stat(regs[8], regs[10])
    } else if num == abi::SYS_FSTAT {
        Syscall::Fstat(regs[8], regs[10])
    } else if num == abi::SYS_FSTAT64 {
        Syscall::Fstat(regs[8], regs[10])
    } else if num == abi::SYS_MMAP {
        Syscall::Mmap(regs[8], regs[10], regs[9], regs[5], regs[4], regs[6])
    } else if num == abi::SYS_MUNMAP {
        Syscall::Munmap(regs[8], regs[10])
    } else if num == abi::SYS_MPROTECT {
        Syscall::Mprotect(regs[8], regs[10], regs[9])
    } else if num == abi::SYS_LLSEEK {
        Syscall::Echo(regs[9])
    } else if num == abi::SYS_SYMLINK {
        Syscall::Symlink(regs[8], regs[10])
    } else if num == abi::SYS_UNLINK {
        Syscall::Unlink(regs[8])
    } else if num == abi::SYS_MKDIR {
        Syscall::Mkdir(regs[8], regs[10])
    } else if num == abi::SYS_RMDIR {
        Syscall::Rmdir(regs[8])
    } else if num == abi::SYS_RENAME {
        Syscall::Rename(regs[8], regs[10])
    } else if num == abi::SYS_CHMOD {
        Syscall::Chmod(regs[8], regs[10])
    } else if num == abi::SYS_CLOCK_GETTIME {
        Syscall::ClockGettime(regs[8], regs[10])
    } else if num == abi::SYS_NANOSLEEP {
        Syscall::Nanosleep(regs[8], regs[10])
    } else if num == abi::SYS_GETTIMEOFDAY {
        Syscall::Echo(regs[9])
    } else if num == abi::SYS_UMASK {
        Syscall::Umask(regs[8])
    } else if num == abi::SYS_GETRANDOM {
        Syscall::Getrandom(regs[8], regs[10], regs[9])
    } else if num == abi::SYS_PRLIMIT64 {
        Syscall::Prlimit64(regs[8], regs[10], regs[9], regs[5])
    } else if num == abi::SYS_GETRLIMIT {
        Syscall::Getrlimit(regs[8], regs[10])
    } else if num == abi::SYS_SETRLIMIT {
        Syscall::Setrlimit(regs[8], regs[10])
    } else if num == abi::SYS_UTIMENSAT {
        Syscall::Utimensat(regs[8], regs[10], regs[9], regs[5])
    } else if num == abi::SYS_SYSLOG {
        Syscall::Syslog(regs[8], regs[10], regs[9])
    } else {
        Syscall::Unknown(num)
    }
}

} // verus!
