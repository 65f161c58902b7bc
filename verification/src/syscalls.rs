//! System calls on the process table: identities, sessions, signals, the working directory,
//! descriptor control, terminal control and the calls that only answer constants.
use vstd::prelude::*;
use crate::abi;
use crate::kernel::{Kernel, Process, State, SignalAction, FdType, FdEntry, MAX_PROCS, MAX_FDS, fd_index, spec_fd_zero, add_ref};
use crate::usermem::{UserMem, le_bytes, le_value, overwrite, push_le32, word_at};

verus! {

/// Every part of the kernel but the process table is as it was.
pub open spec fn same_but_procs(o: Kernel, f: Kernel) -> bool {
    &&& f.fdtable == o.fdtable
    &&& f.pipe_ctl == o.pipe_ctl
    &&& f.pipe_data == o.pipe_data
    &&& f.opened == o.opened
    &&& f.current_pid == o.current_pid
    &&& f.next_pid == o.next_pid
    &&& f.fs == o.fs
}

/// Only slot `i` of the process table changed, to `p`.
pub open spec fn proc_set(o: Kernel, f: Kernel, i: int, p: Process) -> bool {
    &&& same_but_procs(o, f)
    &&& f.procs@ == o.procs@.update(i, p)
}

/// Signals whose default action is to be ignored.
pub open spec fn default_ignored(sig: u32) -> bool {
    sig == abi::SIGCHLD || sig == abi::SIGURG || sig == abi::SIGWINCH || sig == abi::SIGCONT
        || sig == abi::SIGSTOP || sig == abi::SIGTSTP || sig == abi::SIGTTIN || sig == abi::SIGTTOU
}

fn is_default_ignored(sig: u32) -> (r: bool)
    ensures
        r == default_ignored(sig),
{
    sig == abi::SIGCHLD || sig == abi::SIGURG || sig == abi::SIGWINCH || sig == abi::SIGCONT
        || sig == abi::SIGSTOP || sig == abi::SIGTSTP || sig == abi::SIGTTIN || sig == abi::SIGTTOU
}

/// Whether bit `b` of `x` is set.
pub open spec fn bit(x: u32, b: u32) -> bool {
    (x >> b) & 1 == 1
}

proof fn lemma_clear_bit(x: u32, s: u32, b: u32)
    requires
        s < 32,
        b < 32,
    ensures
        bit(x & !(1u32 << s), b) == (bit(x, b) && b != s),
{
    assert(((x & !(1u32 << s)) >> b) & 1 == 1 <==> (((x >> b) & 1 == 1) && b != s)) by (bit_vector)
        requires s < 32, b < 32;
}

proof fn lemma_test_bit(x: u32, s: u32)
    requires
        s < 32,
    ensures
        (x & (1u32 << s) != 0) == bit(x, s),
{
    assert((x & (1u32 << s) != 0) == ((x >> s) & 1 == 1)) by (bit_vector)
        requires s < 32;
}

/// The signal that ends process `p`: the lowest of 1..31 that is deliverable (set in `d`),
/// has no handler and is not ignored by default.
pub open spec fn fatal_from(p: Process, d: u32, s: int) -> Option<u32>
    decreases 32 - s,
{
    if s < 1 || s >= 32 {
        None
    } else if bit(d, s as u32) && p.sigactions@[s].handler == 0 && !default_ignored(s as u32) {
        Some(s as u32)
    } else {
        fatal_from(p, d, s + 1)
    }
}

/// The signals of `p` that are pending and not blocked.
pub open spec fn deliverable(p: Process) -> u32 {
    p.sigpending & !(p.sigmask as u32)
}

/// What `kill` does: `-ESRCH` for a slot that is out of range or free, 0 for signal 0,
/// `-EINVAL` for a signal of 32 or more, all with nothing changed; otherwise the signal is
/// marked pending in the target and 0 is returned.
pub open spec fn kill_post(o: Kernel, f: Kernel, pid: u32, sig: u32, r: i32) -> bool {
    if (pid as int) >= MAX_PROCS || o.proc(pid as int).state == State::Free {
        r == -abi::ESRCH && f == o
    } else if sig == 0 {
        r == 0 && f == o
    } else if sig >= 32 {
        r == -abi::EINVAL && f == o
    } else {
        &&& r == 0
        &&& proc_set(o, f, pid as int, Process {
            sigpending: o.proc(pid as int).sigpending | (1u32 << sig),
            ..o.proc(pid as int) })
    }
}

/// Process `p` after a signal made it a zombie with status `128 + sig`.
pub open spec fn killed(p: Process, sig: u32) -> Process {
    Process { sigpending: 0, state: State::Zombie, exit_code: (128 + sig) as u32, ..p }
}

/// Parent `q` told of a child's end: `SIGCHLD` pending, and ready if it was blocked.
pub open spec fn notified(q: Process) -> Process {
    Process {
        sigpending: q.sigpending | (1u32 << abi::SIGCHLD),
        state: if q.state == State::Blocked { State::Ready } else { q.state },
        ..q
    }
}

/// The process table after process `i` ended: its parent, if it is another slot, is told.
pub open spec fn tell_parent(t: Seq<Process>, i: int) -> Seq<Process> {
    let pp = t[i].ppid as int;
    if pp < MAX_PROCS && pp != i { t.update(pp, notified(t[pp])) } else { t }
}

/// What `setuid` does.
pub open spec fn setuid_post(o: Kernel, f: Kernel, uid: u32, r: i32) -> bool {
    &&& r == 0
    &&& proc_set(o, f, o.current_pid as int,
        Process { uid, euid: uid, ..o.cur() })
}

/// What `setgid` does.
pub open spec fn setgid_post(o: Kernel, f: Kernel, gid: u32, r: i32) -> bool {
    &&& r == 0
    &&& proc_set(o, f, o.current_pid as int,
        Process { gid, egid: gid, ..o.cur() })
}

/// What `setsid` does.
pub open spec fn setsid_post(o: Kernel, f: Kernel, r: u32) -> bool {
    &&& r == o.cur().pid
    &&& proc_set(o, f, o.current_pid as int,
        Process { sid: o.cur().pid, pgid: o.cur().pid, ..o.cur() })
}

/// What `setpgid` does.
pub open spec fn setpgid_post(o: Kernel, f: Kernel, pid: u32, pgid: u32, r: i32) -> bool {
    &&& ({
        let i = if pid == 0 { o.current_pid as int } else { pid as int };
        if i >= MAX_PROCS || o.proc(i).state == State::Free {
            r == -abi::ESRCH && f == o
        } else {
            &&& r == 0
            &&& proc_set(o, f, i,
                Process { pgid: if pgid == 0 { o.proc(i).pid } else { pgid }, ..o.proc(i) })
        }
    })
}

/// What `getsid` answers.
pub open spec fn getsid_post(k: Kernel, pid: u32, r: u32) -> bool {
    &&& r == (if pid == 0 { k.cur().sid }
        else if (pid as int) < MAX_PROCS && k.proc(pid as int).state != State::Free { k.proc(pid as int).sid }
        else { 0 })
}

/// What `getpgid` answers.
pub open spec fn getpgid_post(k: Kernel, pid: u32, r: i32) -> bool {
    &&& r as int == (if pid == 0 { k.cur().pgid as i32 as int }
        else if (pid as int) >= MAX_PROCS || k.proc(pid as int).state == State::Free { -abi::ESRCH }
        else { k.proc(pid as int).pgid as i32 as int })
}

/// What `sigaction` does.
pub open spec fn sigaction_post(o: Kernel, f: Kernel, om: UserMem, fm: UserMem, signum: u32, act: u32, oldact: u32, r: i32) -> bool {
    &&& ({
        let m1 = if oldact != 0 {
            overwrite(om.bytes@, oldact - om.base, action_bytes(o.cur().sigactions@[signum as int]))
        } else {
            om.bytes@
        };
        if signum >= 32 || signum == abi::SIGKILL || signum == abi::SIGSTOP {
            r == -abi::EINVAL && f == o && fm.bytes@ == om.bytes@
        } else {
            &&& r == 0
            &&& fm.bytes@ == m1
            &&& act == 0 ==> f == o
            &&& act != 0 ==> proc_set_actions(o, f, o.current_pid as int,
                o.cur().sigactions@.update(signum as int, action_from(m1, act - om.base)))
        }
    })
}

/// What `sigprocmask` does.
pub open spec fn sigprocmask_post(o: Kernel, f: Kernel, om: UserMem, fm: UserMem, how: u32, set: u32, oldset: u32, r: i32) -> bool {
    &&& ({
        let m = o.cur().sigmask;
        let m1 = if oldset != 0 {
            overwrite(om.bytes@, oldset - om.base, le_bytes(m as u32) + le_bytes((m >> 32) as u32))
        } else {
            om.bytes@
        };
        let off = set - om.base;
        let v = ((word_at(m1, off + 4) as u64) << 32) | (word_at(m1, off) as u64);
        &&& fm.bytes@ == m1
        &&& if set == 0 {
            r == 0 && f == o
        } else if how > 2 {
            r == -abi::EINVAL && f == o
        } else {
            &&& r == 0
            &&& proc_set(o, f, o.current_pid as int, Process {
                sigmask: if how == 0 { m | v } else if how == 1 { m & !v } else { v },
                ..o.cur() })
        }
    })
}

/// What `sigpending` does.
pub open spec fn sigpending_post(k: Kernel, om: UserMem, fm: UserMem, set: u32, r: i32) -> bool {
    &&& r == 0
    &&& fm.bytes@ == (if set != 0 {
        overwrite(om.bytes@, set - om.base, le_bytes(k.cur().sigpending) + le_bytes(0))
    } else {
        om.bytes@
    })
}

impl Kernel {
    // ------------------------------------------------------------ identities

    /// `getpid`.
    pub fn sys_getpid(&self) -> (r: u32)
        ensures
            r == self.current_pid,
    {
        self.current_pid
    }

    /// `getppid`.
    pub fn sys_getppid(&self) -> (r: u32)
        requires
            self.wf(),
        ensures
            r == self.cur().ppid,
    {
        self.procs[self.current_pid as usize].ppid
    }

    /// `getuid`.
    pub fn sys_getuid(&self) -> (r: u32)
        requires
            self.wf(),
        ensures
            r == self.cur().uid,
    {
        self.procs[self.current_pid as usize].uid
    }

    /// `geteuid`.
    pub fn sys_geteuid(&self) -> (r: u32)
        requires
            self.wf(),
        ensures
            r == self.cur().euid,
    {
        self.procs[self.current_pid as usize].euid
    }

    /// `getgid`.
    pub fn sys_getgid(&self) -> (r: u32)
        requires
            self.wf(),
        ensures
            r == self.cur().gid,
    {
        self.procs[self.current_pid as usize].gid
    }

    /// `getegid`.
    pub fn sys_getegid(&self) -> (r: u32)
        requires
            self.wf(),
        ensures
            r == self.cur().egid,
    {
        self.procs[self.current_pid as usize].egid
    }

    /// `getpgrp`: the process group of the current process.
    pub fn sys_getpgrp(&self) -> (r: u32)
        requires
            self.wf(),
        ensures
            r == self.cur().pgid,
    {
        self.procs[self.current_pid as usize].pgid
    }

    /// `getsid`: the session of `pid` (0: the current process); 0 for a free or unknown slot.
    pub fn sys_getsid(&self, pid: u32) -> (r: u32)
        requires
            self.wf(),
        ensures
            getsid_post(*self, pid, r),
    {
        if pid == 0 {
            self.procs[self.current_pid as usize].sid
        } else if (pid as usize) < MAX_PROCS && self.procs[pid as usize].state != State::Free {
            self.procs[pid as usize].sid
        } else {
            0
        }
    }

    /// `setsid`: the current process leads a new session and group named by its pid.
    pub fn sys_setsid(&mut self) -> (r: u32)
        requires
            old(self).wf(),
        ensures
            final(self).wf(),
            setsid_post(*old(self), *final(self), r),
    {
        let i = self.current_pid as usize;
        let mut p = self.procs[i];
        p.sid = p.pid;
        p.pgid = p.pid;
        self.procs.set(i, p);
        p.pid
    }

    /// `setpgid`: puts `pid` (0: the current process) in group `pgid` (0: its own pid).
    /// Error: `-ESRCH` for a free or unknown slot.
    pub fn sys_setpgid(&mut self, pid: u32, pgid: u32) -> (r: i32)
        requires
            old(self).wf(),
        ensures
            final(self).wf(),
            setpgid_post(*old(self), *final(self), pid, pgid, r),
    {
        let i: usize = if pid == 0 { self.current_pid as usize } else { pid as usize };
        if i >= MAX_PROCS || self.procs[i].state == State::Free {
            return -abi::ESRCH;
        }
        let mut p = self.procs[i];
        p.pgid = if pgid == 0 { p.pid } else { pgid };
        self.procs.set(i, p);
        0
    }

    /// `getpgid`: the group of `pid` (0: the current process). Error: `-ESRCH`.
    pub fn sys_getpgid(&self, pid: u32) -> (r: i32)
        requires
            self.wf(),
        ensures
            getpgid_post(*self, pid, r),
    {
        if pid == 0 {
            return self.procs[self.current_pid as usize].pgid as i32;
        }
        if (pid as usize) >= MAX_PROCS || self.procs[pid as usize].state == State::Free {
            return -abi::ESRCH;
        }
        self.procs[pid as usize].pgid as i32
    }

    /// `setuid`: sets the real and effective user of the current process.
    pub fn sys_setuid(&mut self, uid: u32) -> (r: i32)
        requires
            old(self).wf(),
        ensures
            final(self).wf(),
            setuid_post(*old(self), *final(self), uid, r),
    {
        let i = self.current_pid as usize;
        let mut p = self.procs[i];
        p.uid = uid;
        p.euid = uid;
        self.procs.set(i, p);
        0
    }

    /// `setgid`: sets the real and effective group of the current process.
    pub fn sys_setgid(&mut self, gid: u32) -> (r: i32)
        requires
            old(self).wf(),
        ensures
            final(self).wf(),
            setgid_post(*old(self), *final(self), gid, r),
    {
        let i = self.current_pid as usize;
        let mut p = self.procs[i];
        p.gid = gid;
        p.egid = gid;
        self.procs.set(i, p);
        0
    }

    // ------------------------------------------------------------ signals

    /// `kill`: marks `sig` pending for `pid`; signal 0 only checks that `pid` exists.
    /// Errors: `-ESRCH` for a free or unknown slot, `-EINVAL` for a signal past 31.
    pub fn sys_kill(&mut self, pid: u32, sig: u32) -> (r: i32)
        requires
            old(self).wf(),
        ensures
            final(self).wf(),
            kill_post(*old(self), *final(self), pid, sig, r),
    {
        if (pid as usize) >= MAX_PROCS {
            return -abi::ESRCH;
        }
        if self.procs[pid as usize].state == State::Free {
            return -abi::ESRCH;
        }
        if sig == 0 {
            return 0;
        }
        if sig >= 32 {
            return -abi::EINVAL;
        }
        let mut p = self.procs[pid as usize];
        p.sigpending = p.sigpending | (1u32 << sig);
        self.procs.set(pid as usize, p);
        0
    }

    /// `tgkill`: `kill` of `pid`; the thread group is not looked at.
    pub fn sys_tgkill(&mut self, tgid: u32, pid: u32, sig: u32) -> (r: i32)
        requires
            old(self).wf(),
        ensures
            final(self).wf(),
            kill_post(*old(self), *final(self), pid, sig, r),
    {
        self.sys_kill(pid, sig)
    }

    /// `sigaction`: writes the old disposition of `signum` (handler, mask low and high
    /// words, flags, restorer) at `oldact` when it is not 0, then reads a new one from `act`
    /// when it is not 0. Error: `-EINVAL` for a signal past 31, `SIGKILL` or `SIGSTOP`.
#[verifier::rlimit(40)]
        pub fn sys_sigaction(&mut self, mem: &mut UserMem, signum: u32, act: u32, oldact: u32) -> (r: i32)
        requires
            old(self).wf(),
            !(signum >= 32 || signum == abi::SIGKILL || signum == abi::SIGSTOP) ==> {
                &&& oldact != 0 ==> old(mem).contains(oldact as int, 20)
                &&& act != 0 ==> old(mem).contains(act as int, 20)
            },
        ensures
            final(self).wf(),
            final(mem).base == old(mem).base,
            sigaction_post(*old(self), *final(self), *old(mem), *final(mem), signum, act, oldact, r),
    {
        if signum >= 32 || signum == abi::SIGKILL || signum == abi::SIGSTOP {
            return -abi::EINVAL;
        }
        let i = self.current_pid as usize;
        if oldact != 0 {
            let a = self.procs[i].sigactions[signum as usize];
            let mut out: Vec<u8> = Vec::new();
            push_le32(&mut out, a.handler);
            push_le32(&mut out, a.mask as u32);
            push_le32(&mut out, (a.mask >> 32) as u32);
            push_le32(&mut out, a.flags);
            push_le32(&mut out, a.restorer);
            assert(out@ =~= action_bytes(a));
            mem.write_bytes(oldact, out.as_slice());
        }
        if act != 0 {
            let handler = mem.read_u32(act);
            let mask_lo = mem.read_u32(act + 4);
            let mask_hi = mem.read_u32(act + 8);
            let flags = mem.read_u32(act + 12);
            let restorer = mem.read_u32(act + 16);
            let mut p = self.procs[i];
            p.sigactions[signum as usize] = SignalAction {
                handler,
                mask: ((mask_hi as u64) << 32) | (mask_lo as u64),
                flags,
                restorer,
            };
            self.procs.set(i, p);
        }
        0
    }

    /// `sigprocmask`: writes the old blocked mask (low, high word) at `oldset` when it is not
    /// 0; then, when `set` is not 0, reads a mask there and blocks it (`how` 0), unblocks it
    /// (1) or replaces the blocked mask with it (2). Error: `-EINVAL` for another `how`.
    pub fn sys_sigprocmask(&mut self, mem: &mut UserMem, how: u32, set: u32, oldset: u32) -> (r: i32)
        requires
            old(self).wf(),
            oldset != 0 ==> old(mem).contains(oldset as int, 8),
            set != 0 ==> old(mem).contains(set as int, 8),
        ensures
            final(self).wf(),
            final(mem).base == old(mem).base,
            sigprocmask_post(*old(self), *final(self), *old(mem), *final(mem), how, set, oldset, r),
    {
        let i = self.current_pid as usize;
        if oldset != 0 {
            let m = self.procs[i].sigmask;
            let mut out: Vec<u8> = Vec::new();
            push_le32(&mut out, m as u32);
            push_le32(&mut out, (m >> 32) as u32);
            mem.write_bytes(oldset, out.as_slice());
        }
        if set != 0 {
            let lo = mem.read_u32(set);
            let hi = mem.read_u32(set + 4);
            let v = ((hi as u64) << 32) | (lo as u64);
            let mut p = self.procs[i];
            if how == 0 {
                p.sigmask = p.sigmask | v;
            } else if how == 1 {
                p.sigmask = p.sigmask & !v;
            } else if how == 2 {
                p.sigmask = v;
            } else {
                return -abi::EINVAL;
            }
            self.procs.set(i, p);
        }
        0
    }

    /// `sigpending`: writes the pending signals and a zero high word at `set` when it is not 0.
    pub fn sys_sigpending(&self, mem: &mut UserMem, set: u32) -> (r: i32)
        requires
            self.wf(),
            set != 0 ==> old(mem).contains(set as int, 8),
        ensures
            final(mem).base == old(mem).base,
            sigpending_post(*self, *old(mem), *final(mem), set, r),
    {
        if set != 0 {
            let mut out: Vec<u8> = Vec::new();
            push_le32(&mut out, self.procs[self.current_pid as usize].sigpending);
            push_le32(&mut out, 0);
            mem.write_bytes(set, out.as_slice());
        }
        0
    }

    /// `sigsuspend`: returns at once as if interrupted.
    pub fn sys_sigsuspend(&self, mask: u32) -> (r: i32)
        ensures
            r == -abi::EINTR,
    {
        -abi::EINTR
    }

    /// `sigaltstack`: accepted and ignored.
    pub fn sys_sigaltstack(&self, ss: u32, old_ss: u32) -> (r: i32)
        ensures
            r == 0,
    {
        0
    }

    /// `sigreturn`: user handlers are never entered, so there is nothing to restore.
    pub fn sys_sigreturn(&self) -> (r: i32)
        ensures
            r == 0,
    {
        0
    }

    /// Whether the current process drops `sig` without acting on it: it is ignored
    /// explicitly, ignored by default, or has a handler (handlers are not run).
    fn is_sig_ignored(&self, sig: u32) -> (r: bool)
        requires
            self.wf(),
            sig < 32,
        ensures
            r == (self.cur().sigactions@[sig as int].handler != 0 || default_ignored(sig)),
    {
        let h = self.procs[self.current_pid as usize].sigactions[sig as usize].handler;
        if h == 1 {
            return true;
        }
        if h == 0 {
            return is_default_ignored(sig);
        }
        true
    }

    /// Whether `sig` ends the current process: no handler and not ignored by default.
    fn sig_default_terminate(&self, sig: u32) -> (r: bool)
        requires
            self.wf(),
            sig < 32,
        ensures
            r == (self.cur().sigactions@[sig as int].handler == 0 && !default_ignored(sig)),
    {
        let h = self.procs[self.current_pid as usize].sigactions[sig as usize].handler;
        if h != 0 {
            return false;
        }
        !is_default_ignored(sig)
    }

    /// Acts on the deliverable signals of the current process, lowest first: one that would
    /// be dropped is cleared; the first that ends the process makes it a zombie with status
    /// `128 + sig`, clears all its pending signals and tells its parent.
    pub fn check_signals(&mut self)
        requires
            old(self).wf(),
        ensures
            final(self).wf(),
            ({
                let i = old(self).current_pid as int;
                let p = old(self).cur();
                let d = deliverable(p);
                match fatal_from(p, d, 1) {
                    Some(sig) => {
                        &&& same_but_procs(*old(self), *final(self))
                        &&& final(self).procs@ == tell_parent(old(self).procs@.update(i, killed(p, sig)), i)
                    },
                    None => {
                        &&& proc_set(*old(self), *final(self), i, Process { sigpending: final(self).cur().sigpending, ..p })
                        &&& forall|b: u32| #![trigger bit(final(self).cur().sigpending, b)]
                            b < 32 ==> bit(final(self).cur().sigpending, b) == (bit(p.sigpending, b) && !(b >= 1 && bit(d, b)))
                    },
                }
            }),
    {
        let i = self.current_pid as usize;
        let orig = self.procs[i];
        let pending = orig.sigpending;
        let blocked = orig.sigmask as u32;
        let d = pending & !blocked;
        if d == 0 {
            proof {
                assert(d == deliverable(orig));
                assert forall|b: u32| b < 32 implies !bit(d, b) by {
                    assert(((0u32 >> b) & 1) == 0) by (bit_vector);
                }
                assert forall|s: int| 1 <= s <= 32 implies fatal_from(orig, d, s) is None by {
                    lemma_no_fatal(orig, d, s);
                }
                assert(self.procs@ =~= old(self).procs@.update(i as int, Process { sigpending: self.cur().sigpending, ..orig }));
            }
            return;
        }
        let mut sig: u32 = 1;
        while sig < 32
            invariant
                self.wf(),
                old(self).wf(),
                same_but_procs(*old(self), *self),
                i == self.current_pid,
                orig == old(self).cur(),
                d == deliverable(orig),
                1 <= sig <= 32,
                fatal_from(orig, d, 1) == fatal_from(orig, d, sig as int),
                self.procs@ == old(self).procs@.update(i as int, Process { sigpending: self.cur().sigpending, ..orig }),
                forall|b: u32| #![trigger bit(self.cur().sigpending, b)]
                    b < 32 ==> bit(self.cur().sigpending, b) == (bit(orig.sigpending, b) && !(1 <= b < sig && bit(d, b))),
            decreases 32 - sig,
        {
            proof {
                lemma_test_bit(d, sig);
                assert(self.cur().sigactions == orig.sigactions);
            }
            if d & (1u32 << sig) != 0 {
                if self.is_sig_ignored(sig) {
                    let mut p = self.procs[i];
                    let before = p.sigpending;
                    assert forall|b: u32| b < 32 implies bit(before, b) == (bit(orig.sigpending, b) && !(1 <= b < sig && bit(d, b))) by {
                        assert(bit(self.cur().sigpending, b) == (bit(orig.sigpending, b) && !(1 <= b < sig && bit(d, b))));
                    }
                    assert(fatal_from(orig, d, sig as int) == fatal_from(orig, d, sig as int + 1));
                    p.sigpending = p.sigpending & !(1u32 << sig);
                    self.procs.set(i, p);
                    proof {
                        assert forall|b: u32| #![trigger bit(self.cur().sigpending, b)] b < 32 implies bit(self.cur().sigpending, b)
                            == (bit(orig.sigpending, b) && !(1 <= b < sig + 1 && bit(d, b))) by {
                            lemma_clear_bit(before, sig, b);
                        }
                    }
                } else {
                    let mut p = self.procs[i];
                    p.sigpending = 0;
                    p.state = State::Zombie;
                    p.exit_code = 128 + sig;
                    self.procs.set(i, p);
                    assert(p == killed(orig, sig));
                    assert(fatal_from(orig, d, sig as int) == Some(sig));
                    let pp = p.ppid as usize;
                    if pp < MAX_PROCS && pp != i {
                        let mut q = self.procs[pp];
                        q.sigpending = q.sigpending | (1u32 << abi::SIGCHLD);
                        if q.state == State::Blocked {
                            q.state = State::Ready;
                        }
                        self.procs.set(pp, q);
                    }
                    proof {
                        assert(self.procs@ =~= tell_parent(old(self).procs@.update(i as int, killed(orig, sig)), i as int));
                        assert(fatal_from(orig, d, 1) == Some(sig));
                        assert(same_but_procs(*old(self), *self));
                    }
                    return;
                }
            } else {
                assert(fatal_from(orig, d, sig as int) == fatal_from(orig, d, sig as int + 1));
                assert forall|b: u32| b < 32 implies bit(self.cur().sigpending, b)
                    == (bit(orig.sigpending, b) && !(1 <= b < sig + 1 && bit(d, b))) by {
                    assert(bit(self.cur().sigpending, b) == (bit(orig.sigpending, b) && !(1 <= b < sig && bit(d, b))));
                }
            }
            sig = sig + 1;
        }
        assert(fatal_from(orig, d, 32) is None);
    }
}

/// What `chdir` does.
pub open spec fn chdir_post(o: Kernel, f: Kernel, m: UserMem, path: u32, r: i32) -> bool {
    &&& ({
        if m.at(path as int) == 0x2f {
            &&& r == 0
            &&& same_but_procs(o, f)
            &&& f.procs@.len() == o.procs@.len()
            &&& forall|j: int| 0 <= j < MAX_PROCS && j != o.current_pid ==> f.procs@[j] == o.procs@[j]
            &&& f.cur() == Process { cwd: f.cur().cwd, cwd_len: 1, ..o.cur() }
            &&& f.cur().cwd@ == o.cur().cwd@.update(0, 0x2fu8)
        } else {
            r == -abi::ENOENT && f == o
        }
    })
}

/// What `access` answers.
pub open spec fn access_post(k: Kernel, m: UserMem, path: u32, mode: u32, r: i32) -> bool {
    &&& r == (if m.at(path as int) == 0x2f { 0 } else { -abi::ENOENT })
}

/// What `uname` does.
pub open spec fn uname_post(k: Kernel, om: UserMem, fm: UserMem, buf: u32, r: i32) -> bool {
    &&& r == 0
    &&& fm.bytes@ == overwrite(om.bytes@, buf - om.base, uname_bytes())
}

/// What `getcwd` does.
pub open spec fn getcwd_post(k: Kernel, om: UserMem, fm: UserMem, buf: u32, size: u32, r: i32) -> bool {
    &&& ({
        let len = k.cur().cwd_len as int;
        if len >= size {
            r == -abi::ERANGE && fm.bytes@ == om.bytes@
        } else {
            &&& r == len
            &&& fm.bytes@ == overwrite(om.bytes@, buf - om.base,
                k.cur().cwd@.subrange(0, len).push(0u8))
        }
    })
}

/// What `clock_gettime` does.
pub open spec fn clock_gettime_post(k: Kernel, om: UserMem, fm: UserMem, clk_id: u32, tp: u32, r: i32) -> bool {
    &&& tp == 0 ==> r == -abi::EFAULT && fm.bytes@ == om.bytes@
    &&& tp != 0 ==> r == 0 && fm.bytes@ == overwrite(om.bytes@, tp - om.base,
        le_bytes(1740000000) + le_bytes(0))
}

/// What `getrandom` does.
pub open spec fn getrandom_post(k: Kernel, om: UserMem, fm: UserMem, buf: u32, len: u32, flags: u32, r: i32) -> bool {
    &&& r == (if len > 256 { 256 } else { len as int })
    &&& fm.bytes@ == overwrite(om.bytes@, buf - om.base,
        Seq::new(r as nat, |i: int| (i as u8) ^ 0xAAu8))
}

/// What `prlimit64` does.
pub open spec fn prlimit64_post(k: Kernel, om: UserMem, fm: UserMem, pid: u32, resource: u32, new_rlim: u32, old_rlim: u32, r: i32) -> bool {
    &&& r == 0
    &&& fm.bytes@ == (if old_rlim != 0 {
        overwrite(om.bytes@, old_rlim - om.base, rlimit_bytes())
    } else {
        om.bytes@
    })
}

/// What `getrlimit` does.
pub open spec fn getrlimit_post(k: Kernel, om: UserMem, fm: UserMem, resource: u32, rlim: u32, r: i32) -> bool {
    &&& r == 0
    &&& fm.bytes@ == (if rlim != 0 {
        overwrite(om.bytes@, rlim - om.base, rlimit_bytes())
    } else {
        om.bytes@
    })
}

impl Kernel {
    // ------------------------------------------------------------ directories and paths

    /// `getcwd`: writes the working directory and a terminating zero at `buf` and returns its
    /// length. Error: `-ERANGE` when it does not fit in `size` bytes with the zero.
    pub fn sys_getcwd(&self, mem: &mut UserMem, buf: u32, size: u32) -> (r: i32)
        requires
            self.wf(),
            self.cur().cwd_len <= 256,
            self.cur().cwd_len < size ==> old(mem).contains(buf as int, self.cur().cwd_len + 1),
        ensures
            final(mem).base == old(mem).base,
            getcwd_post(*self, *old(mem), *final(mem), buf, size, r),
    {
        let p = self.procs[self.current_pid as usize];
        let len = p.cwd_len as usize;
        if len >= size as usize {
            return -abi::ERANGE;
        }
        let mut out: Vec<u8> = Vec::new();
        let mut i: usize = 0;
        while i < len
            invariant
                len == p.cwd_len,
                len <= 256,
                i <= len,
                out@ == p.cwd@.subrange(0, i as int),
            decreases len - i,
        {
            out.push(p.cwd[i]);
            assert(out@ =~= p.cwd@.subrange(0, i + 1));
            i = i + 1;
        }
        out.push(0u8);
        mem.write_bytes(buf, out.as_slice());
        len as i32
    }

    /// `chdir`: only the root exists, so a path that starts with `/` makes the working
    /// directory `/`. Error: `-ENOENT` otherwise.
    pub fn sys_chdir(&mut self, mem: &UserMem, path: u32) -> (r: i32)
        requires
            old(self).wf(),
            mem.contains(path as int, 1),
        ensures
            final(self).wf(),
            chdir_post(*old(self), *final(self), *mem, path, r),
    {
        let first = mem.read_u8(path);
        if first == 0x2f {
            let i = self.current_pid as usize;
            let mut p = self.procs[i];
            p.cwd[0] = 0x2f;
            p.cwd_len = 1;
            self.procs.set(i, p);
            return 0;
        }
        -abi::ENOENT
    }

    /// `access`: a path that starts with `/` is accessible. Error: `-ENOENT` otherwise.
    pub fn sys_access(&self, mem: &UserMem, path: u32, mode: u32) -> (r: i32)
        requires
            mem.contains(path as int, 1),
        ensures
            access_post(*self, *mem, path, mode, r),
    {
        if mem.read_u8(path) == 0x2f {
            return 0;
        }
        -abi::ENOENT
    }

    /// `readlink`: there are no symbolic links.
    pub fn sys_readlink(&self, path: u32, buf: u32, bufsiz: u32) -> (r: i32)
        ensures
            r == -abi::EINVAL,
    {
        -abi::EINVAL
    }

    /// `unlink`: not supported.
    pub fn sys_unlink(&self, pathname: u32) -> (r: i32)
        ensures
            r == -abi::ENOSYS,
    {
        -abi::ENOSYS
    }

    /// `mkdir`: not supported.
    pub fn sys_mkdir(&self, pathname: u32, mode: u32) -> (r: i32)
        ensures
            r == -abi::ENOSYS,
    {
        -abi::ENOSYS
    }

    /// `rmdir`: not supported.
    pub fn sys_rmdir(&self, pathname: u32) -> (r: i32)
        ensures
            r == -abi::ENOSYS,
    {
        -abi::ENOSYS
    }

    /// `rename`: not supported.
    pub fn sys_rename(&self, oldpath: u32, newpath: u32) -> (r: i32)
        ensures
            r == -abi::ENOSYS,
    {
        -abi::ENOSYS
    }

    /// `symlink`: not supported.
    pub fn sys_symlink(&self, target: u32, linkpath: u32) -> (r: i32)
        ensures
            r == -abi::ENOSYS,
    {
        -abi::ENOSYS
    }

    /// `chmod`: accepted and ignored.
    pub fn sys_chmod(&self, pathname: u32, mode: u32) -> (r: i32)
        ensures
            r == 0,
    {
        0
    }

    /// `chown`: accepted and ignored.
    pub fn sys_chown(&self, pathname: u32, owner: u32, group: u32) -> (r: i32)
        ensures
            r == 0,
    {
        0
    }

    /// `utimensat`: accepted and ignored.
    pub fn sys_utimensat(&self, dirfd: u32, pathname: u32, times: u32, flags: u32) -> (r: i32)
        ensures
            r == 0,
    {
        0
    }

    // ------------------------------------------------------------ time and limits

    /// `nanosleep`: returns at once.
    pub fn sys_nanosleep(&self, req: u32, rem: u32) -> (r: i32)
        ensures
            r == 0,
    {
        0
    }

    /// `alarm`: no alarm was pending.
    pub fn sys_alarm(&self, seconds: u32) -> (r: u32)
        ensures
            r == 0,
    {
        0
    }

    /// `sched_yield`: returns at once.
    pub fn sys_sched_yield(&self) -> (r: i32)
        ensures
            r == 0,
    {
        0
    }

    /// `time`: the fixed clock of the system.
    pub fn sys_time(&self) -> (r: u32)
        ensures
            r == 1740000000,
    {
        1740000000
    }

    /// `umask`: the mask is always `022`.
    pub fn sys_umask(&self, mask: u32) -> (r: u32)
        ensures
            r == 0o22,
    {
        0o22
    }

    /// `clock_gettime`: writes the fixed clock (seconds, then 0 nanoseconds) at `tp`.
    /// Error: `-EFAULT` for a null `tp`.
    pub fn sys_clock_gettime(&self, mem: &mut UserMem, clk_id: u32, tp: u32) -> (r: i32)
        requires
            tp != 0 ==> old(mem).contains(tp as int, 8),
        ensures
            final(mem).base == old(mem).base,
            clock_gettime_post(*self, *old(mem), *final(mem), clk_id, tp, r),
    {
        if tp == 0 {
            return -abi::EFAULT;
        }
        let mut out: Vec<u8> = Vec::new();
        push_le32(&mut out, 1740000000);
        push_le32(&mut out, 0);
        mem.write_bytes(tp, out.as_slice());
        0
    }

    /// `prlimit64`: every limit is reported as 0xFFFFFFFF (current and maximum, as two
    /// 64-bit values at `old_rlim` when it is not 0); nothing is changed.
    pub fn sys_prlimit64(&self, mem: &mut UserMem, pid: u32, resource: u32, new_rlim: u32, old_rlim: u32) -> (r: i32)
        requires
            old_rlim != 0 ==> old(mem).contains(old_rlim as int, 16),
        ensures
            final(mem).base == old(mem).base,
            prlimit64_post(*self, *old(mem), *final(mem), pid, resource, new_rlim, old_rlim, r),
    {
        if old_rlim != 0 {
            write_rlimit(mem, old_rlim);
        }
        0
    }

    /// `getrlimit`: every limit is reported as 0xFFFFFFFF, current and maximum.
    pub fn sys_getrlimit(&self, mem: &mut UserMem, resource: u32, rlim: u32) -> (r: i32)
        requires
            rlim != 0 ==> old(mem).contains(rlim as int, 16),
        ensures
            final(mem).base == old(mem).base,
            getrlimit_post(*self, *old(mem), *final(mem), resource, rlim, r),
    {
        if rlim != 0 {
            write_rlimit(mem, rlim);
        }
        0
    }

    /// `setrlimit`: accepted and ignored.
    pub fn sys_setrlimit(&self, resource: u32, rlim: u32) -> (r: i32)
        ensures
            r == 0,
    {
        0
    }

    /// `syslog`: not supported.
    pub fn sys_syslog(&self, ty: u32, buf: u32, len: u32) -> (r: i32)
        ensures
            r == -abi::ENOSYS,
    {
        -abi::ENOSYS
    }

    /// `getrandom`: fills the first `min(len, 256)` bytes at `buf` with `i ^ 0xAA` and
    /// returns how many it wrote.
    pub fn sys_getrandom(&self, mem: &mut UserMem, buf: u32, len: u32, flags: u32) -> (r: i32)
        requires
            old(mem).contains(buf as int, if len > 256 { 256 } else { len as int }),
        ensures
            final(mem).base == old(mem).base,
            getrandom_post(*self, *old(mem), *final(mem), buf, len, flags, r),
    {
        let n: u32 = if len > 256 { 256 } else { len };
        let mut out: Vec<u8> = Vec::new();
        let mut i: u32 = 0;
        while i < n
            invariant
                n <= 256,
                i <= n,
                out@ == Seq::new(i as nat, |k: int| (k as u8) ^ 0xAAu8),
            decreases n - i,
        {
            out.push((i as u8) ^ 0xAA);
            assert(out@ =~= Seq::new((i + 1) as nat, |k: int| (k as u8) ^ 0xAAu8));
            i = i + 1;
        }
        mem.write_bytes(buf, out.as_slice());
        n as i32
    }

    /// `munmap`: memory is never given back; accepted.
    pub fn sys_munmap(&self, addr: u32, length: u32) -> (r: i32)
        ensures
            r == 0,
    {
        0
    }

    /// `mprotect`: protections are not changed; accepted.
    pub fn sys_mprotect(&self, addr: u32, len: u32, prot: u32) -> (r: i32)
        ensures
            r == 0,
    {
        0
    }

    /// `uname`: writes the six 65-byte fields (system, node, release, version, machine,
    /// domain), each zero-padded, at `buf`.
    pub fn sys_uname(&self, mem: &mut UserMem, buf: u32) -> (r: i32)
        requires
            old(mem).contains(buf as int, 390),
        ensures
            final(mem).base == old(mem).base,
            uname_post(*self, *old(mem), *final(mem), buf, r),
    {
        let mut out: Vec<u8> = Vec::new();
        push_padded(&mut out, &[0x4du8, 0x69, 0x7a, 0x75, 0x4f, 0x53]);
        push_padded(&mut out, &[0x6du8, 0x69, 0x7a, 0x75]);
        push_padded(&mut out, &[0x30u8, 0x2e, 0x31, 0x2e, 0x30]);
        push_padded(&mut out, &[0x23u8, 0x31, 0x20, 0x54, 0x75, 0x65, 0x20, 0x4a, 0x75, 0x6e, 0x20, 0x31, 0x37, 0x20, 0x32, 0x30, 0x32, 0x36]);
        push_padded(&mut out, &[0x69u8, 0x36, 0x38, 0x36]);
        push_padded(&mut out, &[0x28u8, 0x6e, 0x6f, 0x6e, 0x65, 0x29]);
        assert(out@ =~= uname_bytes());
        mem.write_bytes(buf, out.as_slice());
        0
    }

    /// `isatty`: descriptors 0 to 2 are the terminal.
    pub fn sys_isatty(&self, fd: u32) -> (r: i32)
        ensures
            r == (if fd <= 2 { 1i32 } else { 0i32 }),
    {
        if fd <= 2 { 1 } else { 0 }
    }
}

/// `s` padded with zeros to 65 bytes.
pub open spec fn pad65(s: Seq<u8>) -> Seq<u8> {
    Seq::new(65, |i: int| if i < s.len() { s[i] } else { 0u8 })
}

/// The `utsname` record: `MizuOS`, `mizu`, `0.1.0`, `#1 Tue Jun 17 2026`, `i686`, `(none)`.
pub open spec fn uname_bytes() -> Seq<u8> {
    pad65(seq![0x4du8, 0x69, 0x7a, 0x75, 0x4f, 0x53])
        + pad65(seq![0x6du8, 0x69, 0x7a, 0x75])
        + pad65(seq![0x30u8, 0x2e, 0x31, 0x2e, 0x30])
        + pad65(seq![0x23u8, 0x31, 0x20, 0x54, 0x75, 0x65, 0x20, 0x4a, 0x75, 0x6e, 0x20, 0x31, 0x37, 0x20, 0x32, 0x30, 0x32, 0x36])
        + pad65(seq![0x69u8, 0x36, 0x38, 0x36])
        + pad65(seq![0x28u8, 0x6e, 0x6f, 0x6e, 0x65, 0x29])
}

fn push_padded(out: &mut Vec<u8>, field: &[u8])
    requires
        field@.len() <= 65,
    ensures
        final(out)@ == old(out)@ + pad65(field@),
{
    let mut i: usize = 0;
    while i < 65
        invariant
            field@.len() <= 65,
            i <= 65,
            out@ == old(out)@ + pad65(field@).subrange(0, i as int),
        decreases 65 - i,
    {
        if i < field.len() {
            out.push(field[i]);
        } else {
            out.push(0u8);
        }
        assert(out@ =~= old(out)@ + pad65(field@).subrange(0, i + 1));
        i = i + 1;
    }
    assert(pad65(field@).subrange(0, 65) =~= pad65(field@));
}

/// Two 64-bit limits of 0xFFFFFFFF.
pub open spec fn rlimit_bytes() -> Seq<u8> {
    le_bytes(0xFFFFFFFF) + le_bytes(0) + le_bytes(0xFFFFFFFF) + le_bytes(0)
}

fn write_rlimit(mem: &mut UserMem, at: u32)
    requires
        old(mem).contains(at as int, 16),
    ensures
        final(mem).base == old(mem).base,
        final(mem).bytes@ == overwrite(old(mem).bytes@, at - old(mem).base, rlimit_bytes()),
{
    let mut out: Vec<u8> = Vec::new();
    push_le32(&mut out, 0xFFFFFFFF);
    push_le32(&mut out, 0);
    push_le32(&mut out, 0xFFFFFFFF);
    push_le32(&mut out, 0);
    mem.write_bytes(at, out.as_slice());
}

/// Past signal 31 no signal is fatal.
proof fn lemma_no_fatal(p: Process, d: u32, s: int)
    requires
        1 <= s <= 32,
        forall|b: u32| b < 32 ==> !bit(d, b),
    ensures
        fatal_from(p, d, s) is None,
    decreases 32 - s,
{
    if s < 32 {
        assert(!bit(d, s as u32));
        lemma_no_fatal(p, d, s + 1);
    }
}

/// The 20 bytes that describe disposition `a` to a user program.
pub open spec fn action_bytes(a: SignalAction) -> Seq<u8> {
    le_bytes(a.handler) + le_bytes(a.mask as u32) + le_bytes((a.mask >> 32) as u32) + le_bytes(a.flags)
        + le_bytes(a.restorer)
}


/// The disposition described by the 20 bytes at offset `off` of `m`.
pub open spec fn action_from(m: Seq<u8>, off: int) -> SignalAction {
    SignalAction {
        handler: word_at(m, off),
        mask: ((word_at(m, off + 8) as u64) << 32) | (word_at(m, off + 4) as u64),
        flags: word_at(m, off + 12),
        restorer: word_at(m, off + 16),
    }
}

/// Only the signal dispositions of slot `i` changed, to `acts`.
pub open spec fn proc_set_actions(o: Kernel, f: Kernel, i: int, acts: Seq<SignalAction>) -> bool {
    &&& same_but_procs(o, f)
    &&& f.procs@.len() == o.procs@.len()
    &&& forall|j: int| 0 <= j < o.procs@.len() && j != i ==> f.procs@[j] == o.procs@[j]
    &&& f.procs@[i] == Process { sigactions: f.procs@[i].sigactions, ..o.procs@[i] }
    &&& f.procs@[i].sigactions@ == acts
}

} // verus!
