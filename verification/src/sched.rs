//! Process ends, waiting for children and the choice of the next process to run. The
//! kernel decides here; the caller then loads the chosen context (or halts).
use vstd::prelude::*;
use crate::abi;
use crate::kernel::{Kernel, Process, State, MAX_PROCS, KSTACK_SIZE};
use crate::usermem::{UserMem, le_bytes, overwrite};
use crate::syscalls::{same_but_procs, notified, tell_parent};

verus! {

/// Whether process slot `p` may be given the processor.
pub open spec fn runnable(p: Process) -> bool {
    p.state == State::Ready || p.state == State::Running
}

/// The distance from slot `cur` to slot `j` going up and wrapping around.
pub open spec fn ring_dist(cur: int, j: int) -> int {
    if j > cur { j - cur } else { j + MAX_PROCS - cur }
}

/// Whether `next` is the first runnable slot after `cur`, going up and wrapping around,
/// before coming back to `cur`.
pub open spec fn next_runnable(t: Seq<Process>, cur: int, next: int) -> bool {
    &&& 0 <= next < MAX_PROCS
    &&& next != cur
    &&& runnable(t[next])
    &&& forall|j: int| 0 <= j < MAX_PROCS && j != cur && ring_dist(cur, j) < ring_dist(cur, next) ==> !runnable(t[j])
}

/// Whether no slot but `cur` is runnable.
pub open spec fn none_runnable(t: Seq<Process>, cur: int) -> bool {
    forall|j: int| 0 <= j < MAX_PROCS && j != cur ==> !runnable(t[j])
}

/// Whether slot `i` holds a zombie child of `parent` that `waitpid(pid)` may reap.
pub open spec fn reapable(t: Seq<Process>, parent: u32, pid: i32, i: int) -> bool {
    &&& 1 <= i < MAX_PROCS
    &&& t[i].ppid == parent
    &&& t[i].state == State::Zombie
    &&& (pid <= 0 || pid as int == i)
}

/// Whether slot `i` holds a live (not free) child of `parent`.
pub open spec fn live_child(t: Seq<Process>, parent: u32, i: int) -> bool {
    1 <= i < MAX_PROCS && t[i].ppid == parent && t[i].state != State::Free
}

/// What the caller does after a context switch decision.
pub enum Switch {
    /// Keep running the current process.
    Stay,
    /// Resume the process whose saved stack pointer this is.
    To(u32),
    /// Nothing can run: halt.
    Halt,
}

/// Going around the ring from `cur` comes back to `cur` only after a full turn.
proof fn lemma_ring_back(cur: int, steps: int)
    requires
        0 <= cur < 256,
        1 <= steps <= 256,
        (cur + steps) % 256 == cur,
    ensures
        steps == 256,
{
    if steps < 256 {
        if cur + steps < 256 {
            assert((cur + steps) % 256 == cur + steps) by (nonlinear_arith)
                requires 0 <= cur + steps < 256;
        } else {
            assert((cur + steps) % 256 == cur + steps - 256) by (nonlinear_arith)
                requires 256 <= cur + steps < 512;
        }
    }
}

impl Kernel {
    /// The first runnable slot after `cur`, going up and wrapping around, if any.
    pub fn find_next(&self, cur: usize) -> (r: Option<usize>)
        requires
            self.wf(),
            cur < MAX_PROCS,
        ensures
            match r {
                Some(n) => next_runnable(self.procs@, cur as int, n as int),
                None => none_runnable(self.procs@, cur as int),
            },
    {
        let mut next = (cur + 1) % MAX_PROCS;
        let mut steps: usize = 1;
        while next != cur
            invariant
                self.wf(),
                cur < MAX_PROCS,
                1 <= steps <= MAX_PROCS,
                next < MAX_PROCS,
                next == (cur + steps) % (MAX_PROCS as int),
                forall|j: int| 0 <= j < MAX_PROCS && j != cur && ring_dist(cur as int, j) < steps ==> !runnable(self.procs@[j]),
            decreases MAX_PROCS - steps,
        {
            assert(ring_dist(cur as int, next as int) == steps);
            if self.procs[next].state == State::Ready || self.procs[next].state == State::Running {
                return Some(next);
            }
            next = (next + 1) % MAX_PROCS;
            steps = steps + 1;
        }
        proof {
            lemma_ring_back(cur as int, steps as int);
            assert forall|j: int| 0 <= j < MAX_PROCS && j != cur implies !runnable(self.procs@[j]) by {
                assert(ring_dist(cur as int, j) < steps);
            }
        }
        None
    }

    /// Gives the processor to slot `n`: it becomes current and running.
    fn run(&mut self, n: usize)
        requires
            old(self).wf(),
            n < MAX_PROCS,
        ensures
            final(self).wf(),
            final(self).current_pid == n,
            final(self).procs@ == old(self).procs@.update(n as int, Process { state: State::Running, ..old(self).procs@[n as int] }),
            final(self).fdtable == old(self).fdtable,
            final(self).pipe_ctl == old(self).pipe_ctl,
            final(self).pipe_data == old(self).pipe_data,
            final(self).opened == old(self).opened,
            final(self).next_pid == old(self).next_pid,
            final(self).fs == old(self).fs,
    {
        self.current_pid = n as u32;
        let mut p = self.procs[n];
        p.state = State::Running;
        self.procs.set(n, p);
    }

    /// The top of the kernel stack of slot `n` (its base plus the stack size, wrapping).
    pub fn kernel_stack_top(&self, n: u32) -> (r: u32)
        requires
            self.wf(),
            (n as int) < MAX_PROCS,
        ensures
            r == self.proc(n as int).kstack_base.wrapping_add(KSTACK_SIZE),
    {
        self.procs[n as usize].kstack_base.wrapping_add(KSTACK_SIZE)
    }

    /// Leaves the current process for another: its saved stack is forgotten; a zombie's
    /// parent goes first when it is ready; otherwise the next runnable slot after it.
    /// Returns the slot now running, or `None` when nothing can run (the caller halts).
    pub fn switch_to_next(&mut self) -> (r: Option<u32>)
        requires
            old(self).wf(),
        ensures
            final(self).wf(),
            ({
                let cur = old(self).current_pid as int;
                let t0 = old(self).procs@.update(cur, Process { saved_esp: 0, ..old(self).procs@[cur] });
                let pp = old(self).procs@[cur].ppid as int;
                let to_parent = old(self).procs@[cur].state == State::Zombie && pp < MAX_PROCS && pp != cur
                    && t0[pp].state == State::Ready;
                &&& final(self).fdtable == old(self).fdtable
                &&& final(self).pipe_ctl == old(self).pipe_ctl
                &&& final(self).opened == old(self).opened
                &&& final(self).fs == old(self).fs
                &&& if to_parent {
                    &&& r == Some(pp as u32)
                    &&& final(self).current_pid == pp
                    &&& final(self).procs@ == t0.update(pp, Process { state: State::Running, ..t0[pp] })
                } else if none_runnable(t0, cur) {
                    r is None && final(self).procs@ == t0 && final(self).current_pid == old(self).current_pid
                } else {
                    &&& r matches Some(n) && next_runnable(t0, cur, n as int)
                    &&& final(self).current_pid == r->0
                    &&& final(self).procs@ == t0.update(r->0 as int, Process { state: State::Running, ..t0[r->0 as int] })
                }
            }),
    {
        let cur = self.current_pid as usize;
        let mut p = self.procs[cur];
        p.saved_esp = 0;
        self.procs.set(cur, p);
        if p.state == State::Zombie {
            let pp = p.ppid as usize;
            if pp < MAX_PROCS && pp != cur && self.procs[pp].state == State::Ready {
                self.run(pp);
                return Some(pp as u32);
            }
        }
        match self.find_next(cur) {
            Some(n) => {
                self.run(n);
                Some(n as u32)
            },
            None => None,
        }
    }

    /// `exit`: the current process becomes a zombie with status `code`, its parent is told,
    /// and another process is chosen as by `switch_to_next`.
    pub fn sys_exit(&mut self, code: u32) -> (r: Option<u32>)
        requires
            old(self).wf(),
        ensures
            final(self).wf(),
            exit_post(*old(self), *final(self), code, r),
    {
        let i = self.current_pid as usize;
        let mut p = self.procs[i];
        p.state = State::Zombie;
        p.exit_code = code;
        self.procs.set(i, p);
        let pp = p.ppid as usize;
        if pp < MAX_PROCS && pp != i {
            let mut q = self.procs[pp];
            q.sigpending = q.sigpending | (1u32 << abi::SIGCHLD);
            if q.state == State::Blocked {
                q.state = State::Ready;
            }
            self.procs.set(pp, q);
        }
        let ghost mid = *self;
        proof {
            assert(mid.procs@ =~= tell_parent(old(self).procs@.update(i as int,
                Process { state: State::Zombie, exit_code: code, ..old(self).cur() }), i as int));
        }
        self.switch_to_next()
    }

    /// `exit_group`: the same as `exit`.
    pub fn sys_exit_group(&mut self, code: u32) -> (r: Option<u32>)
        requires
            old(self).wf(),
        ensures
            final(self).wf(),
            exit_post(*old(self), *final(self), code, r),
    {
        self.sys_exit(code)
    }

    /// After a system call or a timer tick: pending signals are acted on and the saved
    /// stack pointer `esp` recorded; a process that blocked or ended gives the processor
    /// to the next runnable one (or the machine halts), any other keeps it.
    pub fn context_switch_handler(&mut self, esp: u32) -> (r: Switch)
        requires
            old(self).wf(),
        ensures
            final(self).wf(),
            final(self).fdtable == old(self).fdtable,
            final(self).pipe_ctl == old(self).pipe_ctl,
            final(self).opened == old(self).opened,
            final(self).fs == old(self).fs,
            old(self).cur().state == State::Free ==> r is Stay && *final(self) == *old(self),
            old(self).cur().state != State::Free ==> {
                let cur = old(self).current_pid as int;
                let st = final(self).procs@[cur].state;
                match r {
                    Switch::Stay => final(self).current_pid == cur && st == State::Running,
                    Switch::To(e) => {
                        &&& final(self).current_pid != cur
                        &&& final(self).cur().state == State::Running
                        &&& e == final(self).cur().saved_esp
                    },
                    Switch::Halt => final(self).current_pid == cur,
                }
            },
    {
        let cur = self.current_pid as usize;
        if self.procs[cur].state == State::Free {
            return Switch::Stay;
        }
        self.check_signals();
        let mut p = self.procs[cur];
        p.saved_esp = esp;
        self.procs.set(cur, p);
        if p.state == State::Blocked || p.state == State::Zombie {
            match self.find_next(cur) {
                Some(n) => {
                    self.run(n);
                    Switch::To(self.procs[n].saved_esp)
                },
                None => Switch::Halt,
            }
        } else {
            p.state = State::Running;
            self.procs.set(cur, p);
            Switch::Stay
        }
    }

    /// `waitpid`: reaps the lowest zombie child of the current process that `pid` names
    /// (any child for `pid <= 0`), writing its status `(code & 0xff) << 8` at `status` when
    /// it is not 0, and returns its pid. Otherwise: 0 with `WNOHANG`, `-ECHILD` without
    /// live children, else the current process blocks and `-EINTR` makes the caller retry.
    pub fn sys_waitpid(&mut self, mem: &mut UserMem, pid: i32, status: u32, options: i32) -> (r: i32)
        requires
            old(self).wf(),
            status != 0 ==> old(mem).contains(status as int, 4),
        ensures
            final(self).wf(),
            final(mem).base == old(mem).base,
            waitpid_post(*old(self), *final(self), old(mem).bytes@, final(mem).bytes@, status - old(mem).base,
                pid, status, options, r),
    {
        let cur = self.current_pid;
        let mut i: usize = 1;
        while i < MAX_PROCS
            invariant
                self.wf(),
                *self == *old(self),
                *mem == *old(mem),
                status != 0 ==> old(mem).contains(status as int, 4),
                cur == self.current_pid,
                1 <= i <= MAX_PROCS,
                forall|j: int| 1 <= j < i ==> !reapable(self.procs@, cur, pid, j),
            decreases MAX_PROCS - i,
        {
            let q = self.procs[i];
            if q.ppid == cur && q.state == State::Zombie && (pid <= 0 || pid as usize == i) {
                if status != 0 {
                    mem.write_u32(status, (q.exit_code & 0xff) << 8);
                }
                let mut q2 = q;
                q2.state = State::Free;
                self.procs.set(i, q2);
                assert(reapable(old(self).procs@, cur, pid, i as int));
                return q.pid as i32;
            }
            i = i + 1;
        }
        if options & abi::WNOHANG != 0 {
            return 0;
        }
        let mut i: usize = 1;
        let mut has_child = false;
        while i < MAX_PROCS && !has_child
            invariant
                self.wf(),
                *self == *old(self),
                *mem == *old(mem),
                cur == self.current_pid,
                1 <= i <= MAX_PROCS,
                has_child ==> exists|j: int| live_child(self.procs@, cur, j),
                !has_child ==> forall|j: int| 1 <= j < i ==> !live_child(self.procs@, cur, j),
            decreases MAX_PROCS - i, (if has_child { 0int } else { 1int }),
        {
            if self.procs[i].ppid == cur && self.procs[i].state != State::Free {
                assert(live_child(self.procs@, cur, i as int));
                has_child = true;
            } else {
                i = i + 1;
            }
        }
        if !has_child {
            return -abi::ECHILD;
        }
        let c = cur as usize;
        let mut p = self.procs[c];
        p.state = State::Blocked;
        self.procs.set(c, p);
        -abi::EINTR
    }

    /// `wait4`: `waitpid`; resource usage is not reported.
    pub fn sys_wait4(&mut self, mem: &mut UserMem, pid: i32, status: u32, options: i32, rusage: u32) -> (r: i32)
        requires
            old(self).wf(),
            status != 0 ==> old(mem).contains(status as int, 4),
        ensures
            final(self).wf(),
            final(mem).base == old(mem).base,
            waitpid_post(*old(self), *final(self), old(mem).bytes@, final(mem).bytes@, status - old(mem).base,
                pid, status, options, r),
    {
        self.sys_waitpid(mem, pid, status, options)
    }
}

/// What `exit` does: the process table after the end of the current process, then the
/// switch to the next one.
pub open spec fn exit_post(o: Kernel, f: Kernel, code: u32, r: Option<u32>) -> bool {
    let cur = o.current_pid as int;
    let t1 = tell_parent(o.procs@.update(cur, Process { state: State::Zombie, exit_code: code, ..o.cur() }), cur);
    let t0 = t1.update(cur, Process { saved_esp: 0, ..t1[cur] });
    let pp = o.cur().ppid as int;
    let to_parent = pp < MAX_PROCS && pp != cur && t0[pp].state == State::Ready;
    &&& f.fdtable == o.fdtable
    &&& f.pipe_ctl == o.pipe_ctl
    &&& f.opened == o.opened
    &&& f.fs == o.fs
    &&& if to_parent {
        &&& r == Some(pp as u32)
        &&& f.current_pid == pp
        &&& f.procs@ == t0.update(pp, Process { state: State::Running, ..t0[pp] })
    } else if none_runnable(t0, cur) {
        r is None && f.procs@ == t0 && f.current_pid == o.current_pid
    } else {
        &&& r matches Some(n) && next_runnable(t0, cur, n as int)
        &&& f.current_pid == r->0
        &&& f.procs@ == t0.update(r->0 as int, Process { state: State::Running, ..t0[r->0 as int] })
    }
}

/// `waitpid` and `wait4` (whose `rusage` argument is never read or written) both answer as
/// `waitpid_post` says, and from one state that answer is unique: the same result, the same
/// caller's memory and the same kernel.
pub proof fn law_wait4_same_as_waitpid(o: Kernel, f1: Kernel, f2: Kernel, om: Seq<u8>, m1: Seq<u8>, m2: Seq<u8>,
    off: int, pid: i32, status: u32, options: i32, r1: i32, r2: i32)
    requires
        waitpid_post(o, f1, om, m1, off, pid, status, options, r1),
        waitpid_post(o, f2, om, m2, off, pid, status, options, r2),
    ensures
        r1 == r2,
        m1 == m2,
        f1.procs@ == f2.procs@,
        same_but_procs(f1, f2),
{
    let cur = o.current_pid;
    if exists|i: int| reapable(o.procs@, cur, pid, i) {
        let i1 = choose|i: int| {
            &&& #[trigger] reapable(o.procs@, cur, pid, i)
            &&& forall|j: int| 1 <= j < i ==> !reapable(o.procs@, cur, pid, j)
            &&& r1 == o.procs@[i].pid as i32
            &&& same_but_procs(o, f1)
            &&& f1.procs@ == o.procs@.update(i, Process { state: State::Free, ..o.procs@[i] })
            &&& m1 == (if status != 0 { overwrite(om, off, le_bytes((o.procs@[i].exit_code & 0xff) << 8)) } else { om })
        };
        let i2 = choose|i: int| {
            &&& #[trigger] reapable(o.procs@, cur, pid, i)
            &&& forall|j: int| 1 <= j < i ==> !reapable(o.procs@, cur, pid, j)
            &&& r2 == o.procs@[i].pid as i32
            &&& same_but_procs(o, f2)
            &&& f2.procs@ == o.procs@.update(i, Process { state: State::Free, ..o.procs@[i] })
            &&& m2 == (if status != 0 { overwrite(om, off, le_bytes((o.procs@[i].exit_code & 0xff) << 8)) } else { om })
        };
        assert(i1 == i2);
    }
}

/// What `waitpid` does.
pub open spec fn waitpid_post(o: Kernel, f: Kernel, om: Seq<u8>, fm: Seq<u8>, off: int,
    pid: i32, status: u32, options: i32, r: i32) -> bool {
    let cur = o.current_pid;
    if exists|i: int| reapable(o.procs@, cur, pid, i) {
        exists|i: int| {
            &&& #[trigger] reapable(o.procs@, cur, pid, i)
            &&& forall|j: int| 1 <= j < i ==> !reapable(o.procs@, cur, pid, j)
            &&& r == o.procs@[i].pid as i32
            &&& same_but_procs(o, f)
            &&& f.procs@ == o.procs@.update(i, Process { state: State::Free, ..o.procs@[i] })
            &&& fm == (if status != 0 { overwrite(om, off, le_bytes((o.procs@[i].exit_code & 0xff) << 8)) } else { om })
        }
    } else if options & abi::WNOHANG != 0 {
        r == 0 && f == o && fm == om
    } else if !exists|i: int| live_child(o.procs@, cur, i) {
        r == -abi::ECHILD && f == o && fm == om
    } else {
        &&& r == -abi::EINTR
        &&& fm == om
        &&& same_but_procs(o, f)
        &&& f.procs@ == o.procs@.update(cur as int, Process { state: State::Blocked, ..o.cur() })
    }
}

} // verus!
