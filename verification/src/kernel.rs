//! The kernel's process state: the process table, per-process file descriptors, pipes
//! and the table of opened files, with the system calls that act on them.
use vstd::prelude::*;
use vstd::string::*;
use vstd::arithmetic::div_mod::*;
use crate::abi;
use crate::ramfs::FileSystem;

verus! {

pub const MAX_PROCS: usize = 256;
pub const KSTACK_PAGES: usize = 2;
pub const KSTACK_SIZE: u32 = 8192;
pub const MAX_FDS: usize = 32;
pub const MAX_PIPES: usize = 64;
pub const PIPE_SIZE: usize = 4096;
pub const MAX_OPENED: usize = 64;
pub const OPENED_NONE: u16 = 65535;
pub const MMAP_BASE: u32 = 0x40000000;

/// What a file descriptor refers to.
#[derive(Clone, Copy, PartialEq, Eq, Structural, Debug)]
pub enum FdType {
    Unused,
    Stdin,
    Stdout,
    Stderr,
    File,
    PipeReader(u16),
    PipeWriter(u16),
}

/// One file descriptor slot.
#[derive(Clone, Copy, PartialEq, Eq, Structural, Debug)]
pub struct FdEntry {
    pub ftype: FdType,
    pub cloexec: bool,
    pub file_offset: u32,
    pub opened_idx: u16,
}

/// A closed descriptor slot.
pub open spec fn spec_fd_zero() -> FdEntry {
    FdEntry { ftype: FdType::Unused, cloexec: false, file_offset: 0, opened_idx: OPENED_NONE }
}

pub fn fd_zero() -> (r: FdEntry)
    ensures
        r == spec_fd_zero(),
{
    FdEntry { ftype: FdType::Unused, cloexec: false, file_offset: 0, opened_idx: OPENED_NONE }
}

/// The control block of one pipe: its ring buffer window and reference counts.
#[derive(Clone, Copy, PartialEq, Eq, Structural, Debug)]
pub struct PipeBufCtl {
    pub in_use: bool,
    pub start: u32,
    pub len: u32,
    pub readers: u32,
    pub writers: u32,
}

/// Scheduling state of a process slot.
#[derive(Clone, Copy, PartialEq, Eq, Structural, Debug)]
pub enum State {
    Free,
    Running,
    Ready,
    Blocked,
    Zombie,
}

/// A signal disposition.
#[derive(Clone, Copy, PartialEq, Eq, Structural, Debug)]
pub struct SignalAction {
    pub handler: u32,
    pub mask: u64,
    pub flags: u32,
    pub restorer: u32,
}

pub open spec fn spec_empty_sigaction() -> SignalAction {
    SignalAction { handler: 0, mask: 0, flags: 0, restorer: 0 }
}

pub fn empty_sigaction() -> (r: SignalAction)
    ensures
        r == spec_empty_sigaction(),
{
    SignalAction { handler: 0, mask: 0, flags: 0, restorer: 0 }
}

/// A process slot.
#[derive(Clone, Copy)]
pub struct Process {
    pub state: State,
    pub pid: u32,
    pub ppid: u32,
    pub exit_code: u32,
    pub uid: u32,
    pub gid: u32,
    pub euid: u32,
    pub egid: u32,
    pub pd: u32,
    pub kstack_base: u32,
    pub saved_esp: u32,
    pub sigactions: [SignalAction; 32],
    pub sigpending: u32,
    pub sigmask: u64,
    pub pgid: u32,
    pub sid: u32,
    pub ctty: u32,
    pub brk: u32,
    pub mmap_base: u32,
    pub cwd: [u8; 256],
    pub cwd_len: u16,
}

/// A free process slot, as the table starts out.
pub fn empty_process() -> (r: Process)
    ensures
        r.state == State::Free,
        r.pid == 0 && r.ppid == 0 && r.exit_code == 0,
        r.uid == 0 && r.gid == 0 && r.euid == 0 && r.egid == 0,
        r.pd == 0 && r.kstack_base == 0 && r.saved_esp == 0,
        forall|i: int| 0 <= i < 32 ==> r.sigactions@[i] == spec_empty_sigaction(),
        r.sigpending == 0 && r.sigmask == 0,
        r.pgid == 0 && r.sid == 0 && r.ctty == 0 && r.brk == 0,
        r.mmap_base == MMAP_BASE,
        forall|i: int| 0 <= i < 256 ==> r.cwd@[i] == 0u8,
        r.cwd_len == 0,
{
    Process {
        state: State::Free,
        pid: 0,
        ppid: 0,
        exit_code: 0,
        uid: 0,
        gid: 0,
        euid: 0,
        egid: 0,
        pd: 0,
        kstack_base: 0,
        saved_esp: 0,
        sigactions: [empty_sigaction(); 32],
        sigpending: 0,
        sigmask: 0,
        pgid: 0,
        sid: 0,
        ctty: 0,
        brk: 0,
        mmap_base: MMAP_BASE,
        cwd: [0u8; 256],
        cwd_len: 0,
    }
}


/// The first empty slot of an opened-file table.
fn first_free_slot(t: &Vec<Option<String>>) -> (r: Option<usize>)
    ensures
        match r {
            Some(i) => i < t@.len() && t@[i as int] is None && forall|j: int| 0 <= j < i ==> t@[j] is Some,
            None => forall|j: int| 0 <= j < t@.len() ==> t@[j] is Some,
        },
{
    let mut i: usize = 0;
    while i < t.len()
        invariant
            i <= t.len(),
            forall|j: int| 0 <= j < i ==> t@[j] is Some,
        decreases t.len() - i,
    {
        if t[i].is_none() {
            return Some(i);
        }
        i = i + 1;
    }
    None
}

/// The process table, descriptor tables, pipes and opened files.
pub struct Kernel {
    pub procs: Vec<Process>,
    pub fdtable: Vec<FdEntry>,
    pub pipe_ctl: Vec<PipeBufCtl>,
    pub pipe_data: Vec<u8>,
    pub opened: Option<Vec<Option<String>>>,
    pub current_pid: u32,
    pub next_pid: u32,
    pub fs: FileSystem,
}

pub open spec fn opt_name(o: Option<String>) -> Option<Seq<char>> {
    match o {
        Some(s) => Some(s@),
        None => None,
    }
}

/// Whether a descriptor entry names a pipe that exists.
pub open spec fn fd_pipe_ok(e: FdEntry) -> bool {
    match e.ftype {
        FdType::PipeReader(id) => (id as int) < MAX_PIPES,
        FdType::PipeWriter(id) => (id as int) < MAX_PIPES,
        _ => true,
    }
}

pub open spec fn fd_index(pid: int, fd: int) -> int {
    pid * 32 + fd
}

/// What `dup` does.
pub open spec fn dup_post(o: Kernel, f: Kernel, oldfd: u32, r: i32) -> bool {
    &&& f.procs == o.procs
    &&& f.opened == o.opened
    &&& f.pipe_data == o.pipe_data
    &&& f.current_pid == o.current_pid
    &&& f.fs == o.fs
    &&& ({
        let pid = o.current_pid as int;
        let e = if (oldfd as int) < MAX_FDS { o.fd(pid, oldfd as int) } else { spec_fd_zero() };
        if e.ftype == FdType::Unused {
            r == -abi::EBADF && f == o
        } else if forall|j: int| 0 <= j < MAX_FDS ==> o.fd(pid, j).ftype != FdType::Unused {
            r == -abi::EMFILE && f == o
        } else {
            &&& 0 <= r < MAX_FDS
            &&& o.fd(pid, r as int).ftype == FdType::Unused
            &&& forall|j: int| 0 <= j < r ==> o.fd(pid, j).ftype != FdType::Unused
            &&& f.fdtable@ == o.fdtable@.update(fd_index(pid, r as int),
                FdEntry { cloexec: false, ..e })
            &&& f.pipe_ctl@ == add_ref(o.pipe_ctl@, e)
        }
    })
}

impl Kernel {
    pub open spec fn wf(&self) -> bool {
        &&& self.procs@.len() == MAX_PROCS
        &&& self.fdtable@.len() == MAX_PROCS * MAX_FDS
        &&& self.pipe_ctl@.len() == MAX_PIPES
        &&& self.pipe_data@.len() == MAX_PIPES * PIPE_SIZE
        &&& (self.current_pid as int) < MAX_PROCS
        &&& forall|i: int| 0 <= i < MAX_PIPES ==> #[trigger] self.pipe_ctl@[i].start < PIPE_SIZE
        &&& forall|i: int| 0 <= i < MAX_PIPES ==> #[trigger] self.pipe_ctl@[i].len <= PIPE_SIZE
        &&& forall|i: int| 0 <= i < MAX_PROCS * MAX_FDS ==> fd_pipe_ok(#[trigger] self.fdtable@[i])
        &&& self.opened matches Some(t) ==> t@.len() == MAX_OPENED
    }

    /// Descriptor `fd` of process `pid`.
    pub open spec fn fd(&self, pid: int, fd: int) -> FdEntry {
        self.fdtable@[fd_index(pid, fd)]
    }

    pub open spec fn proc(&self, pid: int) -> Process {
        self.procs@[pid]
    }

    pub open spec fn cur(&self) -> Process {
        self.procs@[self.current_pid as int]
    }

    /// The bytes waiting in pipe `id`, oldest first.
    pub open spec fn pipe_contents(&self, id: int) -> Seq<u8> {
        let c = self.pipe_ctl@[id];
        Seq::new(c.len as nat, |k: int| self.pipe_data@[id * 4096 + (c.start + k) % 4096])
    }

    /// The name held by opened-file slot `idx`, if any.
    pub open spec fn opened_name(&self, idx: int) -> Option<Seq<char>> {
        match self.opened {
            Some(t) => if 0 <= idx < t@.len() { opt_name(t@[idx]) } else { None },
            None => None,
        }
    }

    /// The state before `init`: every slot free, no descriptors, no pipes.
    pub fn new() -> (r: Self)
        ensures
            r.wf(),
            r.current_pid == 0,
            r.next_pid == 1,
            r.opened is None,
            forall|i: int| 0 <= i < MAX_PROCS ==> (#[trigger] r.procs@[i]).state == State::Free,
            forall|i: int| 0 <= i < MAX_PROCS * MAX_FDS ==> #[trigger] r.fdtable@[i] == spec_fd_zero(),
            forall|i: int| 0 <= i < MAX_PIPES ==> !(#[trigger] r.pipe_ctl@[i]).in_use,
    {
        let mut procs: Vec<Process> = Vec::new();
        let mut i: usize = 0;
        while i < MAX_PROCS
            invariant
                i <= MAX_PROCS,
                procs@.len() == i,
                forall|j: int| 0 <= j < i ==> (#[trigger] procs@[j]).state == State::Free,
            decreases MAX_PROCS - i,
        {
            procs.push(empty_process());
            i = i + 1;
        }
        let mut fdtable: Vec<FdEntry> = Vec::new();
        let mut i: usize = 0;
        while i < MAX_PROCS * MAX_FDS
            invariant
                i <= MAX_PROCS * MAX_FDS,
                fdtable@.len() == i,
                forall|j: int| 0 <= j < i ==> #[trigger] fdtable@[j] == spec_fd_zero(),
            decreases MAX_PROCS * MAX_FDS - i,
        {
            fdtable.push(fd_zero());
            i = i + 1;
        }
        let mut pipe_ctl: Vec<PipeBufCtl> = Vec::new();
        let mut i: usize = 0;
        while i < MAX_PIPES
            invariant
                i <= MAX_PIPES,
                pipe_ctl@.len() == i,
                forall|j: int| 0 <= j < i ==> #[trigger] pipe_ctl@[j] == (PipeBufCtl { in_use: false, start: 0, len: 0, readers: 0, writers: 0 }),
            decreases MAX_PIPES - i,
        {
            pipe_ctl.push(PipeBufCtl { in_use: false, start: 0, len: 0, readers: 0, writers: 0 });
            i = i + 1;
        }
        let mut pipe_data: Vec<u8> = Vec::new();
        let mut i: usize = 0;
        while i < MAX_PIPES * PIPE_SIZE
            invariant
                i <= MAX_PIPES * PIPE_SIZE,
                pipe_data@.len() == i,
            decreases MAX_PIPES * PIPE_SIZE - i,
        {
            pipe_data.push(0u8);
            i = i + 1;
        }
        Kernel { procs, fdtable, pipe_ctl, pipe_data, opened: None, current_pid: 0, next_pid: 1, fs: FileSystem::new() }
    }

    // ------------------------------------------------------------ opened files

    /// Creates the opened-file table, all slots empty, unless it exists.
    pub fn opened_init(&mut self)
        requires
            old(self).wf(),
        ensures
            final(self).wf(),
            final(self).opened is Some,
            old(self).opened is Some ==> *final(self) == *old(self),
            old(self).opened is None ==> forall|i: int| 0 <= i < MAX_OPENED ==> final(self).opened_name(i) is None,
            final(self).procs == old(self).procs,
            final(self).fdtable == old(self).fdtable,
            final(self).pipe_ctl == old(self).pipe_ctl,
            final(self).pipe_data == old(self).pipe_data,
            final(self).current_pid == old(self).current_pid,
            final(self).next_pid == old(self).next_pid,
            final(self).fs == old(self).fs,
    {
        if self.opened.is_none() {
            let mut v: Vec<Option<String>> = Vec::new();
            let mut i: usize = 0;
            while i < MAX_OPENED
                invariant
                    i <= MAX_OPENED,
                    v@.len() == i,
                    forall|j: int| 0 <= j < i ==> v@[j] is None,
                decreases MAX_OPENED - i,
            {
                v.push(None);
                i = i + 1;
            }
            self.opened = Some(v);
        }
    }

    /// Records `name` in the first free opened-file slot and returns its index, or
    /// `OPENED_NONE` when the table is full.
    pub fn opened_alloc(&mut self, name: &str) -> (r: u16)
        requires
            old(self).wf(),
        ensures
            final(self).wf(),
            final(self).opened is Some,
            final(self).procs == old(self).procs,
            final(self).fdtable == old(self).fdtable,
            final(self).pipe_ctl == old(self).pipe_ctl,
            final(self).pipe_data == old(self).pipe_data,
            final(self).current_pid == old(self).current_pid,
            final(self).next_pid == old(self).next_pid,
            final(self).fs == old(self).fs,
            name_alloc_post(*old(self), *final(self), name@, r),
    {
        self.opened_init();
        assert forall|j: int| self.opened_name(j) == old(self).opened_name(j) by {
            if old(self).opened is None {
                if !(0 <= j < MAX_OPENED) {
                    assert(self.opened_name(j) is None);
                }
            }
        }
        let slot = match &self.opened {
            Some(t) => first_free_slot(t),
            None => None,
        };
        match slot {
            Some(i) => {
                let ghost before = *self;
                let mut taken: Option<Vec<Option<String>>> = None;
                std::mem::swap(&mut taken, &mut self.opened);
                let mut table = taken.unwrap();
                table.set(i, Some(String::from_str(name)));
                self.opened = Some(table);
                assert forall|j: int| j != i implies self.opened_name(j) == old(self).opened_name(j) by {
                    assert(self.opened_name(j) == before.opened_name(j));
                }
                i as u16
            },
            None => OPENED_NONE,
        }
    }

    /// Empties opened-file slot `idx` (nothing for `OPENED_NONE` or an index past the table).
    pub fn opened_free(&mut self, idx: u16)
        requires
            old(self).wf(),
        ensures
            final(self).wf(),
            final(self).opened is Some <==> old(self).opened is Some,
            final(self).procs == old(self).procs,
            final(self).fdtable == old(self).fdtable,
            final(self).pipe_ctl == old(self).pipe_ctl,
            final(self).pipe_data == old(self).pipe_data,
            final(self).current_pid == old(self).current_pid,
            final(self).next_pid == old(self).next_pid,
            final(self).fs == old(self).fs,
            forall|j: int| j != idx ==> final(self).opened_name(j) == old(self).opened_name(j),
            idx != OPENED_NONE ==> final(self).opened_name(idx as int) is None,
            idx == OPENED_NONE ==> final(self).opened_name(idx as int) == old(self).opened_name(idx as int),
    {
        if idx == OPENED_NONE {
            return;
        }
        let mut taken: Option<Vec<Option<String>>> = None;
        std::mem::swap(&mut taken, &mut self.opened);
        match taken {
            None => {},
            Some(mut table) => {
                if (idx as usize) < table.len() {
                    table.set(idx as usize, None);
                }
                self.opened = Some(table);
            },
        }
    }

    /// The name held by opened-file slot `idx`.
    pub fn opened_get_name(&self, idx: u16) -> (r: Option<String>)
        ensures
            opt_name(r) == (if idx == OPENED_NONE { None } else { self.opened_name(idx as int) }),
    {
        if idx == OPENED_NONE {
            return None;
        }
        match &self.opened {
            None => None,
            Some(table) => {
                if (idx as usize) < table.len() {
                    match &table[idx as usize] {
                        Some(n) => Some(n.clone()),
                        None => None,
                    }
                } else {
                    None
                }
            },
        }
    }

    /// Renames opened-file slot `idx` if it holds a name.
    pub fn opened_set_name(&mut self, idx: u16, name: &str)
        requires
            old(self).wf(),
        ensures
            final(self).wf(),
            final(self).opened is Some <==> old(self).opened is Some,
            final(self).procs == old(self).procs,
            final(self).fdtable == old(self).fdtable,
            final(self).pipe_ctl == old(self).pipe_ctl,
            final(self).pipe_data == old(self).pipe_data,
            final(self).current_pid == old(self).current_pid,
            final(self).next_pid == old(self).next_pid,
            final(self).fs == old(self).fs,
            forall|j: int| j != idx ==> final(self).opened_name(j) == old(self).opened_name(j),
            final(self).opened_name(idx as int) == (
                if idx != OPENED_NONE && old(self).opened_name(idx as int) is Some { Some(name@) }
                else { old(self).opened_name(idx as int) }),
    {
        if idx == OPENED_NONE {
            return;
        }
        let mut taken: Option<Vec<Option<String>>> = None;
        std::mem::swap(&mut taken, &mut self.opened);
        match taken {
            None => {},
            Some(mut table) => {
                if (idx as usize) < table.len() {
                    if table[idx as usize].is_some() {
                        table.set(idx as usize, Some(String::from_str(name)));
                    }
                }
                self.opened = Some(table);
            },
        }
    }

    // ------------------------------------------------------------ descriptors

    /// Puts a fresh descriptor of type `ftype` at `fd` of process `pid` (nothing for an `fd`
    /// past the table); a file descriptor that was there gives up its opened-file slot.
    pub fn set_fd(&mut self, pid: u32, fd: u32, ftype: FdType, cloexec: bool)
        requires
            old(self).wf(),
            (pid as int) < MAX_PROCS,
            fd_pipe_ok(FdEntry { ftype, cloexec, file_offset: 0, opened_idx: OPENED_NONE }),
        ensures
            final(self).wf(),
            final(self).procs == old(self).procs,
            final(self).pipe_ctl == old(self).pipe_ctl,
            final(self).pipe_data == old(self).pipe_data,
            final(self).current_pid == old(self).current_pid,
            final(self).next_pid == old(self).next_pid,
            final(self).fs == old(self).fs,
            (fd as int) >= MAX_FDS ==> *final(self) == *old(self),
            (fd as int) < MAX_FDS ==> {
                let old_e = old(self).fd(pid as int, fd as int);
                &&& final(self).fdtable@ == old(self).fdtable@.update(fd_index(pid as int, fd as int),
                    FdEntry { ftype, cloexec, file_offset: 0, opened_idx: OPENED_NONE })
                &&& (old_e.ftype == FdType::File && old_e.opened_idx != OPENED_NONE)
                    ==> final(self).opened_name(old_e.opened_idx as int) is None
                &&& forall|j: int| !(old_e.ftype == FdType::File && j == old_e.opened_idx)
                    ==> final(self).opened_name(j) == old(self).opened_name(j)
                &&& old_e.ftype != FdType::File ==> final(self).opened == old(self).opened
            },
    {
        if (fd as usize) >= MAX_FDS {
            return;
        }
        let idx = pid as usize * MAX_FDS + fd as usize;
        let old_e = self.fdtable[idx];
        if old_e.ftype == FdType::File {
            self.opened_free(old_e.opened_idx);
        }
        self.fdtable.set(idx, FdEntry { ftype, cloexec, file_offset: 0, opened_idx: OPENED_NONE });
    }

    /// Descriptor `fd` of process `pid`, or a closed one for an `fd` past the table.
    pub fn get_fd(&self, pid: u32, fd: u32) -> (r: FdEntry)
        requires
            self.wf(),
            (pid as int) < MAX_PROCS,
        ensures
            r == (if (fd as int) < MAX_FDS { self.fd(pid as int, fd as int) } else { spec_fd_zero() }),
            fd_pipe_ok(r),
    {
        if (fd as usize) >= MAX_FDS {
            return fd_zero();
        }
        self.fdtable[pid as usize * MAX_FDS + fd as usize]
    }

    /// The lowest unused descriptor number at or above `start` of process `pid`.
    pub fn alloc_fd_for(&self, pid: u32, start: u32) -> (r: Option<u32>)
        requires
            self.wf(),
            (pid as int) < MAX_PROCS,
        ensures
            match r {
                Some(fd) => {
                    &&& start <= fd
                    &&& (fd as int) < MAX_FDS
                    &&& self.fd(pid as int, fd as int).ftype == FdType::Unused
                    &&& forall|j: int| start <= j < fd ==> self.fd(pid as int, j).ftype != FdType::Unused
                },
                None => forall|j: int| start <= j < MAX_FDS ==> self.fd(pid as int, j).ftype != FdType::Unused,
            },
    {
        let mut fd = start;
        while fd < MAX_FDS as u32
            invariant
                self.wf(),
                (pid as int) < MAX_PROCS,
                start <= fd,
                forall|j: int| start <= j < fd ==> self.fd(pid as int, j).ftype != FdType::Unused,
            decreases MAX_FDS - fd,
        {
            if self.get_fd(pid, fd).ftype == FdType::Unused {
                return Some(fd);
            }
            fd = fd + 1;
        }
        None
    }

    /// The lowest unused descriptor number of the current process.
    pub fn alloc_fd(&self) -> (r: Option<u32>)
        requires
            self.wf(),
        ensures
            match r {
                Some(fd) => {
                    &&& (fd as int) < MAX_FDS
                    &&& self.fd(self.current_pid as int, fd as int).ftype == FdType::Unused
                    &&& forall|j: int| 0 <= j < fd ==> self.fd(self.current_pid as int, j).ftype != FdType::Unused
                },
                None => forall|j: int| 0 <= j < MAX_FDS ==> self.fd(self.current_pid as int, j).ftype != FdType::Unused,
            },
    {
        self.alloc_fd_for(self.current_pid, 0)
    }

    /// Closes descriptor `fd` of process `pid`: a file gives up its opened-file slot, a pipe
    /// end drops one reference (not below zero) and the pipe is released when neither end is
    /// referenced any more.
    pub fn close_fd_for(&mut self, pid: u32, fd: u32)
        requires
            old(self).wf(),
            (pid as int) < MAX_PROCS,
        ensures
            final(self).wf(),
            final(self).procs == old(self).procs,
            final(self).pipe_data == old(self).pipe_data,
            final(self).current_pid == old(self).current_pid,
            final(self).next_pid == old(self).next_pid,
            final(self).fs == old(self).fs,
            (fd as int) >= MAX_FDS ==> *final(self) == *old(self),
            (fd as int) < MAX_FDS ==> {
                let e = old(self).fd(pid as int, fd as int);
                &&& final(self).fdtable@ == old(self).fdtable@.update(fd_index(pid as int, fd as int), spec_fd_zero())
                &&& final(self).pipe_ctl@ == close_effect(old(self).pipe_ctl@, e)
                &&& (e.ftype == FdType::File && e.opened_idx != OPENED_NONE)
                    ==> final(self).opened_name(e.opened_idx as int) is None
                &&& forall|j: int| !(e.ftype == FdType::File && j == e.opened_idx)
                    ==> final(self).opened_name(j) == old(self).opened_name(j)
            },
    {
        if (fd as usize) >= MAX_FDS {
            return;
        }
        let idx = pid as usize * MAX_FDS + fd as usize;
        let e = self.fdtable[idx];
        match e.ftype {
            FdType::File => {
                self.opened_free(e.opened_idx);
            },
            FdType::PipeReader(id) => {
                let c = self.pipe_ctl[id as usize];
                self.pipe_ctl.set(id as usize, close_end_exec(c, true));
            },
            FdType::PipeWriter(id) => {
                let c = self.pipe_ctl[id as usize];
                self.pipe_ctl.set(id as usize, close_end_exec(c, false));
            },
            _ => {},
        }
        self.fdtable.set(idx, fd_zero());
    }

    // ------------------------------------------------------------ pipes

    /// Takes the first pipe not in use: one reader, one writer, empty, its buffer zeroed.
    pub fn alloc_pipe(&mut self) -> (r: Option<u16>)
        requires
            old(self).wf(),
        ensures
            final(self).wf(),
            final(self).procs == old(self).procs,
            final(self).fdtable == old(self).fdtable,
            final(self).opened == old(self).opened,
            final(self).current_pid == old(self).current_pid,
            final(self).next_pid == old(self).next_pid,
            final(self).fs == old(self).fs,
            match r {
                Some(id) => {
                    &&& (id as int) < MAX_PIPES
                    &&& !old(self).pipe_ctl@[id as int].in_use
                    &&& forall|j: int| 0 <= j < id ==> old(self).pipe_ctl@[j].in_use
                    &&& final(self).pipe_ctl@ == old(self).pipe_ctl@.update(id as int,
                        PipeBufCtl { in_use: true, start: 0, len: 0, readers: 1, writers: 1 })
                    &&& forall|k: int| 0 <= k < MAX_PIPES * PIPE_SIZE ==> #[trigger] final(self).pipe_data@[k] == (
                        if id * 4096 <= k < id * 4096 + 4096 { 0u8 } else { old(self).pipe_data@[k] })
                },
                None => {
                    &&& forall|j: int| 0 <= j < MAX_PIPES ==> old(self).pipe_ctl@[j].in_use
                    &&& *final(self) == *old(self)
                },
            },
    {
        let mut id: u16 = 0;
        while (id as usize) < MAX_PIPES
            invariant
                self.wf(),
                *self == *old(self),
                forall|j: int| 0 <= j < id ==> old(self).pipe_ctl@[j].in_use,
            decreases MAX_PIPES - id,
        {
            if !self.pipe_ctl[id as usize].in_use {
                self.pipe_ctl.set(id as usize, PipeBufCtl { in_use: true, start: 0, len: 0, readers: 1, writers: 1 });
                zero_block(&mut self.pipe_data, id as usize * PIPE_SIZE);
                return Some(id);
            }
            id = id + 1;
        }
        None
    }

    /// Takes up to `len` bytes out of pipe `id`, oldest first.
    pub fn pipe_read(&mut self, id: u16, len: u32) -> (r: Vec<u8>)
        requires
            old(self).wf(),
            (id as int) < MAX_PIPES,
        ensures
            final(self).wf(),
            final(self).procs == old(self).procs,
            final(self).fdtable == old(self).fdtable,
            final(self).opened == old(self).opened,
            final(self).pipe_data == old(self).pipe_data,
            final(self).current_pid == old(self).current_pid,
            final(self).next_pid == old(self).next_pid,
            final(self).fs == old(self).fs,
            r@.len() == min_int(len as int, old(self).pipe_ctl@[id as int].len as int),
            r@ == old(self).pipe_contents(id as int).subrange(0, r@.len() as int),
            final(self).pipe_contents(id as int) == old(self).pipe_contents(id as int).subrange(r@.len() as int,
                old(self).pipe_contents(id as int).len() as int),
            forall|j: int| 0 <= j < MAX_PIPES && j != id ==> final(self).pipe_ctl@[j] == old(self).pipe_ctl@[j],
            final(self).pipe_ctl@[id as int].in_use == old(self).pipe_ctl@[id as int].in_use,
            final(self).pipe_ctl@[id as int].readers == old(self).pipe_ctl@[id as int].readers,
            final(self).pipe_ctl@[id as int].writers == old(self).pipe_ctl@[id as int].writers,
    {
        let c = self.pipe_ctl[id as usize];
        let max_read = if len < c.len { len } else { c.len };
        let mut out: Vec<u8> = Vec::new();
        if max_read == 0 {
            assert(old(self).pipe_contents(id as int).subrange(0, 0) =~= Seq::<u8>::empty());
            assert(self.pipe_contents(id as int).subrange(0, self.pipe_contents(id as int).len() as int)
                =~= self.pipe_contents(id as int));
            return out;
        }
        let base = id as usize * PIPE_SIZE;
        let start = c.start as usize;
        let mut i: usize = 0;
        while i < max_read as usize
            invariant
                *self == *old(self),
                self.wf(),
                c == self.pipe_ctl@[id as int],
                (id as int) < MAX_PIPES,
                base == id * 4096,
                start == c.start,
                max_read <= c.len,
                i <= max_read,
                out@ == self.pipe_contents(id as int).subrange(0, i as int),
            decreases max_read - i,
        {
            let src = (start + i) % PIPE_SIZE;
            proof {
                lemma_mod_bound(start + i, 4096);
                assert(base + src < MAX_PIPES * PIPE_SIZE) by (nonlinear_arith)
                    requires base == id * 4096, id < 64, src < 4096;
            }
            out.push(self.pipe_data[base + src]);
            assert(out@ =~= self.pipe_contents(id as int).subrange(0, i + 1));
            i = i + 1;
        }
        let new_start = ((c.start + max_read) as usize % PIPE_SIZE) as u32;
        let ghost old_k = *self;
        self.pipe_ctl.set(id as usize, PipeBufCtl { start: new_start, len: c.len - max_read, ..c });
        proof {
            let oc = old_k.pipe_contents(id as int);
            let nc = self.pipe_contents(id as int);
            assert forall|k: int| 0 <= k < nc.len() implies nc[k] == oc[k + max_read] by {
                lemma_add_mod_noop(c.start + max_read, k, 4096);
                lemma_small_mod(k as nat, 4096);
                assert(((c.start + max_read) % 4096 + k) % 4096 == (c.start + (k + max_read)) % 4096);
            }
            assert(nc =~= oc.subrange(max_read as int, oc.len() as int));
        }
        out
    }

    /// Appends as much of `buf` to pipe `id` as there is room for and returns how many bytes
    /// went in; `-EPIPE` when the pipe has no reader, 0 when it is full.
    pub fn pipe_write(&mut self, id: u16, buf: &[u8]) -> (r: i32)
        requires
            old(self).wf(),
            (id as int) < MAX_PIPES,
            buf@.len() <= u32::MAX,
        ensures
            final(self).wf(),
            final(self).procs == old(self).procs,
            final(self).fdtable == old(self).fdtable,
            final(self).opened == old(self).opened,
            final(self).current_pid == old(self).current_pid,
            final(self).next_pid == old(self).next_pid,
            final(self).fs == old(self).fs,
            forall|j: int| 0 <= j < MAX_PIPES && j != id ==> final(self).pipe_ctl@[j] == old(self).pipe_ctl@[j],
            forall|j: int| 0 <= j < MAX_PIPES && j != id ==> final(self).pipe_contents(j) == old(self).pipe_contents(j),
            final(self).pipe_ctl@[id as int].in_use == old(self).pipe_ctl@[id as int].in_use,
            final(self).pipe_ctl@[id as int].readers == old(self).pipe_ctl@[id as int].readers,
            final(self).pipe_ctl@[id as int].writers == old(self).pipe_ctl@[id as int].writers,
            old(self).pipe_ctl@[id as int].readers == 0 ==> r == -abi::EPIPE && *final(self) == *old(self),
            old(self).pipe_ctl@[id as int].readers != 0 ==> {
                let n = min_int(buf@.len() as int, PIPE_SIZE - old(self).pipe_ctl@[id as int].len);
                &&& r == n
                &&& final(self).pipe_contents(id as int) == old(self).pipe_contents(id as int) + buf@.subrange(0, n)
            },
    {
        let c = self.pipe_ctl[id as usize];
        if c.readers == 0 {
            return -abi::EPIPE;
        }
        let space = PIPE_SIZE as u32 - c.len;
        if space == 0 {
            assert(buf@.subrange(0, 0) =~= Seq::<u8>::empty());
            assert(self.pipe_contents(id as int) + buf@.subrange(0, 0) =~= self.pipe_contents(id as int));
            return 0;
        }
        let n: usize = if (buf.len() as u32) < space { buf.len() } else { space as usize };
        let base = id as usize * PIPE_SIZE;
        let start = (c.start + c.len) as usize % PIPE_SIZE;
        let ghost oc = old(self).pipe_contents(id as int);
        let ghost want = oc + buf@.subrange(0, n as int);
        let mut i: usize = 0;
        while i < n
            invariant
                self.wf(),
                self.procs == old(self).procs,
                self.fdtable == old(self).fdtable,
                self.opened == old(self).opened,
                self.pipe_ctl == old(self).pipe_ctl,
                self.current_pid == old(self).current_pid,
                self.next_pid == old(self).next_pid,
                self.fs == old(self).fs,
                c == old(self).pipe_ctl@[id as int],
                oc == old(self).pipe_contents(id as int),
                want == oc + buf@.subrange(0, n as int),
                (id as int) < MAX_PIPES,
                base == id * 4096,
                start == (c.start + c.len) % 4096,
                c.start < 4096,
                c.len + n <= 4096,
                n <= buf@.len(),
                i <= n,
                forall|k: int| 0 <= k < c.len + i ==> #[trigger] self.pipe_data@[base + (c.start + k) % 4096] == want[k],
                forall|k: int| 0 <= k < MAX_PIPES * PIPE_SIZE && !(base <= k < base + 4096)
                    ==> #[trigger] self.pipe_data@[k] == old(self).pipe_data@[k],
            decreases n - i,
        {
            let dst = (start + i) % PIPE_SIZE;
            proof {
                lemma_mod_bound(start + i, 4096);
                assert(base + dst < MAX_PIPES * PIPE_SIZE) by (nonlinear_arith)
                    requires base == id * 4096, id < 64, dst < 4096;
                lemma_add_mod_noop(c.start + c.len, i as int, 4096);
                lemma_small_mod(i as nat, 4096);
                assert(dst == (c.start + (c.len + i)) % 4096);
            }
            let ghost before = self.pipe_data@;
            self.pipe_data.set(base + dst, buf[i]);
            proof {
                assert forall|k: int| 0 <= k < c.len + i + 1 implies
                    #[trigger] self.pipe_data@[base + (c.start + k) % 4096] == want[k] by {
                    lemma_mod_bound(c.start + k, 4096);
                    if k < c.len + i {
                        lemma_ring_distinct(c.start as int, k, c.len + i);
                        assert(before[base + (c.start + k) % 4096] == want[k]);
                    } else {
                        assert(want[k] == buf@[i as int]);
                    }
                }
            }
            i = i + 1;
        }
        self.pipe_ctl.set(id as usize, PipeBufCtl { len: c.len + n as u32, ..c });
        proof {
            let nc = self.pipe_contents(id as int);
            assert forall|k: int| 0 <= k < nc.len() implies nc[k] == want[k] by {
                assert(self.pipe_data@[base + (c.start + k) % 4096] == want[k]);
            }
            assert(nc =~= want);
            assert forall|j: int| 0 <= j < MAX_PIPES && j != id implies
                self.pipe_contents(j) == old(self).pipe_contents(j) by {
                let a = self.pipe_contents(j);
                let b = old(self).pipe_contents(j);
                assert forall|k: int| 0 <= k < a.len() implies a[k] == b[k] by {
                    let off = (self.pipe_ctl@[j].start + k) % 4096;
                    lemma_mod_bound(self.pipe_ctl@[j].start + k, 4096);
                    let pos = j * 4096 + off;
                    assert(0 <= pos < MAX_PIPES * PIPE_SIZE) by (nonlinear_arith)
                        requires pos == j * 4096 + off, 0 <= j < 64, 0 <= off < 4096;
                    assert(!(base <= pos < base + 4096)) by (nonlinear_arith)
                        requires pos == j * 4096 + off, base == id * 4096, j != id, 0 <= off < 4096;
                }
                assert(a =~= b);
            }
        }
        n as i32
    }

    /// Whether every pipe reference count can grow by one.
    pub open spec fn refs_bounded(&self) -> bool {
        forall|i: int| 0 <= i < MAX_PIPES ==> (#[trigger] self.pipe_ctl@[i]).readers < u32::MAX
            && self.pipe_ctl@[i].writers < u32::MAX
    }

    /// Counts one more reference to the pipe end that `e` names, if it names one.
    pub(crate) fn add_pipe_ref(&mut self, e: FdEntry)
        requires
            old(self).wf(),
            old(self).refs_bounded(),
            fd_pipe_ok(e),
        ensures
            final(self).wf(),
            final(self).procs == old(self).procs,
            final(self).fdtable == old(self).fdtable,
            final(self).opened == old(self).opened,
            final(self).pipe_data == old(self).pipe_data,
            final(self).current_pid == old(self).current_pid,
            final(self).next_pid == old(self).next_pid,
            final(self).fs == old(self).fs,
            final(self).pipe_ctl@ == add_ref(old(self).pipe_ctl@, e),
    {
        match e.ftype {
            FdType::PipeReader(id) => {
                let c = self.pipe_ctl[id as usize];
                self.pipe_ctl.set(id as usize, PipeBufCtl { readers: c.readers + 1, ..c });
            },
            FdType::PipeWriter(id) => {
                let c = self.pipe_ctl[id as usize];
                self.pipe_ctl.set(id as usize, PipeBufCtl { writers: c.writers + 1, ..c });
            },
            _ => {},
        }
    }

    // ------------------------------------------------------------ descriptor system calls

    /// `pipe`: makes a pipe and gives its two descriptors. Both numbers are the lowest free
    /// descriptor, which ends up as the write end: the read end is chosen before either end
    /// is installed. Errors: `-ENFILE` when no pipe or no descriptor is free.
    pub fn sys_pipe(&mut self) -> (r: (i32, Option<(u32, u32)>))
        requires
            old(self).wf(),
        ensures
            final(self).wf(),
            sys_pipe_post(*old(self), *final(self), r, false),
    {
        assert(0u32 & 0o2000000u32 == 0) by (bit_vector);
        self.sys_pipe2(0)
    }

    /// `pipe2`: like `pipe`, with `O_CLOEXEC` in `flags` marking both descriptors close-on-exec.
    #[verifier::rlimit(40)]
    pub fn sys_pipe2(&mut self, flags: u32) -> (r: (i32, Option<(u32, u32)>))
        requires
            old(self).wf(),
        ensures
            final(self).wf(),
            sys_pipe_post(*old(self), *final(self), r, flags & abi::O_CLOEXEC != 0),
    {
        let pipe_id = match self.alloc_pipe() {
            Some(id) => id,
            None => return (-abi::ENFILE, None),
        };
        let ghost m1 = *self;
        assert(forall|p: int, j: int| m1.fd(p, j) == old(self).fd(p, j));
        let read_fd = match self.alloc_fd() {
            Some(fd) => fd,
            None => {
                let c = self.pipe_ctl[pipe_id as usize];
                self.pipe_ctl.set(pipe_id as usize, PipeBufCtl { in_use: false, ..c });
                assert(!old(self).pipe_ctl@[pipe_id as int].in_use);
                assert forall|j: int| 0 <= j < MAX_FDS implies
                    old(self).fd(old(self).current_pid as int, j).ftype != FdType::Unused by {
                    assert(m1.fd(m1.current_pid as int, j) == old(self).fd(old(self).current_pid as int, j));
                }
                return (-abi::ENFILE, None);
            },
        };
        let write_fd = read_fd;
        let pid = self.current_pid;
        let cloexec = (flags & abi::O_CLOEXEC) != 0;
        let ghost mid = *self;
        self.set_fd(pid, read_fd, FdType::PipeReader(pipe_id), cloexec);
        self.set_fd(pid, write_fd, FdType::PipeWriter(pipe_id), cloexec);
        proof {
            let i = fd_index(pid as int, read_fd as int);
            assert(self.fdtable@ =~= old(self).fdtable@.update(i,
                FdEntry { ftype: FdType::PipeWriter(pipe_id), cloexec, file_offset: 0, opened_idx: OPENED_NONE }));
            assert(self.pipe_contents(pipe_id as int) =~= Seq::<u8>::empty());
            assert(mid.fdtable == old(self).fdtable);
        }
        let r = (0i32, Some((read_fd, write_fd)));
        let ghost o = *old(self);
        let ghost pidi = o.current_pid as int;
        assert(0 <= pipe_id < MAX_PIPES);
        assert(!o.pipe_ctl@[pipe_id as int].in_use);
        assert(forall|j: int| 0 <= j < pipe_id ==> o.pipe_ctl@[j].in_use);
        assert(o.fd(pidi, read_fd as int).ftype == FdType::Unused);
        assert forall|j: int| 0 <= j < read_fd implies o.fd(pidi, j).ftype != FdType::Unused by {
            assert(m1.fd(m1.current_pid as int, j) == o.fd(pidi, j));
        }
        assert(self.pipe_ctl@ == o.pipe_ctl@.update(pipe_id as int, PipeBufCtl { in_use: true, start: 0, len: 0, readers: 1, writers: 1 }));
        assert(self.fdtable@ == o.fdtable@.update(fd_index(pidi, read_fd as int),
            FdEntry { ftype: FdType::PipeWriter(pipe_id), cloexec, file_offset: 0, opened_idx: OPENED_NONE }));
        assert(self.pipe_contents(pipe_id as int) == Seq::<u8>::empty());
        assert(pipe_made(*old(self), *self, r, cloexec, pipe_id as int, read_fd as int));
        r
    }

    /// `dup`: copies descriptor `oldfd` to the lowest free number (close-on-exec cleared).
    /// Errors: `-EBADF` for a closed descriptor, `-EMFILE` when none is free.
    pub fn sys_dup(&mut self, oldfd: u32) -> (r: i32)
        requires
            old(self).wf(),
            old(self).refs_bounded(),
        ensures
            final(self).wf(),
            dup_post(*old(self), *final(self), oldfd, r),
    {
        let pid = self.current_pid;
        let entry = self.get_fd(pid, oldfd);
        if entry.ftype == FdType::Unused {
            return -abi::EBADF;
        }
        let newfd = match self.alloc_fd_for(pid, 0) {
            Some(fd) => fd,
            None => return -abi::EMFILE,
        };
        self.fdtable.set(pid as usize * MAX_FDS + newfd as usize, FdEntry { cloexec: false, ..entry });
        self.add_pipe_ref(entry);
        newfd as i32
    }

    /// `dup2`: makes `newfd` a copy of `oldfd`, closing what `newfd` held first; nothing
    /// happens when they are equal. Errors: `-EBADF` for a closed `oldfd` or an `newfd` past
    /// the table.
    pub fn sys_dup2(&mut self, oldfd: u32, newfd: u32) -> (r: i32)
        requires
            old(self).wf(),
            old(self).refs_bounded(),
        ensures
            final(self).wf(),
            dup2_post(*old(self), *final(self), oldfd, newfd, r),
    {
        if oldfd == newfd {
            return newfd as i32;
        }
        let pid = self.current_pid;
        let entry = self.get_fd(pid, oldfd);
        if entry.ftype == FdType::Unused {
            return -abi::EBADF;
        }
        if (newfd as usize) >= MAX_FDS {
            return -abi::EBADF;
        }
        let newentry = self.get_fd(pid, newfd);
        if newentry.ftype != FdType::Unused {
            self.close_fd_for(pid, newfd);
        }
        self.fdtable.set(pid as usize * MAX_FDS + newfd as usize, FdEntry { cloexec: false, ..entry });
        assert(self.refs_bounded()) by {
            assert forall|i: int| 0 <= i < MAX_PIPES implies (#[trigger] self.pipe_ctl@[i]).readers < u32::MAX
                && self.pipe_ctl@[i].writers < u32::MAX by {
                assert(old(self).pipe_ctl@[i].readers < u32::MAX);
            }
        }
        self.add_pipe_ref(entry);
        newfd as i32
    }

}

/// What recording `name` in the opened-file table does: slot `r` is the first empty one and
/// now holds `name`, or `r` is `OPENED_NONE`, every slot is taken and nothing changed.
pub open spec fn name_alloc_post(o: Kernel, f: Kernel, name: Seq<char>, r: u16) -> bool {
    &&& r != OPENED_NONE ==> {
        &&& (r as int) < MAX_OPENED
        &&& o.opened_name(r as int) is None
        &&& forall|j: int| 0 <= j < r ==> o.opened_name(j) is Some
        &&& f.opened_name(r as int) == Some(name)
        &&& forall|j: int| j != r ==> f.opened_name(j) == o.opened_name(j)
    }
    &&& r == OPENED_NONE ==> {
        &&& forall|j: int| 0 <= j < MAX_OPENED ==> o.opened_name(j) is Some
        &&& forall|j: int| f.opened_name(j) == o.opened_name(j)
    }
}

/// What `dup2` does, as a relation between the states before and after.
pub open spec fn dup2_post(o: Kernel, f: Kernel, oldfd: u32, newfd: u32, r: i32) -> bool {
    &&& f.procs == o.procs
    &&& f.pipe_data == o.pipe_data
    &&& f.current_pid == o.current_pid
    &&& f.fs == o.fs
    &&& {
                let pid = o.current_pid as int;
                let e = if (oldfd as int) < MAX_FDS { o.fd(pid, oldfd as int) } else { spec_fd_zero() };
                if oldfd == newfd {
                    r == newfd as i32 && f == o
                } else if e.ftype == FdType::Unused || (newfd as int) >= MAX_FDS {
                    r == -abi::EBADF && f == o
                } else {
                    let old_e = o.fd(pid, newfd as int);
                    &&& r == newfd as i32
                    &&& f.fd(pid, newfd as int) == FdEntry { cloexec: false, ..e }
                    &&& f.pipe_ctl@ == add_ref(close_effect(o.pipe_ctl@, old_e), e)
                    &&& (old_e.ftype == FdType::File && old_e.opened_idx != OPENED_NONE)
                        ==> f.opened_name(old_e.opened_idx as int) is None
                    &&& forall|j: int| !(old_e.ftype == FdType::File && j == old_e.opened_idx)
                        ==> f.opened_name(j) == o.opened_name(j)
                    &&& forall|i: int| 0 <= i < MAX_PROCS * MAX_FDS && i != fd_index(pid, newfd as int)
                        ==> f.fdtable@[i] == o.fdtable@[i]
                }
            }
}

/// The pipe table after closing descriptor `e`.
pub open spec fn close_effect(t: Seq<PipeBufCtl>, e: FdEntry) -> Seq<PipeBufCtl> {
    match e.ftype {
        FdType::PipeReader(id) => t.update(id as int, close_end(t[id as int], true)),
        FdType::PipeWriter(id) => t.update(id as int, close_end(t[id as int], false)),
        _ => t,
    }
}

/// The pipe table with one more reference to the pipe end that `e` names.
pub open spec fn add_ref(t: Seq<PipeBufCtl>, e: FdEntry) -> Seq<PipeBufCtl> {
    match e.ftype {
        FdType::PipeReader(id) => t.update(id as int, PipeBufCtl { readers: (t[id as int].readers + 1) as u32, ..t[id as int] }),
        FdType::PipeWriter(id) => t.update(id as int, PipeBufCtl { writers: (t[id as int].writers + 1) as u32, ..t[id as int] }),
        _ => t,
    }
}

/// What `pipe`/`pipe2` do, as a relation between the states before and after.
pub open spec fn sys_pipe_post(o: Kernel, f: Kernel, r: (i32, Option<(u32, u32)>), cloexec: bool) -> bool {
    let pid = o.current_pid as int;
    &&& f.procs == o.procs
    &&& f.current_pid == o.current_pid
    &&& f.next_pid == o.next_pid
    &&& f.fs == o.fs
    &&& if forall|j: int| 0 <= j < MAX_PIPES ==> o.pipe_ctl@[j].in_use {
        r.0 == -abi::ENFILE && r.1 is None && f == o
    } else if forall|j: int| 0 <= j < MAX_FDS ==> o.fd(pid, j).ftype != FdType::Unused {
        &&& r.0 == -abi::ENFILE && r.1 is None
        &&& f.fdtable == o.fdtable
    } else {
        exists|id: int, fd: int| #[trigger] pipe_made(o, f, r, cloexec, id, fd)
    }
}

/// A successful `pipe`: pipe `id` (the first free one) is taken, empty, with one reader and
/// one writer, and descriptor `fd` (the first free one) is its write end.
pub open spec fn pipe_made(o: Kernel, f: Kernel, r: (i32, Option<(u32, u32)>), cloexec: bool, id: int, fd: int) -> bool {
    let pid = o.current_pid as int;
    &&& 0 <= id < MAX_PIPES
    &&& !o.pipe_ctl@[id].in_use
    &&& (forall|j: int| 0 <= j < id ==> o.pipe_ctl@[j].in_use)
    &&& 0 <= fd < MAX_FDS
    &&& o.fd(pid, fd).ftype == FdType::Unused
    &&& (forall|j: int| 0 <= j < fd ==> o.fd(pid, j).ftype != FdType::Unused)
    &&& r.0 == 0 && r.1 == Some((fd as u32, fd as u32))
    &&& f.pipe_ctl@ == o.pipe_ctl@.update(id, PipeBufCtl { in_use: true, start: 0, len: 0, readers: 1, writers: 1 })
    &&& f.fdtable@ == o.fdtable@.update(fd_index(pid, fd),
        FdEntry { ftype: FdType::PipeWriter(id as u16), cloexec, file_offset: 0, opened_idx: OPENED_NONE })
    &&& f.pipe_contents(id) == Seq::<u8>::empty()
}

/// Two positions of a ring of 4096 bytes that are fewer than 4096 apart are different.
proof fn lemma_ring_distinct(s: int, a: int, b: int)
    requires
        0 <= a,
        0 <= b,
        a != b,
        a < b + 4096,
        b < a + 4096,
    ensures
        (s + a) % 4096 != (s + b) % 4096,
{
    lemma_fundamental_div_mod(s + a, 4096);
    lemma_fundamental_div_mod(s + b, 4096);
    lemma_mod_bound(s + a, 4096);
    lemma_mod_bound(s + b, 4096);
    if (s + a) % 4096 == (s + b) % 4096 {
        let qa = (s + a) / 4096;
        let qb = (s + b) / 4096;
        assert(a - b == 4096 * (qa - qb)) by (nonlinear_arith)
            requires s + a == 4096 * qa + (s + a) % 4096, s + b == 4096 * qb + (s + b) % 4096,
                (s + a) % 4096 == (s + b) % 4096;
        assert(false) by (nonlinear_arith)
            requires a - b == 4096 * (qa - qb), a != b, a < b + 4096, b < a + 4096;
    }
}

/// Offsets inside the 4096-byte blocks of two different pipes are different bytes.
proof fn lemma_block_distinct(i: int, j: int, x: int, y: int)
    requires
        i != j,
        0 <= x < 4096,
        0 <= y < 4096,
    ensures
        i * 4096 + x != j * 4096 + y,
{
    assert(i * 4096 + x != j * 4096 + y) by (nonlinear_arith)
        requires i != j, 0 <= x < 4096, 0 <= y < 4096;
}

/// Zeroes the 4096 bytes at `base`.
fn zero_block(data: &mut Vec<u8>, base: usize)
    requires
        base + 4096 <= old(data)@.len(),
    ensures
        final(data)@.len() == old(data)@.len(),
        forall|k: int| 0 <= k < old(data)@.len() ==> #[trigger] final(data)@[k] == (
            if base <= k < base + 4096 { 0u8 } else { old(data)@[k] }),
{
    let n = data.len();
    let mut i: usize = 0;
    while i < 4096
        invariant
            data@.len() == old(data)@.len(),
            n == data@.len(),
            base + 4096 <= n,
            i <= 4096,
            forall|k: int| 0 <= k < old(data)@.len() ==> #[trigger] data@[k] == (
                if base <= k < base + i { 0u8 } else { old(data)@[k] }),
        decreases 4096 - i,
    {
        data.set(base + i, 0u8);
        i = i + 1;
    }
}

/// A pipe control block with one reader (or writer) fewer, released when neither end remains.
pub open spec fn close_end(c: PipeBufCtl, reader: bool) -> PipeBufCtl {
    let readers = if reader { if c.readers > 0 { (c.readers - 1) as u32 } else { 0 } } else { c.readers };
    let writers = if !reader { if c.writers > 0 { (c.writers - 1) as u32 } else { 0 } } else { c.writers };
    PipeBufCtl {
        readers,
        writers,
        in_use: if readers == 0 && writers == 0 { false } else { c.in_use },
        ..c
    }
}

fn close_end_exec(c: PipeBufCtl, reader: bool) -> (r: PipeBufCtl)
    ensures
        r == close_end(c, reader),
{
    let mut d = c;
    if reader {
        d.readers = c.readers.saturating_sub(1);
    } else {
        d.writers = c.writers.saturating_sub(1);
    }
    if d.readers == 0 && d.writers == 0 {
        d.in_use = false;
    }
    d
}

pub open spec fn min_int(a: int, b: int) -> int {
    if a < b { a } else { b }
}


/// Bytes come out of a pipe in the order they went in: after a write that fits, a read of
/// at least everything waiting gives the bytes that were waiting, then the written ones,
/// and leaves the pipe empty.
pub proof fn law_pipe_write_then_read(k0: Kernel, k1: Kernel, k2: Kernel, id: int, w: Seq<u8>, len: int, r: Seq<u8>)
    requires
        k0.wf(),
        0 <= id < MAX_PIPES,
        k0.pipe_ctl@[id].readers != 0,
        k0.pipe_contents(id).len() + w.len() <= PIPE_SIZE,
        k1.pipe_contents(id) == k0.pipe_contents(id) + w.subrange(0,
            min_int(w.len() as int, PIPE_SIZE - k0.pipe_ctl@[id].len)),
        len >= k1.pipe_ctl@[id].len,
        r.len() == min_int(len, k1.pipe_ctl@[id].len as int),
        r == k1.pipe_contents(id).subrange(0, r.len() as int),
        k2.pipe_contents(id) == k1.pipe_contents(id).subrange(r.len() as int, k1.pipe_contents(id).len() as int),
    ensures
        r == k0.pipe_contents(id) + w,
        k2.pipe_contents(id).len() == 0,
{
    assert(w.subrange(0, w.len() as int) =~= w);
    assert(k1.pipe_contents(id).len() == k1.pipe_ctl@[id].len);
    assert(r =~= k1.pipe_contents(id));
}

} // verus!
