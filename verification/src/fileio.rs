//! System calls on descriptors: open, close, read, write, seek, descriptor control,
//! terminal control and directory listing.
use vstd::prelude::*;
use vstd::string::*;
use vstd::utf8::*;
use crate::abi;
use crate::kernel::{Kernel, FdType, FdEntry, MAX_FDS, MAX_PROCS, OPENED_NONE, fd_index, spec_fd_zero,
    add_ref, close_effect, dup2_post, opt_name, name_alloc_post};
use crate::ramfs::{FileSystem, FileInfo, first_zero_from, without, image_view};
use crate::usermem::{UserMem, le_bytes, le_bytes16, overwrite, push_le32};
use crate::syscalls::same_but_procs;
use crate::text::{push_char, str_eq};

verus! {

/// The characters of `s`, one per byte.
pub open spec fn latin1(s: Seq<u8>) -> Seq<char> {
    Seq::new(s.len(), |i: int| s[i] as char)
}

/// The bytes of the zero-terminated string at offset `off` of `m` (the zero left out).
pub open spec fn cstr(m: Seq<u8>, off: int) -> Seq<u8> {
    m.subrange(off, first_zero_from(m, off))
}

/// Whether a zero byte ends a string at offset `off` of `m`.
pub open spec fn cstr_ok(m: Seq<u8>, off: int) -> bool {
    0 <= off && first_zero_from(m, off) < m.len()
}

pub proof fn lemma_first_zero_bounds(m: Seq<u8>, off: int)
    requires
        0 <= off <= m.len(),
    ensures
        off <= first_zero_from(m, off) <= m.len(),
        forall|k: int| off <= k < first_zero_from(m, off) ==> m[k] != 0u8,
        first_zero_from(m, off) < m.len() ==> m[first_zero_from(m, off)] == 0u8,
    decreases m.len() - off,
{
    if off < m.len() && m[off] != 0u8 {
        lemma_first_zero_bounds(m, off + 1);
    }
}

/// The zero-terminated string at `addr`, one character per byte.
pub fn user_string(mem: &UserMem, addr: u32) -> (r: String)
    requires
        mem.base <= addr,
        cstr_ok(mem.bytes@, addr - mem.base),
    ensures
        r@ == latin1(cstr(mem.bytes@, addr - mem.base)),
{
    let off = (addr - mem.base) as usize;
    let ghost z = first_zero_from(mem.bytes@, off as int);
    proof { lemma_first_zero_bounds(mem.bytes@, off as int); }
    let n: usize = mem.bytes.len();
    let mut r = String::new();
    let mut i = off;
    while mem.bytes[i] != 0
        invariant
            n == mem.bytes@.len(),
            off <= i <= z,
            z < mem.bytes@.len(),
            z == first_zero_from(mem.bytes@, off as int),
            mem.bytes@[z] == 0u8,
            forall|k: int| off <= k < z ==> mem.bytes@[k] != 0u8,
            r@ == latin1(mem.bytes@.subrange(off as int, i as int)),
        decreases z - i,
    {
        let c = mem.bytes[i];
        push_char(&mut r, c as char);
        assert(latin1(mem.bytes@.subrange(off as int, i + 1)) =~= latin1(mem.bytes@.subrange(off as int, i as int)).push(c as char));
        i = i + 1;
    }
    r
}

/// What a read asks of the caller: it is done, or it must be served from the keyboard.
pub enum ReadOut {
    Done(u32),
    Keyboard,
}

/// What a write asks of the caller: it is done, or the text must be shown on the console
/// (the write then returns its length).
pub enum WriteOut {
    Done(u32),
    Console(Vec<u8>),
}

/// The result of `read` on a file of `data` at offset `off`: bytes copied and new offset.
pub open spec fn file_read_count(data: Seq<u8>, off: int, len: int) -> int {
    let avail = if data.len() > off { data.len() - off } else { 0 };
    if avail < len { avail } else { len }
}

/// Whether the line read from the keyboard so far is finished: it holds `len` keys or
/// its last key ends a line.
pub open spec fn line_done(keys: Seq<u8>, len: int) -> bool {
    keys.len() >= len || (keys.len() > 0 && (keys.last() == 0x0au8 || keys.last() == 0x0du8))
}

/// Whether a keyboard read of `len` bytes that has `keys` so far is finished.
pub fn stdin_done(keys: &[u8], len: u32) -> (r: bool)
    ensures
        r == line_done(keys@, len as int),
{
    let n = keys.len();
    if n >= len as usize {
        return true;
    }
    n > 0 && (keys[n - 1] == 0x0a || keys[n - 1] == 0x0d)
}

/// Stores the keys of a finished keyboard read at `buf` and returns how many there were.
pub fn stdin_store(mem: &mut UserMem, buf: u32, keys: &[u8]) -> (r: u32)
    requires
        keys@.len() <= u32::MAX,
        old(mem).contains(buf as int, keys@.len() as int),
    ensures
        r == keys@.len(),
        final(mem).base == old(mem).base,
        final(mem).bytes@ == overwrite(old(mem).bytes@, buf - old(mem).base, keys@),
{
    mem.write_bytes(buf, keys);
    keys.len() as u32
}

/// What `fcntl` does, as a relation between the states before and after.
pub open spec fn fcntl_post(o: Kernel, f: Kernel, fd: u32, cmd: u32, arg: u32, r: i32) -> bool {
    &&& f.procs == o.procs
    &&& f.opened == o.opened
    &&& f.pipe_data == o.pipe_data
    &&& f.current_pid == o.current_pid
    &&& f.fs == o.fs
    &&& {
                let pid = o.current_pid as int;
                let e = o.fd(pid, fd as int);
                let c = cmd as i32;
                if (fd as int) >= MAX_FDS || e.ftype == FdType::Unused {
                    r == -abi::EBADF && f == o
                } else if c == abi::F_GETFD {
                    r == (if e.cloexec { 1i32 } else { 0i32 }) && f == o
                } else if c == abi::F_SETFD {
                    &&& r == 0
                    &&& f.pipe_ctl == o.pipe_ctl
                    &&& f.fdtable@ == o.fdtable@.update(fd_index(pid, fd as int),
                        FdEntry { cloexec: arg & 1 != 0, ..e })
                } else if c == abi::F_GETFL {
                    r == 2 && f == o
                } else if c == abi::F_DUPFD {
                    let start = if arg > fd + 1 { arg as int } else { fd + 1 };
                    if forall|j: int| start <= j < MAX_FDS ==> o.fd(pid, j).ftype != FdType::Unused {
                        r == -abi::EMFILE && f == o
                    } else {
                        &&& start <= r < MAX_FDS
                        &&& o.fd(pid, r as int).ftype == FdType::Unused
                        &&& forall|j: int| start <= j < r ==> o.fd(pid, j).ftype != FdType::Unused
                        &&& f.fdtable@ == o.fdtable@.update(fd_index(pid, r as int),
                            FdEntry { cloexec: true, ..e })
                        &&& f.pipe_ctl@ == add_ref(o.pipe_ctl@, e)
                    }
                } else {
                    r == 0 && f == o
                }
    }
}

/// What `close` does.
pub open spec fn close_post(o: Kernel, f: Kernel, fd: u32, r: u32) -> bool {
    &&& ({
        let pid = o.current_pid as int;
        let e = if (fd as int) < MAX_FDS { o.fd(pid, fd as int) } else { spec_fd_zero() };
        if e.ftype == FdType::Unused {
            r == (-abi::EBADF) as u32 && f == o
        } else {
            &&& r == 0
            &&& f.procs == o.procs
            &&& f.pipe_data == o.pipe_data
            &&& f.current_pid == o.current_pid
            &&& f.fs == o.fs
            &&& f.fdtable@ == o.fdtable@.update(fd_index(pid, fd as int), spec_fd_zero())
            &&& f.pipe_ctl@ == close_effect(o.pipe_ctl@, e)
            &&& (e.ftype == FdType::File && e.opened_idx != OPENED_NONE)
                ==> f.opened_name(e.opened_idx as int) is None
            &&& forall|j: int| !(e.ftype == FdType::File && j == e.opened_idx)
                ==> f.opened_name(j) == o.opened_name(j)
        }
    })
}

impl Kernel {
    /// `close`. Error: `-EBADF` (as an unsigned value) for a closed descriptor.
    pub fn sys_close(&mut self, fd: u32) -> (r: u32)
        requires
            old(self).wf(),
        ensures
            final(self).wf(),
            close_post(*old(self), *final(self), fd, r),
    {
        let pid = self.current_pid;
        let entry = self.get_fd(pid, fd);
        if entry.ftype == FdType::Unused {
            return (-abi::EBADF) as u32;
        }
        self.close_fd_for(pid, fd);
        0
    }

    /// `fcntl`: `F_GETFD` tells close-on-exec, `F_SETFD` sets it from bit 0 of `arg`,
    /// `F_GETFL` answers read-write, `F_SETFL` is accepted, `F_DUPFD` copies the descriptor
    /// to the lowest free number at or above `max(arg, fd + 1)` with close-on-exec set;
    /// other commands answer 0. Errors: `-EBADF` for a closed descriptor, `-EMFILE` when
    /// `F_DUPFD` finds no free number.
    pub fn sys_fcntl(&mut self, fd: u32, cmd: u32, arg: u32) -> (r: i32)
        requires
            old(self).wf(),
            old(self).refs_bounded(),
        ensures
            final(self).wf(),
            fcntl_post(*old(self), *final(self), fd, cmd, arg, r),

    {
        let pid = self.current_pid;
        if (fd as usize) >= MAX_FDS {
            return -abi::EBADF;
        }
        let idx = pid as usize * MAX_FDS + fd as usize;
        let entry = self.fdtable[idx];
        if entry.ftype == FdType::Unused {
            return -abi::EBADF;
        }
        let c = cmd as i32;
        if c == abi::F_GETFD {
            if entry.cloexec { abi::FD_CLOEXEC as i32 } else { 0 }
        } else if c == abi::F_SETFD {
            self.fdtable.set(idx, FdEntry { cloexec: (arg & abi::FD_CLOEXEC) != 0, ..entry });
            0
        } else if c == abi::F_GETFL {
            2
        } else if c == abi::F_SETFL {
            0
        } else if c == abi::F_DUPFD {
            let start = if arg > fd + 1 { arg } else { fd + 1 };
            let newfd = match self.alloc_fd_for(pid, start) {
                Some(f) => f,
                None => return -abi::EMFILE,
            };
            self.fdtable.set(pid as usize * MAX_FDS + newfd as usize, FdEntry { cloexec: true, ..entry });
            self.add_pipe_ref(entry);
            newfd as i32
        } else {
            0
        }
    }

    /// `fcntl64`: the same as `fcntl`.
    pub fn sys_fcntl64(&mut self, fd: u32, cmd: u32, arg: u32) -> (r: i32)
        requires
            old(self).wf(),
            old(self).refs_bounded(),
        ensures
            final(self).wf(),
            fcntl_post(*old(self), *final(self), fd, cmd, arg, r),
    {
        self.sys_fcntl(fd, cmd, arg)
    }
}

/// The leading part of the `termios` record: input, output, control and local flags, then
/// two zero words.
pub open spec fn termios_head() -> Seq<u8> {
    le_bytes(abi::IGNBRK | abi::BRKINT | abi::ICRNL) + le_bytes(abi::OPOST) + le_bytes(abi::CS8 | abi::CREAD)
        + le_bytes(abi::ISIG | abi::ICANON | abi::ECHO | abi::ECHOE | abi::ECHOK) + le_bytes(0) + le_bytes(0)
}

/// What `TCGETS` leaves at offset `off` of `m`: the flag words, seventeen zero words from
/// word 8 on, then the control characters `VINTR`..`VMIN` and `VSTART`..`VSUSP` written as
/// bytes from the start of the record (over the flag words, as the kernel lays them).
pub open spec fn tcgets_image(m: Seq<u8>, off: int) -> Seq<u8> {
    let m1 = overwrite(m, off, termios_head());
    let m2 = overwrite(m1, off + 32, Seq::new(68, |i: int| 0u8));
    let m3 = overwrite(m2, off, seq![3u8, 28, 127, 21, 4, 0, 1]);
    overwrite(m3, off + 8, seq![17u8, 19, 26])
}

/// What `ioctl` does to the state and user memory.
pub open spec fn ioctl_post(k: Kernel, om: Seq<u8>, base: int, request: u32, argp: u32, r: i32, fm: Seq<u8>) -> bool {
    let off = argp - base;
    if request == abi::TCGETS {
        r == 0 && fm == (if argp == 0 { om } else { tcgets_image(om, off) })
    } else if request == abi::TCSETSW || request == abi::TCSETS || request == abi::TCSETSF
        || request == abi::TIOCSPGRP || request == abi::TIOCSCTTY || request == abi::TIOCNOTTY {
        r == 0 && fm == om
    } else if request == abi::TIOCGWINSZ {
        r == 0 && fm == (if argp == 0 { om } else {
            overwrite(om, off, le_bytes16(25) + le_bytes16(80) + le_bytes16(0) + le_bytes16(0)) })
    } else if request == abi::TIOCGPGRP {
        r == 0 && fm == (if argp == 0 { om } else { overwrite(om, off, le_bytes(k.cur().pgid)) })
    } else if request == abi::FIONREAD {
        r == 0 && fm == (if argp == 0 { om } else { overwrite(om, off, le_bytes(0)) })
    } else {
        r == -abi::ENOTTY && fm == om
    }
}

/// How many bytes at `argp` an `ioctl` writes.
pub open spec fn ioctl_span(request: u32) -> int {
    if request == abi::TCGETS { 100 }
    else if request == abi::TIOCGWINSZ { 8 }
    else if request == abi::TIOCGPGRP || request == abi::FIONREAD { 4 }
    else { 0 }
}

/// What `lseek` does.
pub open spec fn lseek_post(o: Kernel, f: Kernel, fd: u32, offset: u32, whence: u32, r: i32) -> bool {
    &&& ({
        let pid = o.current_pid as int;
        let e = if (fd as int) < MAX_FDS { o.fd(pid, fd as int) } else { spec_fd_zero() };
        let name = o.opened_name(e.opened_idx as int);
        if e.ftype != FdType::File {
            r == -abi::ESPIPE && f == o
        } else if e.opened_idx == OPENED_NONE || name is None {
            r == -abi::EBADF && f == o
        } else if whence > 2 {
            r == -abi::EINVAL && f == o
        } else {
            let size = match o.fs.lookup(name->0) { Some(d) => d.len() as u32, None => 0u32 };
            let target: u32 = if whence == 0 { offset }
                else if whence == 1 { e.file_offset.wrapping_add(offset) }
                else { size.wrapping_add(offset) };
            let new_off: u32 = if target < size { target } else { size };
            &&& r == new_off as i32
            &&& same_but_fds(o, f)
            &&& f.fdtable@ == o.fdtable@.update(fd_index(pid, fd as int),
                FdEntry { file_offset: new_off, ..e })
        }
    })
}

impl Kernel {
    /// `ioctl` on the terminal: `TCGETS` reports a canonical, echoing line discipline,
    /// `TIOCGWINSZ` a window of 25 rows by 80 columns, `TIOCGPGRP` the current group,
    /// `FIONREAD` no bytes waiting; the setting requests are accepted. Error: `-ENOTTY`
    /// for another request. The descriptor is not looked at.
    pub fn sys_ioctl(&self, mem: &mut UserMem, fd: u32, request: u32, argp: u32) -> (r: i32)
        requires
            self.wf(),
            argp != 0 ==> old(mem).contains(argp as int, ioctl_span(request)),
        ensures
            final(mem).base == old(mem).base,
            ioctl_post(*self, old(mem).bytes@, old(mem).base as int, request, argp, r, final(mem).bytes@),
    {
        if request == abi::TCGETS {
            if argp == 0 {
                return 0;
            }
            let mut head: Vec<u8> = Vec::new();
            push_le32(&mut head, abi::IGNBRK | abi::BRKINT | abi::ICRNL);
            push_le32(&mut head, abi::OPOST);
            push_le32(&mut head, abi::CS8 | abi::CREAD);
            push_le32(&mut head, abi::ISIG | abi::ICANON | abi::ECHO | abi::ECHOE | abi::ECHOK);
            push_le32(&mut head, 0);
            push_le32(&mut head, 0);
            assert(head@ =~= termios_head());
            mem.write_bytes(argp, head.as_slice());
            let mut zeros: Vec<u8> = Vec::new();
            let mut i: usize = 0;
            while i < 68
                invariant
                    i <= 68,
                    zeros@ == Seq::new(i as nat, |k: int| 0u8),
                decreases 68 - i,
            {
                zeros.push(0u8);
                assert(zeros@ =~= Seq::new((i + 1) as nat, |k: int| 0u8));
                i = i + 1;
            }
            mem.write_bytes(argp + 32, zeros.as_slice());
            mem.write_bytes(argp, &[3u8, 28, 127, 21, 4, 0, 1]);
            mem.write_bytes(argp + 8, &[17u8, 19, 26]);
            0
        } else if request == abi::TCSETSW || request == abi::TCSETS || request == abi::TCSETSF {
            0
        } else if request == abi::TIOCGWINSZ {
            if argp != 0 {
                mem.write_u16(argp, 25);
                mem.write_u16(argp + 2, 80);
                mem.write_u16(argp + 4, 0);
                mem.write_u16(argp + 6, 0);
                assert(mem.bytes@ =~= overwrite(old(mem).bytes@, argp - old(mem).base,
                    le_bytes16(25) + le_bytes16(80) + le_bytes16(0) + le_bytes16(0)));
            }
            0
        } else if request == abi::TIOCGPGRP {
            if argp != 0 {
                mem.write_u32(argp, self.procs[self.current_pid as usize].pgid);
            }
            0
        } else if request == abi::TIOCSPGRP || request == abi::TIOCSCTTY || request == abi::TIOCNOTTY {
            0
        } else if request == abi::FIONREAD {
            if argp != 0 {
                mem.write_u32(argp, 0);
            }
            0
        } else {
            -abi::ENOTTY
        }
    }

    /// `lseek` on a file: to `offset` (`whence` 0), the current offset plus `offset` (1) or
    /// the size plus `offset` (2), wrapping, and never past the end; returns the new offset.
    /// Errors: `-ESPIPE` for a descriptor that is not a file, `-EBADF` for a file whose name
    /// is gone, `-EINVAL` for another `whence`.
    pub fn sys_lseek(&mut self, fd: u32, offset: u32, whence: u32) -> (r: i32)
        requires
            old(self).wf(),
        ensures
            final(self).wf(),
            lseek_post(*old(self), *final(self), fd, offset, whence, r),
    {
        let pid = self.current_pid;
        let entry = self.get_fd(pid, fd);
        match entry.ftype {
            FdType::File => {
                let name = match self.opened_get_name(entry.opened_idx) {
                    Some(n) => n,
                    None => return -abi::EBADF,
                };
                let size: u32 = match self.fs.file_read(name.as_str()) {
                    Some(d) => d.len() as u32,
                    None => 0,
                };
                let idx = pid as usize * MAX_FDS + fd as usize;
                let target: u32 = if whence == 0 {
                    offset
                } else if whence == 1 {
                    self.fdtable[idx].file_offset.wrapping_add(offset)
                } else if whence == 2 {
                    size.wrapping_add(offset)
                } else {
                    return -abi::EINVAL;
                };
                let new_off: u32 = if target < size { target } else { size };
                self.fdtable.set(idx, FdEntry { file_offset: new_off, ..entry });
                new_off as i32
            },
            _ => -abi::ESPIPE,
        }
    }
}

/// How many bytes of user memory a `read` of `len` bytes on `fd` writes.
pub open spec fn read_span(k: Kernel, fd: u32, len: u32) -> int {
    let e = if (fd as int) < MAX_FDS { k.fd(k.current_pid as int, fd as int) } else { spec_fd_zero() };
    match e.ftype {
        FdType::PipeReader(id) => if len < k.pipe_ctl@[id as int].len { len as int } else { k.pipe_ctl@[id as int].len as int },
        FdType::File => match k.opened_name(e.opened_idx as int) {
            Some(n) => match k.fs.lookup(n) {
                Some(d) => file_read_count(d, e.file_offset as int, len as int),
                None => 0,
            },
            None => 0,
        },
        _ => 0,
    }
}

/// How many bytes of user memory a `write` of `len` bytes on `fd` reads.
pub open spec fn write_span(k: Kernel, fd: u32, len: u32) -> int {
    let e = if (fd as int) < MAX_FDS { k.fd(k.current_pid as int, fd as int) } else { spec_fd_zero() };
    match e.ftype {
        FdType::Stdout | FdType::Stderr => len as int,
        FdType::PipeWriter(id) => {
            let c = k.pipe_ctl@[id as int];
            if c.readers == 0 { 0 } else if len < 4096 - c.len { len as int } else { 4096 - c.len }
        },
        FdType::File => if e.opened_idx != OPENED_NONE && k.opened_name(e.opened_idx as int) is Some { len as int } else { 0 },
        _ => 0,
    }
}

/// The text that `write` shows for `bytes`: their UTF-8 text, or `<bin>` when they are not
/// UTF-8.
pub fn console_text(bytes: &[u8]) -> (r: String)
    ensures
        valid_utf8(bytes@) ==> r@ == decode_utf8(bytes@),
        !valid_utf8(bytes@) ==> r@ == "<bin>"@,
{
    match crate::ramfs::str_from_utf8(bytes) {
        Some(s) => s.to_string(),
        None => "<bin>".to_string(),
    }
}

/// What `read` does.
pub open spec fn read_post(o: Kernel, f: Kernel, om: UserMem, fm: UserMem, fd: u32, buf: u32, len: u32, r: ReadOut) -> bool {
    &&& ({
        let pid = o.current_pid as int;
        let e = if (fd as int) < MAX_FDS { o.fd(pid, fd as int) } else { spec_fd_zero() };
        match e.ftype {
            FdType::Stdin => r is Keyboard && f == o && fm.bytes@ == om.bytes@,
            FdType::PipeReader(id) => {
                let n = read_span(o, fd, len);
                &&& r == ReadOut::Done(n as u32)
                &&& fm.bytes@ == overwrite(om.bytes@, buf - om.base,
                    o.pipe_contents(id as int).subrange(0, n))
                &&& f.pipe_contents(id as int) == o.pipe_contents(id as int).subrange(n,
                    o.pipe_contents(id as int).len() as int)
                &&& f.procs == o.procs
                &&& f.fdtable == o.fdtable
                &&& f.opened == o.opened
                &&& f.fs == o.fs
                &&& forall|j: int| 0 <= j < 64 && j != id ==> f.pipe_ctl@[j] == o.pipe_ctl@[j]
            },
            FdType::File => match o.opened_name(e.opened_idx as int) {
                None => r == ReadOut::Done((-abi::EBADF) as u32) && f == o
                    && fm.bytes@ == om.bytes@,
                Some(name) => match o.fs.lookup(name) {
                    None => r == ReadOut::Done((-abi::ENOENT) as u32) && f == o
                        && fm.bytes@ == om.bytes@,
                    Some(d) => {
                        let n = file_read_count(d, e.file_offset as int, len as int);
                        &&& r == ReadOut::Done(n as u32)
                        &&& fm.bytes@ == (if n > 0 { overwrite(om.bytes@, buf - om.base,
                            d.subrange(e.file_offset as int, e.file_offset + n)) } else { om.bytes@ })
                        &&& same_but_fds(o, f)
                        &&& f.fdtable@ == o.fdtable@.update(fd_index(pid, fd as int),
                            FdEntry { file_offset: (e.file_offset + n) as u32, ..e })
                    },
                },
            },
            _ => r == ReadOut::Done((-abi::EBADF) as u32) && f == o
                && fm.bytes@ == om.bytes@,
        }
    })
}

/// What `write` does.
pub open spec fn write_post(o: Kernel, f: Kernel, m: UserMem, fd: u32, buf: u32, len: u32, r: WriteOut) -> bool {
    &&& ({
        let pid = o.current_pid as int;
        let e = if (fd as int) < MAX_FDS { o.fd(pid, fd as int) } else { spec_fd_zero() };
        match e.ftype {
            FdType::Stdout | FdType::Stderr => f == o
                && (r matches WriteOut::Console(t) && t@ == m.range(buf as int, len as int)),
            FdType::PipeWriter(id) => {
                let c = o.pipe_ctl@[id as int];
                let n = write_span(o, fd, len);
                &&& f.procs == o.procs
                &&& f.fdtable == o.fdtable
                &&& f.opened == o.opened
                &&& f.fs == o.fs
                &&& forall|j: int| 0 <= j < 64 && j != id ==> f.pipe_ctl@[j] == o.pipe_ctl@[j]
                &&& forall|j: int| 0 <= j < 64 && j != id ==> f.pipe_contents(j) == o.pipe_contents(j)
                &&& if c.readers == 0 {
                    r == WriteOut::Done((-abi::EPIPE) as u32) && f == o
                } else {
                    &&& r == WriteOut::Done(n as u32)
                    &&& f.pipe_contents(id as int) == o.pipe_contents(id as int)
                        + m.range(buf as int, n)
                }
            },
            FdType::File => if e.opened_idx != OPENED_NONE && o.opened_name(e.opened_idx as int) is Some {
                let name = o.opened_name(e.opened_idx as int)->0;
                &&& r == WriteOut::Done(len)
                &&& f.fs.files == o.fs.files
                &&& f.fs.ram_files is Some
                &&& f.fs.ram() == without(o.fs.ram(), name).push((name, m.range(buf as int, len as int)))
                &&& f.procs == o.procs
                &&& f.fdtable == o.fdtable
                &&& f.pipe_ctl == o.pipe_ctl
                &&& f.pipe_data == o.pipe_data
                &&& f.opened == o.opened
                &&& f.current_pid == o.current_pid
            } else {
                r == WriteOut::Done((-abi::EBADF) as u32) && f == o
            },
            _ => r == WriteOut::Done((-abi::EBADF) as u32) && f == o,
        }
    })
}

impl Kernel {
    /// `read`: from a pipe, up to `len` waiting bytes; from a file, up to `len` bytes at its
    /// offset, which moves past them; from standard input the caller reads the keyboard.
    /// Errors (as unsigned values): `-EBADF` for another descriptor or a file whose name is
    /// gone, `-ENOENT` for a file that no longer exists.
    pub fn sys_read(&mut self, mem: &mut UserMem, fd: u32, buf: u32, len: u32) -> (r: ReadOut)
        requires
            old(self).wf(),
            old(mem).contains(buf as int, read_span(*old(self), fd, len)),
            forall|n: Seq<char>| #[trigger] old(self).fs.lookup(n) matches Some(d) ==> d.len() <= u32::MAX,
        ensures
            final(self).wf(),
            final(mem).base == old(mem).base,
            read_post(*old(self), *final(self), *old(mem), *final(mem), fd, buf, len, r),
    {
        let pid = self.current_pid;
        let entry = self.get_fd(pid, fd);
        match entry.ftype {
            FdType::Stdin => ReadOut::Keyboard,
            FdType::PipeReader(id) => {
                let data = self.pipe_read(id, len);
                mem.write_bytes(buf, data.as_slice());
                ReadOut::Done(data.len() as u32)
            },
            FdType::File => {
                let name = match self.opened_get_name(entry.opened_idx) {
                    Some(n) => n,
                    None => return ReadOut::Done((-abi::EBADF) as u32),
                };
                let off = entry.file_offset as usize;
                let copy_len: usize = match self.fs.file_read(name.as_str()) {
                    Some(data) => {
                        let avail: usize = if data.len() > off { data.len() - off } else { 0 };
                        let copy_len: usize = if avail < len as usize { avail } else { len as usize };
                        if copy_len > 0 {
                            mem.write_from(buf, data, off, copy_len);
                        }
                        copy_len
                    },
                    None => return ReadOut::Done((-abi::ENOENT) as u32),
                };
                let idx = pid as usize * MAX_FDS + fd as usize;
                self.fdtable.set(idx, FdEntry { file_offset: (off + copy_len) as u32, ..entry });
                ReadOut::Done(copy_len as u32)
            },
            _ => ReadOut::Done((-abi::EBADF) as u32),
        }
    }

    /// `write`: to standard output or error the caller shows the text and the call returns
    /// `len`; to a pipe, as much as fits; to a file, its contents become the bytes written.
    /// Errors (as unsigned values): `-EBADF` for another descriptor or a file whose name is
    /// gone, `-EPIPE` for a pipe without readers.
    pub fn sys_write(&mut self, mem: &UserMem, fd: u32, buf: u32, len: u32) -> (r: WriteOut)
        requires
            old(self).wf(),
            mem.contains(buf as int, write_span(*old(self), fd, len)),
        ensures
            final(self).wf(),
            write_post(*old(self), *final(self), *mem, fd, buf, len, r),
    {
        let pid = self.current_pid;
        let entry = self.get_fd(pid, fd);
        match entry.ftype {
            FdType::Stdout | FdType::Stderr => WriteOut::Console(mem.read_bytes(buf, len)),
            FdType::PipeWriter(id) => {
                let c = self.pipe_ctl[id as usize];
                if c.readers == 0 {
                    return WriteOut::Done((-abi::EPIPE) as u32);
                }
                let space = 4096 - c.len;
                let n: u32 = if len < space { len } else { space };
                let data = mem.read_bytes(buf, n);
                assert(data@.subrange(0, n as int) =~= data@);
                let w = self.pipe_write(id, data.as_slice());
                WriteOut::Done(w as u32)
            },
            FdType::File => {
                let name = match self.opened_get_name(entry.opened_idx) {
                    Some(n) => n,
                    None => return WriteOut::Done((-abi::EBADF) as u32),
                };
                let data = mem.read_bytes(buf, len);
                self.fs.file_write(name.as_str(), data.as_slice());
                WriteOut::Done(len)
            },
            _ => WriteOut::Done((-abi::EBADF) as u32),
        }
    }
}

/// Whether no descriptor of process `pid` is free.
pub open spec fn fds_full(k: Kernel, pid: int) -> bool {
    forall|j: int| 0 <= j < MAX_FDS ==> k.fd(pid, j).ftype != FdType::Unused
}

/// Whether `fd` is the lowest free descriptor of process `pid`.
pub open spec fn lowest_free_fd(k: Kernel, pid: int, fd: int) -> bool {
    &&& 0 <= fd < MAX_FDS
    &&& k.fd(pid, fd).ftype == FdType::Unused
    &&& forall|j: int| 0 <= j < fd ==> k.fd(pid, j).ftype != FdType::Unused
}

/// What `open` of `name` with `flags` does.
pub open spec fn open_post(o: Kernel, f: Kernel, name: Seq<char>, flags: u32, r: u32) -> bool {
    let pid = o.current_pid as int;
    if name.len() == 0 {
        r == (-abi::ENOENT) as u32 && f == o
    } else if name == "/dev/tty"@ || name == "/dev/console"@ {
        dup2_post(o, f, 1, 0, r as i32)
    } else if name == "/dev/null"@ || name == "/dev/zero"@ {
        if fds_full(o, pid) {
            r == (-abi::EMFILE) as u32 && f == o
        } else {
            &&& lowest_free_fd(o, pid, r as int)
            &&& same_but_fds(o, f)
            &&& f.fdtable@ == o.fdtable@.update(fd_index(pid, r as int), FdEntry {
                ftype: if name == "/dev/null"@ { FdType::Stdout } else { FdType::Stdin },
                cloexec: false, file_offset: 0, opened_idx: OPENED_NONE })
        }
    } else if o.fs.lookup(name) is Some || flags & abi::O_CREAT != 0 {
        if fds_full(o, pid) {
            r == (-abi::EMFILE) as u32 && f == o
        } else {
            let e = f.fd(pid, r as int);
            &&& lowest_free_fd(o, pid, r as int)
            &&& f.fdtable@ == o.fdtable@.update(fd_index(pid, r as int), e)
            &&& e.ftype == FdType::File && !e.cloexec && e.file_offset == 0
            &&& name_alloc_post(o, f, name, e.opened_idx)
            &&& f.procs == o.procs
            &&& f.pipe_ctl == o.pipe_ctl
            &&& f.pipe_data == o.pipe_data
            &&& f.current_pid == o.current_pid
            &&& f.next_pid == o.next_pid
            &&& if flags & abi::O_TRUNC != 0 {
                &&& f.fs.files == o.fs.files
                &&& f.fs.ram_files is Some
                &&& f.fs.ram() == without(o.fs.ram(), name).push((name, Seq::<u8>::empty()))
            } else {
                f.fs == o.fs
            }
        }
    } else {
        r == (-abi::ENOENT) as u32 && f == o
    }
}

impl Kernel {
    /// `open` of the zero-terminated path at `pathname`: `/dev/tty` and `/dev/console`
    /// make descriptor 0 a copy of 1, `/dev/null` and `/dev/zero` take a free descriptor as
    /// an output or input sink, and a file that exists (or any, with `O_CREAT`) takes a
    /// free descriptor and an opened-file slot, emptied with `O_TRUNC`. Returns the
    /// descriptor. Errors (as unsigned values): `-ENOENT` for an empty path or a missing
    /// file, `-EMFILE` when no descriptor is free.
    pub fn sys_open(&mut self, mem: &UserMem, pathname: u32, flags: u32, mode: u32) -> (r: u32)
        requires
            old(self).wf(),
            old(self).refs_bounded(),
            mem.base <= pathname,
            cstr_ok(mem.bytes@, pathname - mem.base),
        ensures
            final(self).wf(),
            open_post(*old(self), *final(self), latin1(cstr(mem.bytes@, pathname - mem.base)), flags, r),
    {
        let name = user_string(mem, pathname);
        if name.unicode_len() == 0 {
            return (-abi::ENOENT) as u32;
        }
        let pid = self.current_pid;
        if str_eq(name.as_str(), "/dev/tty") || str_eq(name.as_str(), "/dev/console") {
            let x = self.sys_dup2(1, 0);
            assert((x as u32) as i32 == x) by (bit_vector);
            return x as u32;
        }
        let is_null = str_eq(name.as_str(), "/dev/null");
        if is_null || str_eq(name.as_str(), "/dev/zero") {
            let fd = match self.alloc_fd() {
                Some(f) => f,
                None => return (-abi::EMFILE) as u32,
            };
            self.set_fd(pid, fd, if is_null { FdType::Stdout } else { FdType::Stdin }, false);
            return fd;
        }
        let present = self.fs.file_exists(name.as_str());
        if present || (flags & abi::O_CREAT) != 0 {
            let fd = match self.alloc_fd() {
                Some(f) => f,
                None => return (-abi::EMFILE) as u32,
            };
            let opened_idx = self.opened_alloc(name.as_str());
            let ghost mid = *self;
            self.fdtable.set(pid as usize * MAX_FDS + fd as usize,
                FdEntry { ftype: FdType::File, cloexec: false, file_offset: 0, opened_idx });
            if (flags & abi::O_TRUNC) != 0 {
                let empty: [u8; 0] = [];
                self.fs.file_write(name.as_str(), &empty);
                assert(empty@ =~= Seq::<u8>::empty());
            }
            assert forall|j: int| self.opened_name(j) == mid.opened_name(j) by {}
            assert(name_alloc_post(*old(self), *self, name@, opened_idx));
            return fd;
        }
        (-abi::ENOENT) as u32
    }
}

/// The directory record of image file number `i` (counting from 0): inode `i + 1`, offset
/// 0, record length, type 0, the name and a terminating zero.
pub open spec fn dent_record(i: int, name: Seq<u8>) -> Seq<u8> {
    let ino = (i + 1) as u64;
    le_bytes(ino as u32) + le_bytes((ino >> 32) as u32) + le_bytes(0) + le_bytes(0)
        + le_bytes16((25 + name.len()) as u16) + seq![0u8] + name + seq![0u8]
}

/// User memory `m` after the records of image files `i..` are laid out from offset `w` of
/// the buffer at `off`, each `25 + name length` bytes apart, while they fit in `count`
/// bytes; with the number of bytes used.
pub open spec fn dents(m: Seq<u8>, off: int, files: Seq<FileInfo>, i: int, w: int, count: int) -> (Seq<u8>, int)
    decreases files.len() - i,
{
    if i < 0 || i >= files.len() {
        (m, w)
    } else {
        let nb = encode_utf8(files[i].name@);
        if w + 25 + nb.len() > count {
            (m, w)
        } else {
            dents(overwrite(m, off + w, dent_record(i, nb)), off, files, i + 1, w + 25 + nb.len(), count)
        }
    }
}

/// What `getdents` does.
pub open spec fn getdents_post(k: Kernel, om: UserMem, fm: UserMem, fd: u32, dent: u32, count: u32, r: i32) -> bool {
    &&& fd != 0 ==> r == -abi::EBADF && fm.bytes@ == om.bytes@
    &&& fd == 0 && k.fs.files is None ==> r == 0 && fm.bytes@ == om.bytes@
    &&& fd == 0 && k.fs.files is Some ==> {
        let res = dents(om.bytes@, dent - om.base, k.fs.files->0@, 0, 0, count as int);
        fm.bytes@ == res.0 && r == res.1 as i32
    }
}

impl Kernel {
    /// `getdents` on descriptor 0 (the root directory): the records of the image files, as
    /// many as fit in `count` bytes; returns the bytes used. Error: `-EBADF` for another
    /// descriptor.
    pub fn sys_getdents(&self, mem: &mut UserMem, fd: u32, dent: u32, count: u32) -> (r: i32)
        requires
            fd == 0 && self.fs.files is Some ==> old(mem).contains(dent as int, count as int),
        ensures
            final(mem).base == old(mem).base,
            getdents_post(*self, *old(mem), *final(mem), fd, dent, count, r),
    {
        if fd != 0 {
            return -abi::EBADF;
        }
        let files = match &self.fs.files {
            Some(f) => f,
            None => return 0,
        };
        let ghost off = dent - mem.base;
        let n = files.len();
        let mut written: u32 = 0;
        let mut i: usize = 0;
        let mut stop = false;
        while i < n && !stop
            invariant
                n == files@.len(),
                i <= n,
                written <= count,
                mem.base == old(mem).base,
                mem.bytes@.len() == old(mem).bytes@.len(),
                old(mem).contains(dent as int, count as int),
                off == dent - old(mem).base,
                dents(old(mem).bytes@, off, files@, 0, 0, count as int)
                    == dents(mem.bytes@, off, files@, i as int, written as int, count as int),
                stop ==> dents(mem.bytes@, off, files@, i as int, written as int, count as int) == (mem.bytes@, written as int),
            decreases n - i, (if stop { 0int } else { 1int }),
        {
            let nb = files[i].name.as_str().as_bytes();
            let nlen = nb.len();
            if nlen as u64 > count as u64 || written as u64 + 25 + nlen as u64 > count as u64 {
                stop = true;
            } else {
                let reclen: u32 = 25 + nlen as u32;
                let mut rec: Vec<u8> = Vec::new();
                let ino: u64 = i as u64 + 1;
                push_le32(&mut rec, ino as u32);
                push_le32(&mut rec, (ino >> 32) as u32);
                push_le32(&mut rec, 0);
                push_le32(&mut rec, 0);
                rec.push((reclen & 0xff) as u8);
                rec.push(((reclen >> 8) & 0xff) as u8);
                rec.push(0u8);
                proof {
                    assert(((reclen as u16) & 0xff) as u8 == (reclen & 0xff) as u8
                        && (((reclen as u16) >> 8) & 0xff) as u8 == ((reclen >> 8) & 0xff) as u8) by (bit_vector);
                    assert(rec@.subrange(0, 19) =~= le_bytes(ino as u32) + le_bytes((ino >> 32) as u32) + le_bytes(0) + le_bytes(0)
                        + le_bytes16(reclen as u16) + seq![0u8]);
                }
                let mut k: usize = 0;
                while k < nlen
                    invariant
                        nlen == nb@.len(),
                        k <= nlen,
                        rec@.len() == 19 + k,
                        rec@.subrange(19, 19 + k as int) == nb@.subrange(0, k as int),
                        rec@.subrange(0, 19) == le_bytes(ino as u32) + le_bytes((ino >> 32) as u32) + le_bytes(0) + le_bytes(0)
                            + le_bytes16(reclen as u16) + seq![0u8],
                    decreases nlen - k,
                {
                    let ghost before = rec@;
                    rec.push(nb[k]);
                    assert(rec@.subrange(19, 19 + k + 1) =~= before.subrange(19, 19 + k as int).push(nb@[k as int]));
                    assert(rec@.subrange(0, 19) =~= before.subrange(0, 19));
                    k = k + 1;
                }
                assert(rec@.subrange(19, 19 + nlen as int) =~= nb@);
                let ghost r1 = rec@;
                rec.push(0u8);
                proof {
                    assert(r1 =~= r1.subrange(0, 19) + r1.subrange(19, 19 + nlen as int));
                    assert(rec@ =~= dent_record(i as int, nb@));
                }
                mem.write_bytes(dent + written, rec.as_slice());
                written = written + reclen;
                i = i + 1;
            }
        }
        written as i32
    }
}

/// What `getdents64` does.
pub open spec fn getdents64_post(k: Kernel, om: UserMem, fm: UserMem, fd: u32, dent: u32, count: u32, r: i32) -> bool {
    &&& fd != 0 ==> r == -abi::EBADF && fm.bytes@ == om.bytes@
    &&& fd == 0 && k.fs.files is None ==> r == 0 && fm.bytes@ == om.bytes@
    &&& fd == 0 && k.fs.files is Some ==> {
        let res = dents(om.bytes@, dent - om.base, k.fs.files->0@, 0, 0, count as int);
        fm.bytes@ == res.0 && r == res.1 as i32
    }
}

impl Kernel {
    /// `getdents64`: the same records as `getdents`.
    pub fn sys_getdents64(&self, mem: &mut UserMem, fd: u32, dent: u32, count: u32) -> (r: i32)
        requires
            fd == 0 && self.fs.files is Some ==> old(mem).contains(dent as int, count as int),
        ensures
            final(mem).base == old(mem).base,
            getdents64_post(*self, *old(mem), *final(mem), fd, dent, count, r),
    {
        self.sys_getdents(mem, fd, dent, count)
    }
}

/// A `stat` record: 88 zero bytes with `mode` as its fifth word.
pub open spec fn stat_record(mode: u32) -> Seq<u8> {
    overwrite(Seq::new(88, |i: int| 0u8), 16, le_bytes(mode))
}

fn write_stat(mem: &mut UserMem, at: u32, mode: u32)
    requires
        old(mem).contains(at as int, 88),
    ensures
        final(mem).base == old(mem).base,
        final(mem).bytes@ == overwrite(old(mem).bytes@, at - old(mem).base, stat_record(mode)),
{
    let mut rec: Vec<u8> = Vec::new();
    let mut i: usize = 0;
    while i < 16
        invariant
            i <= 16,
            rec@ == Seq::new(i as nat, |k: int| 0u8),
        decreases 16 - i,
    {
        rec.push(0u8);
        assert(rec@ =~= Seq::new((i + 1) as nat, |k: int| 0u8));
        i = i + 1;
    }
    push_le32(&mut rec, mode);
    let mut i: usize = 20;
    while i < 88
        invariant
            20 <= i <= 88,
            rec@.len() == i,
            rec@.subrange(0, 20) == Seq::new(16, |k: int| 0u8) + le_bytes(mode),
            forall|k: int| 20 <= k < i ==> rec@[k] == 0u8,
        decreases 88 - i,
    {
        let ghost before = rec@;
        rec.push(0u8);
        assert(rec@.subrange(0, 20) =~= before.subrange(0, 20));
        i = i + 1;
    }
    assert(rec@ =~= stat_record(mode)) by {
        assert forall|k: int| 0 <= k < 20 implies rec@[k] == stat_record(mode)[k] by {
            assert(rec@[k] == rec@.subrange(0, 20)[k]);
        }
    }
    mem.write_bytes(at, rec.as_slice());
}

/// What `stat` does.
pub open spec fn stat_post(k: Kernel, om: UserMem, fm: UserMem, pathname: u32, statbuf: u32, r: u32) -> bool {
    &&& ({
        let name = latin1(cstr(om.bytes@, pathname - om.base));
        if name.len() == 0 || k.fs.lookup(name) is None {
            r == (-abi::ENOENT) as u32 && fm.bytes@ == om.bytes@
        } else {
            &&& r == 0
            &&& fm.bytes@ == (if statbuf != 0 {
                overwrite(om.bytes@, statbuf - om.base, stat_record(0o100777)) } else { om.bytes@ })
        }
    })
}

/// What `fstat` does.
pub open spec fn fstat_post(k: Kernel, om: UserMem, fm: UserMem, fd: u32, statbuf: u32, r: u32) -> bool {
    &&& r == 0
    &&& fm.bytes@ == (if statbuf != 0 {
        overwrite(om.bytes@, statbuf - om.base, stat_record(if fd <= 2 { 0o20777u32 } else { 0o100777u32 }))
    } else { om.bytes@ })
}

impl Kernel {
    /// `stat` (and `lstat`, `stat64`, `lstat64`): a file that exists is a regular file with
    /// mode `0100777`, everything else in the record zero; written at `statbuf` when it is
    /// not 0. Error: `-ENOENT` (as an unsigned value) for an empty or unknown name.
    pub fn sys_stat(&self, mem: &mut UserMem, pathname: u32, statbuf: u32) -> (r: u32)
        requires
            old(mem).base <= pathname,
            cstr_ok(old(mem).bytes@, pathname - old(mem).base),
            statbuf != 0 ==> old(mem).contains(statbuf as int, 88),
        ensures
            final(mem).base == old(mem).base,
            stat_post(*self, *old(mem), *final(mem), pathname, statbuf, r),
    {
        let name = user_string(mem, pathname);
        if name.unicode_len() == 0 || !self.fs.file_exists(name.as_str()) {
            return (-abi::ENOENT) as u32;
        }
        if statbuf != 0 {
            write_stat(mem, statbuf, 0o100777);
        }
        0
    }

    /// `fstat` (and `fstat64`): descriptors 0 to 2 are character devices (mode `020777`),
    /// any other a regular file (mode `0100777`); written at `statbuf` when it is not 0.
    pub fn sys_fstat(&self, mem: &mut UserMem, fd: u32, statbuf: u32) -> (r: u32)
        requires
            statbuf != 0 ==> old(mem).contains(statbuf as int, 88),
        ensures
            final(mem).base == old(mem).base,
            fstat_post(*self, *old(mem), *final(mem), fd, statbuf, r),
    {
        if statbuf != 0 {
            write_stat(mem, statbuf, if fd <= 2 { 0o20777 } else { 0o100777 });
        }
        0
    }
}

/// Every part of the kernel but the descriptor table is as it was.
pub open spec fn same_but_fds(o: Kernel, f: Kernel) -> bool {
    &&& f.procs == o.procs
    &&& f.pipe_ctl == o.pipe_ctl
    &&& f.pipe_data == o.pipe_data
    &&& f.opened == o.opened
    &&& f.current_pid == o.current_pid
    &&& f.next_pid == o.next_pid
    &&& f.fs == o.fs
}

} // verus!
