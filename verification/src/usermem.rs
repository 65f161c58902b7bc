//! The address space of a user process as the kernel sees it: a window of bytes starting at
//! a base address. System calls read their arguments from it and write their results to it,
//! little-endian as on i686.
use vstd::prelude::*;

verus! {

/// A window of user memory: `bytes[k]` is the byte at address `base + k`.
pub struct UserMem {
    pub base: u32,
    pub bytes: Vec<u8>,
}

/// The four bytes of `v`, least significant first.
pub open spec fn le_bytes(v: u32) -> Seq<u8> {
    seq![(v & 0xff) as u8, ((v >> 8) & 0xff) as u8, ((v >> 16) & 0xff) as u8, ((v >> 24) & 0xff) as u8]
}

/// The two bytes of `v`, least significant first.
pub open spec fn le_bytes16(v: u16) -> Seq<u8> {
    seq![(v & 0xff) as u8, ((v >> 8) & 0xff) as u8]
}

/// The `u32` whose bytes, least significant first, are `b0..b3`.
pub open spec fn le_value(b0: u8, b1: u8, b2: u8, b3: u8) -> u32 {
    (b0 as u32) | ((b1 as u32) << 8) | ((b2 as u32) << 16) | ((b3 as u32) << 24)
}

/// `s` with `data` written over it from offset `off` on.
pub open spec fn overwrite(s: Seq<u8>, off: int, data: Seq<u8>) -> Seq<u8> {
    Seq::new(s.len(), |k: int| if off <= k < off + data.len() { data[k - off] } else { s[k] })
}

/// Appends the four bytes of `v`, least significant first.
pub fn push_le32(out: &mut Vec<u8>, v: u32)
    ensures
        final(out)@ == old(out)@ + le_bytes(v),
{
    out.push((v & 0xff) as u8);
    out.push(((v >> 8) & 0xff) as u8);
    out.push(((v >> 16) & 0xff) as u8);
    out.push(((v >> 24) & 0xff) as u8);
    assert(out@ =~= old(out)@ + le_bytes(v));
}

/// The little-endian word at offset `off` of `m`.
pub open spec fn word_at(m: Seq<u8>, off: int) -> u32 {
    le_value(m[off], m[off + 1], m[off + 2], m[off + 3])
}

/// Reading back the four bytes of a value gives the value.
pub proof fn lemma_le_roundtrip(v: u32)
    ensures
        le_value(le_bytes(v)[0], le_bytes(v)[1], le_bytes(v)[2], le_bytes(v)[3]) == v,
{
    let b0 = (v & 0xff) as u8;
    let b1 = ((v >> 8) & 0xff) as u8;
    let b2 = ((v >> 16) & 0xff) as u8;
    let b3 = ((v >> 24) & 0xff) as u8;
    assert((b0 as u32) | ((b1 as u32) << 8) | ((b2 as u32) << 16) | ((b3 as u32) << 24) == v) by (bit_vector)
        requires
            b0 == (v & 0xff) as u8,
            b1 == ((v >> 8) & 0xff) as u8,
            b2 == ((v >> 16) & 0xff) as u8,
            b3 == ((v >> 24) & 0xff) as u8,
    ;
}

impl UserMem {
    /// Whether the `len` bytes at `addr` lie inside the window.
    pub open spec fn contains(&self, addr: int, len: int) -> bool {
        &&& self.base <= addr
        &&& 0 <= len
        &&& addr + len <= self.base + self.bytes@.len()
        &&& addr + len <= 0x1_0000_0000
    }

    /// The byte at address `addr`.
    pub open spec fn at(&self, addr: int) -> u8 {
        self.bytes@[addr - self.base]
    }

    /// Writes `data[from..from + n]` at `addr`.
    pub fn write_from(&mut self, addr: u32, data: &[u8], from: usize, n: usize)
        requires
            from + n <= data@.len(),
            old(self).contains(addr as int, n as int),
        ensures
            final(self).base == old(self).base,
            final(self).bytes@ == old(self).written(addr as int, data@.subrange(from as int, from + n)),
    {
        let off = (addr - self.base) as usize;
        let len: usize = self.bytes.len();
        let dl: usize = data.len();
        let mut i: usize = 0;
        while i < n
            invariant
                len == old(self).bytes@.len(),
                dl == data@.len(),
                self.base == old(self).base,
                old(self).contains(addr as int, n as int),
                from + n <= data@.len(),
                off == addr - old(self).base,
                i <= n,
                self.bytes@.len() == old(self).bytes@.len(),
                forall|k: int| 0 <= k < self.bytes@.len() ==> #[trigger] self.bytes@[k] == (
                    if off <= k < off + i { data@[from + k - off] } else { old(self).bytes@[k] }),
            decreases n - i,
        {
            self.bytes.set(off + i, data[from + i]);
            i = i + 1;
        }
        assert(self.bytes@ =~= old(self).written(addr as int, data@.subrange(from as int, from + n)));
    }

    /// The `len` bytes at `addr`.
    pub open spec fn range(&self, addr: int, len: int) -> Seq<u8> {
        self.bytes@.subrange(addr - self.base, addr - self.base + len)
    }

    /// The window with `data` written at `addr`.
    pub open spec fn written(&self, addr: int, data: Seq<u8>) -> Seq<u8> {
        overwrite(self.bytes@, addr - self.base, data)
    }

    /// A window of `len` zero bytes at `base`.
    pub fn zeroed(base: u32, len: u32) -> (r: UserMem)
        ensures
            r.base == base,
            r.bytes@.len() == len,
            forall|k: int| 0 <= k < len ==> r.bytes@[k] == 0u8,
    {
        let mut bytes: Vec<u8> = Vec::new();
        let mut i: u32 = 0;
        while i < len
            invariant
                i <= len,
                bytes@.len() == i,
                forall|k: int| 0 <= k < i ==> bytes@[k] == 0u8,
            decreases len - i,
        {
            bytes.push(0u8);
            i = i + 1;
        }
        UserMem { base, bytes }
    }

    /// Whether the `len` bytes at `addr` lie inside the window.
    pub fn has(&self, addr: u32, len: u32) -> (r: bool)
        ensures
            r == self.contains(addr as int, len as int),
    {
        if addr < self.base {
            return false;
        }
        let off = (addr - self.base) as u64;
        off + len as u64 <= self.bytes.len() as u64 && addr as u64 + len as u64 <= 0x1_0000_0000u64
    }

    /// The byte at `addr`.
    pub fn read_u8(&self, addr: u32) -> (r: u8)
        requires
            self.contains(addr as int, 1),
        ensures
            r == self.at(addr as int),
    {
        self.bytes[(addr - self.base) as usize]
    }

    /// Writes one byte at `addr`.
    pub fn write_u8(&mut self, addr: u32, v: u8)
        requires
            old(self).contains(addr as int, 1),
        ensures
            final(self).base == old(self).base,
            final(self).bytes@ == old(self).written(addr as int, seq![v]),
    {
        let off = (addr - self.base) as usize;
        self.bytes.set(off, v);
        assert(self.bytes@ =~= old(self).written(addr as int, seq![v]));
    }

    /// The little-endian `u32` at `addr`.
    pub fn read_u32(&self, addr: u32) -> (r: u32)
        requires
            self.contains(addr as int, 4),
        ensures
            r == le_value(self.at(addr as int), self.at(addr + 1), self.at(addr + 2), self.at(addr + 3)),
    {
        let off = (addr - self.base) as usize;
        let n: usize = self.bytes.len();
        assert(off + 4 <= n);
        let b0 = self.bytes[off];
        let b1 = self.bytes[off + 1];
        let b2 = self.bytes[off + 2];
        let b3 = self.bytes[off + 3];
        (b0 as u32) | ((b1 as u32) << 8) | ((b2 as u32) << 16) | ((b3 as u32) << 24)
    }

    /// Writes `v` little-endian at `addr`.
    pub fn write_u32(&mut self, addr: u32, v: u32)
        requires
            old(self).contains(addr as int, 4),
        ensures
            final(self).base == old(self).base,
            final(self).bytes@ == old(self).written(addr as int, le_bytes(v)),
    {
        let off = (addr - self.base) as usize;
        let n: usize = self.bytes.len();
        assert(off + 4 <= n);
        self.bytes.set(off, (v & 0xff) as u8);
        self.bytes.set(off + 1, ((v >> 8) & 0xff) as u8);
        self.bytes.set(off + 2, ((v >> 16) & 0xff) as u8);
        self.bytes.set(off + 3, ((v >> 24) & 0xff) as u8);
        assert(self.bytes@ =~= old(self).written(addr as int, le_bytes(v)));
    }

    /// Writes `v` little-endian at `addr`.
    pub fn write_u16(&mut self, addr: u32, v: u16)
        requires
            old(self).contains(addr as int, 2),
        ensures
            final(self).base == old(self).base,
            final(self).bytes@ == old(self).written(addr as int, le_bytes16(v)),
    {
        let off = (addr - self.base) as usize;
        let n: usize = self.bytes.len();
        assert(off + 2 <= n);
        self.bytes.set(off, (v & 0xff) as u8);
        self.bytes.set(off + 1, ((v >> 8) & 0xff) as u8);
        assert(self.bytes@ =~= old(self).written(addr as int, le_bytes16(v)));
    }

    /// Writes `data` at `addr`.
    pub fn write_bytes(&mut self, addr: u32, data: &[u8])
        requires
            old(self).contains(addr as int, data@.len() as int),
        ensures
            final(self).base == old(self).base,
            final(self).bytes@ == old(self).written(addr as int, data@),
    {
        let off = (addr - self.base) as usize;
        let n: usize = self.bytes.len();
        let mut i: usize = 0;
        while i < data.len()
            invariant
                n == old(self).bytes@.len(),
                self.base == old(self).base,
                old(self).contains(addr as int, data@.len() as int),
                off == addr - old(self).base,
                i <= data@.len(),
                self.bytes@.len() == old(self).bytes@.len(),
                forall|k: int| 0 <= k < self.bytes@.len() ==> #[trigger] self.bytes@[k] == (
                    if off <= k < off + i { data@[k - off] } else { old(self).bytes@[k] }),
            decreases data@.len() - i,
        {
            self.bytes.set(off + i, data[i]);
            i = i + 1;
        }
        assert(self.bytes@ =~= old(self).written(addr as int, data@));
    }

    /// The `len` bytes at `addr`.
    pub fn read_bytes(&self, addr: u32, len: u32) -> (r: Vec<u8>)
        requires
            self.contains(addr as int, len as int),
        ensures
            r@ == self.range(addr as int, len as int),
    {
        let off = (addr - self.base) as usize;
        let n: usize = self.bytes.len();
        let mut out: Vec<u8> = Vec::new();
        let mut i: usize = 0;
        while i < len as usize
            invariant
                n == self.bytes@.len(),
                self.contains(addr as int, len as int),
                off == addr - self.base,
                i <= len,
                out@ == self.bytes@.subrange(off as int, off + i),
            decreases len - i,
        {
            out.push(self.bytes[off + i]);
            assert(out@ =~= self.bytes@.subrange(off as int, off + i + 1));
            i = i + 1;
        }
        out
    }
}

} // verus!
