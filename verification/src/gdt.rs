//! The global descriptor table: flat code and data segments for the kernel and user mode,
//! and the task-state segment that gives the kernel stack on entry from user mode.
use vstd::prelude::*;

verus! {

pub const KERNEL_CS: u16 = 0x08;
pub const KERNEL_DS: u16 = 0x10;
pub const USER_CS: u16 = 0x1b;
pub const USER_DS: u16 = 0x23;
pub const TSS_SEL: u16 = 0x28;
/// The size of the task-state segment in bytes.
pub const TSS_SIZE: u32 = 104;

/// Whether `d` is the segment descriptor of `base`, `limit`, `access` and `flags`: limit bits
/// 0-15 in bits 0-15, base bits 0-23 in bits 16-39, the access byte in bits 40-47, limit bits
/// 16-19 in bits 48-51, the flags from bit 52 (their high nibble, when set, joins base bits
/// 24-31 in bits 56-63).
pub open spec fn is_descriptor(d: u64, base: u32, limit: u32, access: u8, flags: u8) -> bool {
    &&& d & 0xffff == (limit & 0xffff) as u64
    &&& (d >> 16) & 0xff_ffff == (base & 0xff_ffff) as u64
    &&& (d >> 40) & 0xff == access as u64
    &&& (d >> 48) & 0xf == ((limit >> 16) & 0xf) as u64
    &&& (d >> 52) & 0xf == (flags & 0xf) as u64
    &&& d >> 56 == ((base >> 24) | ((flags >> 4) as u32)) as u64
}

/// The segment descriptor of `base`, `limit`, `access` and `flags` (see `is_descriptor`).
pub fn gdt_entry(base: u32, limit: u32, access: u8, flags: u8) -> (r: u64)
    ensures
        is_descriptor(r, base, limit, access, flags),
{
    let b1 = (base & 0xffff) as u64;
    let b2 = ((base >> 16) & 0xff) as u64;
    let b3 = ((base >> 24) & 0xff) as u64;
    let l1 = (limit & 0xffff) as u64;
    let l2 = ((limit >> 16) & 0x0f) as u64;
    let a = access as u64;
    let f = flags as u64;
    let r = l1 | (b1 << 16) | (b2 << 32) | (a << 40) | ((l2 | (f << 4)) << 48) | (b3 << 56);
    assert(is_descriptor(r, base, limit, access, flags)) by (bit_vector)
        requires
            b1 == (base & 0xffff) as u64,
            b2 == ((base >> 16) & 0xff) as u64,
            b3 == ((base >> 24) & 0xff) as u64,
            l1 == (limit & 0xffff) as u64,
            l2 == ((limit >> 16) & 0x0f) as u64,
            a == access as u64,
            f == flags as u64,
            r == l1 | (b1 << 16) | (b2 << 32) | (a << 40) | ((l2 | (f << 4)) << 48) | (b3 << 56);
    r
}

/// The descriptor of a 32-bit available task-state segment (access 0x89, no flags).
pub fn tss_entry(base: u32, limit: u32) -> (r: u64)
    ensures
        is_descriptor(r, base, limit, 0x89, 0),
{
    gdt_entry(base, limit, 0x89, 0x00)
}

/// What `lgdt` loads: the table's size less one and its address.
pub struct GdtPtr {
    pub limit: u16,
    pub base: u32,
}

/// The task-state segment's fields that the kernel sets: the stack for entries from user
/// mode.
pub struct Tss {
    pub esp0: u32,
    pub ss0: u16,
    pub iobp: u16,
}

/// The table and the task-state segment.
pub struct Gdt {
    pub entries: [u64; 6],
    pub tss: Tss,
}

/// The table before the task-state segment is known: null, kernel code and data, user code
/// and data (flat 4 GiB segments), and an empty slot.
pub fn gdt_table() -> (r: Gdt)
    ensures
        r.entries@[0] == 0 && r.entries@[5] == 0,
        is_descriptor(r.entries@[1], 0, 0xfffff, 0x9a, 0xc),
        is_descriptor(r.entries@[2], 0, 0xfffff, 0x92, 0xc),
        is_descriptor(r.entries@[3], 0, 0xfffff, 0xfa, 0xc),
        is_descriptor(r.entries@[4], 0, 0xfffff, 0xf2, 0xc),
        r.tss.esp0 == 0 && r.tss.ss0 == 0 && r.tss.iobp == 0,
{
    let e1 = gdt_entry(0, 0xfffff, 0x9a, 0xc);
    let e2 = gdt_entry(0, 0xfffff, 0x92, 0xc);
    let e3 = gdt_entry(0, 0xfffff, 0xfa, 0xc);
    let e4 = gdt_entry(0, 0xfffff, 0xf2, 0xc);
    Gdt { entries: [0, e1, e2, e3, e4, 0], tss: Tss { esp0: 0, ss0: 0, iobp: 0 } }
}

impl Gdt {
    /// Sets the kernel stack `kstack` in the task-state segment at `tss_addr`, puts its
    /// descriptor in the last slot, and gives what `lgdt` loads for a table at `gdt_addr`.
    pub fn init(&mut self, kstack: u32, tss_addr: u32, gdt_addr: u32) -> (p: GdtPtr)
        ensures
            final(self).tss.ss0 == KERNEL_DS && final(self).tss.esp0 == kstack,
            final(self).tss.iobp == old(self).tss.iobp,
            is_descriptor(final(self).entries@[5], tss_addr, 103, 0x89, 0),
            forall|i: int| 0 <= i < 5 ==> final(self).entries@[i] == old(self).entries@[i],
            p.limit == 47 && p.base == gdt_addr,
    {
        self.tss.ss0 = KERNEL_DS;
        self.tss.esp0 = kstack;
        let e = tss_entry(tss_addr, TSS_SIZE - 1);
        self.entries[5] = e;
        GdtPtr { limit: 6 * 8 - 1, base: gdt_addr }
    }
}

} // verus!
