//! 32-bit ELF executables: the header checks, the loadable segments, and the initial user
//! stack (strings, auxiliary vector, environment and argument pointers, argument count).
use vstd::prelude::*;
use crate::usermem::{UserMem, le_bytes, le_value, push_le32, word_at};
use crate::frames::{FrameAllocator, free_count, lemma_free_count_two};
use crate::paging::{PageDir, pd_check, frames_fit, pd_ok, frames_grow, vbyte, user_space, page_frame, entry_at,
    lemma_pd_ok_seq, lemma_write_walk, lemma_zero_walk, present};
use crate::fileio::{cstr, cstr_ok};
use crate::ramfs::first_zero_from;

verus! {

pub const STACK_TOP: u32 = 0xC0000000;
pub const STACK_SIZE: u32 = 16 * 4096;
pub const PT_LOAD: u32 = 1;
pub const AT_NULL: u32 = 0;
pub const AT_PHDR: u32 = 3;
pub const AT_PHENT: u32 = 4;
pub const AT_PHNUM: u32 = 5;
pub const AT_PAGESZ: u32 = 6;
pub const AT_BASE: u32 = 7;
pub const AT_ENTRY: u32 = 9;
pub const AT_RANDOM: u32 = 25;
pub const EHDR_SIZE: usize = 52;
pub const PHDR_SIZE: usize = 32;

/// Why an executable cannot be loaded.
#[derive(Clone, Copy, PartialEq, Eq, Structural, Debug)]
pub enum ElfError {
    BadMagic,
    Not32Bit,
    NotExec,
    NoSegments,
    LoadError,
    StackError,
    PagingError,
    BadPhdr,
}

impl ElfError {
    /// The message that describes the error.
    pub fn message(&self) -> (r: &'static str)
        ensures
            r@ == elf_error_text(*self),
    {
        match self {
            ElfError::BadMagic => "bad ELF magic",
            ElfError::Not32Bit => "not a 32-bit ELF",
            ElfError::NotExec => "not an executable",
            ElfError::NoSegments => "no loadable segments",
            ElfError::LoadError => "segment load failed",
            ElfError::StackError => "stack allocation failed",
            ElfError::PagingError => "page table setup failed",
            ElfError::BadPhdr => "bad program headers",
        }
    }
}

/// The message of each error.
pub open spec fn elf_error_text(e: ElfError) -> Seq<char> {
    match e {
        ElfError::BadMagic => "bad ELF magic"@,
        ElfError::Not32Bit => "not a 32-bit ELF"@,
        ElfError::NotExec => "not an executable"@,
        ElfError::NoSegments => "no loadable segments"@,
        ElfError::LoadError => "segment load failed"@,
        ElfError::StackError => "stack allocation failed"@,
        ElfError::PagingError => "page table setup failed"@,
        ElfError::BadPhdr => "bad program headers"@,
    }
}

/// A loadable segment: where it goes, how much comes from the file and from where, and
/// how much memory it takes.
#[derive(Clone, Copy, PartialEq, Eq, Structural, Debug)]
pub struct Segment {
    pub vaddr: u32,
    pub offset: u32,
    pub filesz: u32,
    pub memsz: u32,
}

/// What the loader needs of an executable.
pub struct ElfImage {
    pub entry: u32,
    pub phoff: u32,
    pub phnum: u16,
    pub segments: Vec<Segment>,
    pub phdr_addr: u32,
}

/// The little-endian `u16` at offset `o` of `d`.
pub open spec fn u16_at(d: Seq<u8>, o: int) -> u16 {
    ((d[o] as u16) | ((d[o + 1] as u16) << 8)) as u16
}

/// The little-endian `u32` at offset `o` of `d`.
pub open spec fn u32_at(d: Seq<u8>, o: int) -> u32 {
    le_value(d[o], d[o + 1], d[o + 2], d[o + 3])
}

/// The header check: too short or wrong magic, not 32-bit, not an executable, no program
/// headers.
pub open spec fn header_error(d: Seq<u8>) -> Option<ElfError> {
    if d.len() < 52 || d[0] != 0x7fu8 || d[1] != 0x45u8 || d[2] != 0x4cu8 || d[3] != 0x46u8 {
        Some(ElfError::BadMagic)
    } else if d[4] != 1u8 {
        Some(ElfError::Not32Bit)
    } else if u16_at(d, 16) != 2 {
        Some(ElfError::NotExec)
    } else if u16_at(d, 44) == 0 {
        Some(ElfError::NoSegments)
    } else {
        None
    }
}

/// The offset of program header `i`.
pub open spec fn phdr_off(d: Seq<u8>, i: int) -> int {
    u32_at(d, 28) + i * u16_at(d, 42)
}

/// Whether program header `i` lies inside the file and describes a loadable segment.
pub open spec fn is_load(d: Seq<u8>, i: int) -> bool {
    let o = phdr_off(d, i);
    o + 32 <= d.len() && u32_at(d, o) == PT_LOAD
}

/// The segment that program header `i` describes.
pub open spec fn segment_at(d: Seq<u8>, i: int) -> Segment {
    let o = phdr_off(d, i);
    Segment { vaddr: u32_at(d, o + 8), offset: u32_at(d, o + 4), filesz: u32_at(d, o + 16), memsz: u32_at(d, o + 20) }
}

/// The loadable segments among program headers `0..n`, in order.
pub open spec fn load_segments(d: Seq<u8>, n: int) -> Seq<Segment>
    decreases n,
{
    if n <= 0 {
        Seq::empty()
    } else if is_load(d, n - 1) {
        load_segments(d, n - 1).push(segment_at(d, n - 1))
    } else {
        load_segments(d, n - 1)
    }
}

/// How many of program headers `0..n` lie inside the file and are loadable.
pub open spec fn load_header_count(d: Seq<u8>, n: int) -> nat
    decreases n,
{
    if n <= 0 { 0 } else { load_header_count(d, n - 1) + if is_load(d, n - 1) { 1nat } else { 0nat } }
}

/// Every loadable program header inside the file gives one segment, in header order: there
/// are as many segments as such headers among `0..n`, and the header at `i` gives the
/// segment at the number of such headers before it.
pub proof fn law_every_load_header_loads(d: Seq<u8>, n: int)
    requires
        0 <= n,
    ensures
        load_segments(d, n).len() == load_header_count(d, n),
        forall|i: int| 0 <= i < n && #[trigger] is_load(d, i)
            ==> load_segments(d, n)[load_header_count(d, i) as int] == segment_at(d, i),
    decreases n,
{
    if n > 0 {
        law_every_load_header_loads(d, n - 1);
        assert forall|i: int| 0 <= i < n && #[trigger] is_load(d, i)
            implies load_segments(d, n)[load_header_count(d, i) as int] == segment_at(d, i) by {
            if i < n - 1 {
                lemma_load_count_mono(d, i + 1, n - 1);
                assert(load_header_count(d, i + 1) == load_header_count(d, i) + 1);
            }
        }
    }
}

proof fn lemma_load_count_mono(d: Seq<u8>, i: int, j: int)
    requires
        0 <= i <= j,
    ensures
        load_header_count(d, i) <= load_header_count(d, j),
    decreases j - i,
{
    if i < j {
        lemma_load_count_mono(d, i, j - 1);
    }
}

/// Where the program headers appear in memory: taken from the last loadable segment among
/// headers `0..n` whose file range holds them (offsets and addresses wrap at 32 bits), 0
/// when none does.
pub open spec fn phdr_addr_of(d: Seq<u8>, n: int) -> u32
    decreases n,
{
    if n <= 0 {
        0
    } else {
        let s = segment_at(d, n - 1);
        let phoff = u32_at(d, 28);
        if is_load(d, n - 1) && s.offset <= phoff && phoff < s.offset.wrapping_add(s.filesz) {
            ((phoff - s.offset) as u32).wrapping_add(s.vaddr)
        } else {
            phdr_addr_of(d, n - 1)
        }
    }
}

fn read_u16(d: &[u8], o: usize) -> (r: u16)
    requires
        o + 2 <= d@.len(),
    ensures
        r == u16_at(d@, o as int),
{
    ((d[o] as u16) | ((d[o + 1] as u16) << 8)) as u16
}

fn read_u32(d: &[u8], o: usize) -> (r: u32)
    requires
        o + 4 <= d@.len(),
    ensures
        r == u32_at(d@, o as int),
{
    (d[o] as u32) | ((d[o + 1] as u32) << 8) | ((d[o + 2] as u32) << 16) | ((d[o + 3] as u32) << 24)
}

/// Checks the header of an executable and collects its loadable segments and the address
/// of its program headers.
pub fn parse_elf(data: &[u8]) -> (r: Result<ElfImage, ElfError>)
    ensures
        match header_error(data@) {
            Some(e) => r == Err::<ElfImage, ElfError>(e),
            None => r matches Ok(img) && {
                &&& img.entry == u32_at(data@, 24)
                &&& img.phoff == u32_at(data@, 28)
                &&& img.phnum == u16_at(data@, 44)
                &&& img.segments@ == load_segments(data@, img.phnum as int)
                &&& img.phdr_addr == phdr_addr_of(data@, img.phnum as int)
            },
        },
{
    if data.len() < EHDR_SIZE || data[0] != 0x7f || data[1] != 0x45 || data[2] != 0x4c || data[3] != 0x46 {
        return Err(ElfError::BadMagic);
    }
    if data[4] != 1 {
        return Err(ElfError::Not32Bit);
    }
    if read_u16(data, 16) != 2 {
        return Err(ElfError::NotExec);
    }
    let entry = read_u32(data, 24);
    let phoff = read_u32(data, 28);
    let phentsize = read_u16(data, 42);
    let phnum = read_u16(data, 44);
    if phnum == 0 {
        return Err(ElfError::NoSegments);
    }
    let mut segments: Vec<Segment> = Vec::new();
    let mut phdr_addr: u32 = 0;
    let mut i: u16 = 0;
    while i < phnum
        invariant
            i <= phnum,
            header_error(data@) is None,
            phoff == u32_at(data@, 28),
            phentsize == u16_at(data@, 42),
            segments@ == load_segments(data@, i as int),
            phdr_addr == phdr_addr_of(data@, i as int),
        decreases phnum - i,
    {
        proof {
            assert(i as u64 * phentsize as u64 <= 0xFFFF * 0xFFFF) by (nonlinear_arith)
                requires i <= 0xFFFF, phentsize <= 0xFFFF;
        }
        let off: u64 = phoff as u64 + i as u64 * phentsize as u64;
        if off + 32 <= data.len() as u64 {
            let o = off as usize;
            let p_type = read_u32(data, o);
            if p_type == PT_LOAD {
                let seg = Segment {
                    vaddr: read_u32(data, o + 8),
                    offset: read_u32(data, o + 4),
                    filesz: read_u32(data, o + 16),
                    memsz: read_u32(data, o + 20),
                };
                segments.push(seg);
                if seg.offset <= phoff && phoff < seg.offset.wrapping_add(seg.filesz) {
                    phdr_addr = (phoff - seg.offset).wrapping_add(seg.vaddr);
                }
            }
        }
        i = i + 1;
    }
    Ok(ElfImage { entry, phoff, phnum, segments, phdr_addr })
}

/// The auxiliary vector as the loader pushes it: pairs pushed type first, so that each
/// value lies below its type, from the end marker down to the base entry; lowest address
/// first.
pub open spec fn auxv(entry: u32, phnum: u32, phdr_addr: u32) -> Seq<u32> {
    seq![0u32, AT_BASE, phdr_addr, AT_PHDR, 32u32, AT_PHENT, phnum, AT_PHNUM, 4096u32, AT_PAGESZ, entry, AT_ENTRY, 0u32, AT_NULL]
}

/// The words of `v`, each as four little-endian bytes.
pub open spec fn words(v: Seq<u32>) -> Seq<u8>
    decreases v.len(),
{
    if v.len() == 0 { Seq::empty() } else { words(v.drop_last()) + le_bytes(v.last()) }
}

/// The strings of `v` laid end to end.
pub open spec fn concat(v: Seq<Seq<u8>>) -> Seq<u8>
    decreases v.len(),
{
    if v.len() == 0 { Seq::empty() } else { concat(v.drop_last()) + v.last() }
}

/// The addresses of strings `v` laid end to end so that the block ends at `end`.
pub open spec fn string_addrs(v: Seq<Seq<u8>>, end: int) -> Seq<u32> {
    let start = end - concat(v).len();
    Seq::new(v.len(), |i: int| (start + concat(v.take(i)).len()) as u32)
}

/// The strings of `v` laid end to end, `v[0]` first, so that the block ends at `end`: the
/// address of each.
pub fn lay_strings(v: &Vec<Vec<u8>>, end: u32, out: &mut Vec<u8>) -> (addrs: Vec<u32>)
    requires
        concat(deep(v@)) .len() <= end,
    ensures
        final(out)@ == old(out)@ + concat(deep(v@)),
        addrs@ == string_addrs(deep(v@), end as int),
{
    let ghost dv = deep(v@);
    let total = total_len(v);
    let start: u32 = end - total;
    let mut addrs: Vec<u32> = Vec::new();
    let mut pos: u32 = start;
    let mut i: usize = 0;
    while i < v.len()
        invariant
            dv == deep(v@),
            total == concat(dv).len(),
            total <= end,
            start == end - total,
            i <= v@.len(),
            pos == start + concat(dv.take(i as int)).len(),
            out@ == old(out)@ + concat(dv.take(i as int)),
            addrs@ == string_addrs(dv, end as int).take(i as int),
        decreases v@.len() - i,
    {
        proof {
            lemma_concat_take(dv, i as int);
            lemma_concat_prefix_len(dv, i as int + 1);
        }
        addrs.push(pos);
        let s = &v[i];
        let mut k: usize = 0;
        let ghost o0 = out@;
        while k < s.len()
            invariant
                k <= s@.len(),
                out@ == o0 + s@.take(k as int),
            decreases s@.len() - k,
        {
            out.push(s[k]);
            assert(out@ =~= o0 + s@.take(k + 1));
            k = k + 1;
        }
        assert(s@.take(s@.len() as int) =~= s@);
        assert(dv[i as int] == s@);
        pos = pos + s.len() as u32;
        assert(addrs@ =~= string_addrs(dv, end as int).take(i + 1));
        i = i + 1;
    }
    assert(dv.take(dv.len() as int) =~= dv);
    assert(addrs@ =~= string_addrs(dv, end as int));
    addrs
}

/// The byte strings of `v`.
pub open spec fn deep(v: Seq<Vec<u8>>) -> Seq<Seq<u8>> {
    Seq::new(v.len(), |i: int| v[i]@)
}

/// Taking one more string adds it to the end of the block.
proof fn lemma_concat_take(v: Seq<Seq<u8>>, i: int)
    requires
        0 <= i < v.len(),
    ensures
        concat(v.take(i + 1)) == concat(v.take(i)) + v[i],
{
    assert(v.take(i + 1).drop_last() =~= v.take(i));
}

/// A prefix of the strings takes no more room than all of them.
proof fn lemma_concat_prefix_len(v: Seq<Seq<u8>>, i: int)
    requires
        0 <= i <= v.len(),
    ensures
        concat(v.take(i)).len() <= concat(v).len(),
    decreases v.len() - i,
{
    if i < v.len() {
        lemma_concat_take(v, i);
        lemma_concat_prefix_len(v, i + 1);
    } else {
        assert(v.take(i) =~= v);
    }
}

/// The total length of the strings of `v`, or past `u32::MAX` (capped) when it does not fit.
fn total_len(v: &Vec<Vec<u8>>) -> (r: u32)
    requires
        concat(deep(v@)).len() <= u32::MAX,
    ensures
        r == concat(deep(v@)).len(),
{
    let ghost dv = deep(v@);
    let mut t: u32 = 0;
    let mut i: usize = 0;
    while i < v.len()
        invariant
            dv == deep(v@),
            concat(dv).len() <= u32::MAX,
            i <= v@.len(),
            t == concat(dv.take(i as int)).len(),
        decreases v@.len() - i,
    {
        proof {
            lemma_concat_take(dv, i as int);
            lemma_concat_prefix_len(dv, i as int + 1);
        }
        assert(dv[i as int] == v@[i as int]@);
        t = t + v[i].len() as u32;
        i = i + 1;
    }
    assert(dv.take(dv.len() as int) =~= dv);
    t
}

/// Appends the words of `w`, each little-endian.
pub fn push_words(out: &mut Vec<u8>, w: &Vec<u32>)
    ensures
        final(out)@ == old(out)@ + words(w@),
{
    let mut i: usize = 0;
    while i < w.len()
        invariant
            i <= w@.len(),
            out@ == old(out)@ + words(w@.take(i as int)),
        decreases w@.len() - i,
    {
        push_le32(out, w[i]);
        assert(w@.take(i + 1).drop_last() =~= w@.take(i as int));
        assert(out@ =~= old(out)@ + words(w@.take(i + 1)));
        i = i + 1;
    }
    assert(w@.take(w@.len() as int) =~= w@);
}

/// The initial stack of a program: where its pointer starts, the words from there up
/// (argument count, argument pointers, 0, environment pointers, 0, auxiliary vector), and
/// the strings (arguments, then environment) that end at the top of the stack.
pub struct StackLayout {
    pub sp: u32,
    pub table: Vec<u8>,
    pub strings_at: u32,
    pub strings: Vec<u8>,
}

/// The stack layout of `exec` for arguments `argv` and environment `envp` (each string
/// with its terminating zero): strings at the top, the pointer block below them aligned
/// down to 16 bytes.
pub open spec fn exec_stack_spec(argv: Seq<Seq<u8>>, envp: Seq<Seq<u8>>, entry: u32, phnum: u32, phdr_addr: u32)
    -> (u32, Seq<u8>, u32, Seq<u8>) {
    let e = concat(envp);
    let a = concat(argv);
    let strings_at = (STACK_TOP - e.len() - a.len()) as u32;
    let aligned = (strings_at & !15u32) as u32;
    let table = words(seq![argv.len() as u32] + string_addrs(argv, STACK_TOP - e.len()) + seq![0u32]
        + string_addrs(envp, STACK_TOP as int) + seq![0u32] + auxv(entry, phnum, phdr_addr));
    ((aligned - table.len()) as u32, table, strings_at, a + e)
}

/// Lays out the initial stack of `exec` (see `exec_stack_spec`).
pub fn exec_stack(argv: &Vec<Vec<u8>>, envp: &Vec<Vec<u8>>, entry: u32, phnum: u32, phdr_addr: u32) -> (r: StackLayout)
    requires
        concat(deep(argv@)).len() + concat(deep(envp@)).len() + 4 * (argv@.len() + envp@.len()) + 128 <= STACK_SIZE,
    ensures
        (r.sp, r.table@, r.strings_at, r.strings@) == exec_stack_spec(deep(argv@), deep(envp@), entry, phnum, phdr_addr),
        stack_placed(r.sp, r.table@, r.strings_at, r.strings@),
{
    let mut strings: Vec<u8> = Vec::new();
    let elen = total_len(envp);
    let alen = total_len(argv);
    let argv_addrs = lay_strings(argv, STACK_TOP - elen, &mut strings);
    let envp_addrs = lay_strings(envp, STACK_TOP, &mut strings);
    let strings_at = STACK_TOP - elen - alen;
    let aligned = strings_at & !15u32;
    let mut w: Vec<u32> = Vec::new();
    w.push(argv.len() as u32);
    let mut i: usize = 0;
    while i < argv_addrs.len()
        invariant
            i <= argv_addrs@.len(),
            w@ == seq![argv@.len() as u32] + argv_addrs@.take(i as int),
        decreases argv_addrs@.len() - i,
    {
        w.push(argv_addrs[i]);
        assert(w@ =~= seq![argv@.len() as u32] + argv_addrs@.take(i + 1));
        i = i + 1;
    }
    w.push(0);
    let ghost w1 = w@;
    let mut i: usize = 0;
    while i < envp_addrs.len()
        invariant
            i <= envp_addrs@.len(),
            w@ == w1 + envp_addrs@.take(i as int),
        decreases envp_addrs@.len() - i,
    {
        w.push(envp_addrs[i]);
        assert(w@ =~= w1 + envp_addrs@.take(i + 1));
        i = i + 1;
    }
    w.push(0);
    let aux: [u32; 14] = [0, AT_BASE, phdr_addr, AT_PHDR, 32, AT_PHENT, phnum, AT_PHNUM, 4096, AT_PAGESZ, entry, AT_ENTRY, 0, AT_NULL];
    let ghost w2 = w@;
    let mut i: usize = 0;
    while i < 14
        invariant
            i <= 14,
            aux@ == auxv(entry, phnum, phdr_addr),
            w@ == w2 + aux@.take(i as int),
        decreases 14 - i,
    {
        w.push(aux[i]);
        assert(w@ =~= w2 + aux@.take(i + 1));
        i = i + 1;
    }
    proof {
        assert(argv_addrs@.take(argv_addrs@.len() as int) =~= argv_addrs@);
        assert(envp_addrs@.take(envp_addrs@.len() as int) =~= envp_addrs@);
        assert(aux@.take(14) =~= aux@);
        assert(w@ =~= seq![argv@.len() as u32] + string_addrs(deep(argv@), STACK_TOP - elen) + seq![0u32]
            + string_addrs(deep(envp@), STACK_TOP as int) + seq![0u32] + auxv(entry, phnum, phdr_addr));
        lemma_words_len(w@);
    }
    let mut table: Vec<u8> = Vec::new();
    push_words(&mut table, &w);
    assert(table@ =~= words(w@));
    proof {
        assert(aligned >= strings_at - 15 && aligned <= strings_at) by (bit_vector) requires aligned == strings_at & !15u32;
        lemma_words_len(w@);
        assert(argv_addrs@.len() == argv@.len());
        assert(envp_addrs@.len() == envp@.len());
    }
    let sp = aligned - table.len() as u32;
    StackLayout { sp, table, strings_at, strings }
}

/// Each word takes four bytes.
pub proof fn lemma_words_len(v: Seq<u32>)
    ensures
        words(v).len() == 4 * v.len(),
    decreases v.len(),
{
    if v.len() > 0 {
        lemma_words_len(v.drop_last());
    }
}

/// The initial stack of a program loaded at boot: its name `hello.elf`, sixteen fixed
/// "random" bytes, and the pointer block with `argc` 1.
pub open spec fn boot_stack_spec(entry: u32, phnum: u32, phdr_addr: u32) -> (u32, Seq<u8>, u32, Seq<u8>) {
    let fname_addr = (STACK_TOP - 10) as u32;
    let random_addr = (STACK_TOP - 26) as u32;
    let aligned = (random_addr & !15u32) as u32;
    let table = words(seq![1u32, fname_addr, 0u32, 0u32, 0u32, AT_BASE, phdr_addr, AT_PHDR, 32u32, AT_PHENT,
        phnum, AT_PHNUM, 4096u32, AT_PAGESZ, entry, AT_ENTRY, random_addr, AT_RANDOM, 0u32, AT_NULL]);
    ((aligned - table.len()) as u32, table, random_addr,
        seq![0xdeu8, 0xad, 0xbe, 0xef, 0xca, 0xfe, 0xba, 0xbe, 0xde, 0xad, 0xc0, 0xde, 0xfe, 0xed, 0xfa, 0xce,
            0x68, 0x65, 0x6c, 0x6c, 0x6f, 0x2e, 0x65, 0x6c, 0x66, 0x00])
}

/// The first page a segment covers.
pub open spec fn first_page(s: Segment) -> int {
    s.vaddr as int / 4096
}

/// The page after the last one a segment covers.
pub open spec fn end_page(s: Segment) -> int {
    (s.vaddr + s.memsz + 4095) / 4096
}

/// How many pages the loader maps for a segment.
pub open spec fn seg_pages(s: Segment) -> int {
    if end_page(s) > first_page(s) { end_page(s) - first_page(s) } else { 0 }
}

/// The pages of the first `n` segments.
pub open spec fn pages_total(segs: Seq<Segment>, n: int) -> int
    decreases n,
{
    if n <= 0 { 0 } else { pages_total(segs, n - 1) + seg_pages(segs[n - 1]) }
}

/// How many file bytes the loader copies for a segment of a file of `dl` bytes.
pub open spec fn seg_copy_len(dl: int, s: Segment) -> int {
    let avail = if dl > s.offset { dl - s.offset } else { 0 };
    if s.filesz < avail { s.filesz as int } else { avail }
}

/// Whether, read through directory `pd`, memory `m` holds segment `s` of the file `data`:
/// its file bytes (as many as the file has), then zeros up to its memory size.
pub open spec fn segment_loaded(m: Seq<u8>, pd: int, data: Seq<u8>, s: Segment) -> bool {
    &&& forall|va: int| s.vaddr <= va < s.vaddr + seg_copy_len(data.len() as int, s)
        ==> #[trigger] vbyte(m, pd, va) == Some(data[s.offset + va - s.vaddr])
    &&& forall|va: int| s.vaddr + s.filesz <= va < s.vaddr + s.memsz ==> #[trigger] vbyte(m, pd, va) == Some(0u8)
}

/// Whether the segments can be loaded side by side: each holds no more file bytes than
/// memory, lies above the 12 MiB the kernel maps and below the user stack, and no two
/// share a page.
pub open spec fn layout_ok(segs: Seq<Segment>) -> bool {
    &&& forall|i: int| 0 <= i < segs.len() ==> {
        let s = #[trigger] segs[i];
        &&& s.filesz <= s.memsz
        &&& 3072 <= first_page(s)
        &&& s.vaddr + s.memsz <= STACK_TOP - STACK_SIZE
    }
    &&& forall|i: int, j: int| 0 <= i < j < segs.len() ==>
        end_page(#[trigger] segs[i]) <= first_page(#[trigger] segs[j]) || end_page(segs[j]) <= first_page(segs[i])
}

/// Whether the stack's table and strings lie inside the user stack.
pub open spec fn stack_placed(sp: u32, table: Seq<u8>, strings_at: u32, strings: Seq<u8>) -> bool {
    &&& STACK_TOP - STACK_SIZE <= strings_at && strings_at + strings.len() <= STACK_TOP
    &&& STACK_TOP - STACK_SIZE <= sp && sp + table.len() <= STACK_TOP
}

/// Whether, read through `pd`, memory `m` holds the stack: the table at `sp`, and the strings
/// where the table does not cover them.
pub open spec fn stack_loaded(m: Seq<u8>, pd: int, sp: u32, table: Seq<u8>, strings_at: u32, strings: Seq<u8>) -> bool {
    &&& forall|va: int| sp <= va < sp + table.len() ==> #[trigger] vbyte(m, pd, va) == Some(table[va - sp])
    &&& forall|va: int| strings_at <= va < strings_at + strings.len() && !(sp <= va < sp + table.len())
        ==> #[trigger] vbyte(m, pd, va) == Some(strings[va - strings_at])
}

/// The frames loading may take at most: the directory, three kernel tables, and for each
/// page of the segments and the stack the page and a table.
pub open spec fn load_frames(segs: Seq<Segment>) -> int {
    4 + 2 * pages_total(segs, segs.len() as int) + 2 * (STACK_SIZE / 4096)
}

/// What loading needs of the frames: enough free ones, and room in the count of used ones.
pub open spec fn load_room(f: FrameAllocator, segs: Seq<Segment>) -> bool {
    &&& free_count(f, f.total_frames as int) >= load_frames(segs)
    &&& f.used_frames + 2 * load_frames(segs) + 64 < usize::MAX
}

/// Loading takes at least the directory and the kernel tables.
pub proof fn lemma_load_frames_nonneg(segs: Seq<Segment>)
    ensures
        load_frames(segs) >= 4,
{
    lemma_pages_total_mono(segs, 0, segs.len() as int);
}

/// Page rounding of 32- and 64-bit addresses.
proof fn lemma_page_bits(a: u32, w: u64)
    ensures
        a & !0xFFFu32 == a - a % 4096,
        w & !0xFFFu64 == w - w % 4096,
{
    assert(a & !0xFFFu32 == a - a % 4096 && w & !0xFFFu64 == w - w % 4096) by (bit_vector);
}

proof fn lemma_pages_total_mono(segs: Seq<Segment>, i: int, j: int)
    requires
        0 <= i <= j,
    ensures
        pages_total(segs, i) <= pages_total(segs, j),
    decreases j - i,
{
    if i < j {
        lemma_pages_total_mono(segs, i, j - 1);
    }
}

/// A byte of a segment's memory lies in one of its pages.
proof fn lemma_in_seg_pages(s: Segment, va: int)
    requires
        s.vaddr <= va < s.vaddr + s.memsz,
    ensures
        first_page(s) <= va / 4096 < end_page(s),
{
    assert(first_page(s) <= va / 4096 < end_page(s)) by (nonlinear_arith)
        requires s.vaddr <= va < s.vaddr + s.memsz;
}

/// A segment loaded in `m1` stays loaded in `m2` when its pages read the same.
proof fn lemma_loaded_kept(m1: Seq<u8>, m2: Seq<u8>, pd: int, data: Seq<u8>, s: Segment)
    requires
        segment_loaded(m1, pd, data, s),
        s.filesz <= s.memsz,
        forall|va: int| s.vaddr <= va < s.vaddr + s.memsz ==> #[trigger] vbyte(m2, pd, va) == vbyte(m1, pd, va),
    ensures
        segment_loaded(m2, pd, data, s),
{
    assert forall|va: int| s.vaddr <= va < s.vaddr + seg_copy_len(data.len() as int, s)
        implies #[trigger] vbyte(m2, pd, va) == Some(data[s.offset + va - s.vaddr]) by {
        assert(vbyte(m1, pd, va) == Some(data[s.offset + va - s.vaddr]));
    }
    assert forall|va: int| s.vaddr + s.filesz <= va < s.vaddr + s.memsz implies #[trigger] vbyte(m2, pd, va) == Some(0u8) by {
        assert(vbyte(m1, pd, va) == Some(0u8));
    }
}

/// Lays out the initial stack of a program loaded at boot (see `boot_stack_spec`).
pub fn boot_stack(entry: u32, phnum: u32, phdr_addr: u32) -> (r: StackLayout)
    ensures
        (r.sp, r.table@, r.strings_at, r.strings@) == boot_stack_spec(entry, phnum, phdr_addr),
        stack_placed(r.sp, r.table@, r.strings_at, r.strings@),
{
    let fname_addr: u32 = STACK_TOP - 10;
    let random_addr: u32 = STACK_TOP - 26;
    let aligned = random_addr & !15u32;
    let w: Vec<u32> = vec![1u32, fname_addr, 0u32, 0u32, 0u32, AT_BASE, phdr_addr, AT_PHDR, 32u32, AT_PHENT,
        phnum, AT_PHNUM, 4096u32, AT_PAGESZ, entry, AT_ENTRY, random_addr, AT_RANDOM, 0u32, AT_NULL];
    let mut table: Vec<u8> = Vec::new();
    push_words(&mut table, &w);
    proof {
        lemma_words_len(w@);
        assert(aligned == 0xBFFFFFE0u32) by (bit_vector) requires aligned == 0xBFFFFFE6u32 & !15u32;
    }
    let strings: Vec<u8> = vec![0xdeu8, 0xad, 0xbe, 0xef, 0xca, 0xfe, 0xba, 0xbe, 0xde, 0xad, 0xc0, 0xde, 0xfe, 0xed, 0xfa, 0xce,
        0x68, 0x65, 0x6c, 0x6c, 0x6f, 0x2e, 0x65, 0x6c, 0x66, 0x00];
    let sp = aligned - table.len() as u32;
    StackLayout { sp, table, strings_at: random_addr, strings }
}

/// Whether segment `s` can be loaded where the loader puts user pages.
pub open spec fn seg_ok(s: Segment) -> bool {
    &&& s.filesz <= s.memsz
    &&& 3072 <= first_page(s)
    &&& s.vaddr + s.memsz <= STACK_TOP - STACK_SIZE
}

/// Maps the pages of segment `seg` in the address space of `pd`, copies its file bytes
/// from `data` and zeroes the rest. False when a page cannot be mapped or a byte written.
#[verifier::rlimit(100)]
#[verifier::spinoff_prover]
fn load_segment(pd: &PageDir, frames: &mut FrameAllocator, mem: &mut UserMem, seg: Segment, data: &[u8],
    Ghost(lay): Ghost<bool>, Ghost(good): Ghost<bool>) -> (r: bool)
    requires
        old(frames).wf(),
        frames_fit(*old(frames), *old(mem)),
        pd.phys % 4096 == 0,
        old(mem).contains(pd.phys as int, 4096),
        old(frames).used(pd.phys as int / 4096),
        lay ==> seg_ok(seg) && user_space(*old(frames), old(mem).bytes@, pd.phys),
        good ==> lay,
        good ==> free_count(*old(frames), old(frames).total_frames as int) >= 2 * seg_pages(seg),
        good ==> old(frames).used_frames + 2 * seg_pages(seg) + 16 < usize::MAX,
    ensures
        final(frames).wf(),
        frames_fit(*final(frames), *final(mem)),
        final(frames).total_frames == old(frames).total_frames,
        frames_grow(*old(frames), *final(frames)),
        final(mem).contains(pd.phys as int, 4096),
        good ==> r,
        good ==> free_count(*final(frames), old(frames).total_frames as int) + 2 * seg_pages(seg)
            >= free_count(*old(frames), old(frames).total_frames as int),
        good ==> final(frames).used_frames <= old(frames).used_frames + 2 * seg_pages(seg),
        r && lay ==> {
            &&& user_space(*final(frames), final(mem).bytes@, pd.phys)
            &&& segment_loaded(final(mem).bytes@, pd.phys as int, data@, seg)
            &&& forall|q: int| first_page(seg) <= q < end_page(seg) ==> #[trigger] page_frame(final(mem).bytes@, pd.phys as int, q) is Some
            &&& forall|q: int| 3072 <= q < 0x100000 && !(first_page(seg) <= q < end_page(seg))
                ==> #[trigger] page_frame(final(mem).bytes@, pd.phys as int, q) == page_frame(old(mem).bytes@, pd.phys as int, q)
            &&& forall|va: int| 0 <= va < 0x1_0000_0000 && 3072 <= va / 4096 && !(first_page(seg) <= va / 4096 < end_page(seg))
                && page_frame(old(mem).bytes@, pd.phys as int, va / 4096) is Some
                ==> #[trigger] vbyte(final(mem).bytes@, pd.phys as int, va) == vbyte(old(mem).bytes@, pd.phys as int, va)
        },
{
    let ghost tot = old(frames).total_frames as int;
    let ghost m0 = mem.bytes@;
    let page_start: u64 = (seg.vaddr & !0xFFFu32) as u64;
    let sum: u64 = seg.vaddr as u64 + seg.memsz as u64 + 0xFFF;
    let page_end: u64 = sum & !0xFFFu64;
    proof {
        lemma_page_bits(seg.vaddr, sum);
        assert(page_end <= sum);
    }
    let npages: u64 = if page_end > page_start { (page_end - page_start + 4095) / 4096 } else { 0 };
    proof {
        assert(page_start == first_page(seg) * 4096 && page_end == end_page(seg) * 4096) by (nonlinear_arith)
            requires page_start == seg.vaddr - seg.vaddr % 4096, page_end == sum - sum % 4096,
                sum == seg.vaddr + seg.memsz + 0xFFF;
        assert(npages == seg_pages(seg)) by (nonlinear_arith)
            requires page_start == first_page(seg) * 4096, page_end == end_page(seg) * 4096,
                npages == (if page_end > page_start { (page_end - page_start + 4095) / 4096 } else { 0 });
        if lay {
            assert(end_page(seg) * 4096 <= STACK_TOP) by (nonlinear_arith)
                requires seg.vaddr + seg.memsz <= STACK_TOP - STACK_SIZE;
        }
    }
    let mut k: u64 = 0;
    while k < npages
        invariant
            frames.wf(),
            frames_fit(*frames, *mem),
            frames.total_frames == old(frames).total_frames,
            tot == old(frames).total_frames,
            pd.phys % 4096 == 0,
            mem.contains(pd.phys as int, 4096),
            frames.used(pd.phys as int / 4096),
            frames_grow(*old(frames), *frames),
            npages <= 0x20_0010,
            page_start <= 0xFFFF_FFFF,
            page_start == first_page(seg) * 4096,
            npages == seg_pages(seg),
            k <= npages,
            m0 == old(mem).bytes@,
            lay ==> seg_ok(seg) && end_page(seg) * 4096 <= STACK_TOP,
            good ==> lay,
            lay ==> user_space(*frames, mem.bytes@, pd.phys),
            good ==> free_count(*frames, tot) + 2 * k >= free_count(*old(frames), tot),
            good ==> free_count(*old(frames), tot) >= 2 * seg_pages(seg),
            good ==> frames.used_frames <= old(frames).used_frames + 2 * k,
            good ==> old(frames).used_frames + 2 * seg_pages(seg) + 16 < usize::MAX,
            lay ==> forall|q: int| first_page(seg) <= q < first_page(seg) + k
                ==> #[trigger] page_frame(mem.bytes@, pd.phys as int, q) is Some,
            lay ==> forall|q: int| 3072 <= q < 0x100000 && !(first_page(seg) <= q < first_page(seg) + k)
                ==> #[trigger] page_frame(mem.bytes@, pd.phys as int, q) == page_frame(m0, pd.phys as int, q),
            lay ==> forall|va: int| 0 <= va < 0x1_0000_0000 && 3072 <= va / 4096 && !(first_page(seg) <= va / 4096 < first_page(seg) + k)
                && page_frame(m0, pd.phys as int, va / 4096) is Some
                ==> #[trigger] vbyte(mem.bytes@, pd.phys as int, va) == vbyte(m0, pd.phys as int, va),
        decreases npages - k,
    {
        let page: u64 = page_start + k * 4096;
        proof {
            lemma_pd_ok_seq(*frames, *mem, pd.phys);
            if lay {
                assert(page == (first_page(seg) + k) * 4096) by (nonlinear_arith)
                    requires page == page_start + k * 4096, page_start == first_page(seg) * 4096;
                assert(page / 4096 == first_page(seg) + k) by (nonlinear_arith)
                    requires page == (first_page(seg) + k) * 4096, 0 <= first_page(seg) + k;
                assert(first_page(seg) + k < end_page(seg));
            }
        }
        if page > 0xFFFF_FFFF || !pd_check(frames, mem, pd.phys) || frames.used_frames >= usize::MAX - 8 {
            return false;
        }
        let ghost fb = *frames;
        let ghost mb = mem.bytes@;
        match pd.map_alloc(frames, mem, page as u32, true) {
            Some(_) => {},
            None => {
                proof {
                    if good {
                        if forall|j: int| 0 <= j < fb.total_frames ==> fb.used(j) {
                            crate::frames::lemma_free_count_all_used(fb, tot);
                        } else {
                            let g = choose|g: int| 0 <= g < fb.total_frames && !fb.used(g)
                                && forall|j: int| 0 <= j < fb.total_frames && j != g ==> fb.used(j);
                            crate::paging::lemma_free_count_one(fb, tot, g);
                        }
                    }
                }
                return false;
            },
        }
        assert forall|j: int| 0 <= j < crate::frames::BITMAP_FRAMES && old(frames).used(j) implies #[trigger] frames.used(j) by {
            assert(fb.used(j));
        }
        proof {
            let (a, b) = choose|a: int, b: int| #[trigger] crate::paging::frames_differ_at(fb, *frames, a, b);
            lemma_free_count_two(fb, *frames, a, b, tot);
            if lay {
                assert forall|q: int| first_page(seg) <= q < first_page(seg) + k + 1
                    implies #[trigger] page_frame(mem.bytes@, pd.phys as int, q) is Some by {
                    if q < first_page(seg) + k {
                        assert(page_frame(mb, pd.phys as int, q) is Some);
                    }
                }
                assert forall|q: int| 3072 <= q < 0x100000 && !(first_page(seg) <= q < first_page(seg) + k + 1)
                    implies #[trigger] page_frame(mem.bytes@, pd.phys as int, q) == page_frame(m0, pd.phys as int, q) by {
                    assert(page_frame(mb, pd.phys as int, q) == page_frame(m0, pd.phys as int, q));
                }
                assert forall|va: int| 0 <= va < 0x1_0000_0000 && 3072 <= va / 4096 && !(first_page(seg) <= va / 4096 < first_page(seg) + k + 1)
                    && page_frame(m0, pd.phys as int, va / 4096) is Some
                    implies #[trigger] vbyte(mem.bytes@, pd.phys as int, va) == vbyte(m0, pd.phys as int, va) by {
                    assert(page_frame(mb, pd.phys as int, va / 4096) == page_frame(m0, pd.phys as int, va / 4096));
                    assert(vbyte(mb, pd.phys as int, va) == vbyte(m0, pd.phys as int, va));
                }
            }
        }
        k = k + 1;
    }
    let avail: usize = if data.len() > seg.offset as usize { data.len() - seg.offset as usize } else { 0 };
    let copy_len: usize = if (seg.filesz as usize) < avail { seg.filesz as usize } else { avail };
    let ghost m_copy = mem.bytes@;
    proof {
        assert(copy_len == seg_copy_len(data@.len() as int, seg));
        lemma_pd_ok_seq(*frames, *mem, pd.phys);
    }
    if copy_len > 0 {
        proof {
            if lay {
                assert forall|kk: int| 0 <= kk < copy_len implies 3072 <= (seg.vaddr + kk) / 4096
                    && #[trigger] page_frame(mem.bytes@, pd.phys as int, (seg.vaddr + kk) / 4096) is Some by {
                    lemma_in_seg_pages(seg, seg.vaddr + kk);
                }
                lemma_write_walk(*frames, mem.bytes@, pd.phys, seg.vaddr as int, data@, seg.offset as int, 0, copy_len as int);
            }
        }
        if !pd.write_virt(mem, seg.vaddr, data, seg.offset as usize, copy_len) {
            return false;
        }
    }
    let ghost m_zero = mem.bytes@;
    proof {
        if lay {
            assert forall|q: int| 3072 <= q < 0x100000
                implies #[trigger] page_frame(m_zero, pd.phys as int, q) == page_frame(m_copy, pd.phys as int, q) by {}
        }
    }
    if seg.memsz > seg.filesz {
        if seg.vaddr as u64 + seg.filesz as u64 > 0xFFFF_FFFF {
            return false;
        }
        proof {
            lemma_pd_ok_seq(*frames, *mem, pd.phys);
            if lay {
                assert forall|kk: int| 0 <= kk < seg.memsz - seg.filesz implies 3072 <= (seg.vaddr + seg.filesz + kk) / 4096
                    && #[trigger] page_frame(mem.bytes@, pd.phys as int, (seg.vaddr + seg.filesz + kk) / 4096) is Some by {
                    lemma_in_seg_pages(seg, seg.vaddr + seg.filesz + kk);
                    assert(page_frame(m_copy, pd.phys as int, (seg.vaddr + seg.filesz + kk) / 4096) is Some);
                }
                lemma_zero_walk(*frames, mem.bytes@, pd.phys, (seg.vaddr + seg.filesz) as int, 0, (seg.memsz - seg.filesz) as int);
            }
        }
        if !pd.zero_virt(mem, seg.vaddr + seg.filesz, seg.memsz - seg.filesz) {
            return false;
        }
    }
    proof {
        let m_end = mem.bytes@;
        if lay {
            assert forall|q: int| 3072 <= q < 0x100000
                implies #[trigger] page_frame(m_end, pd.phys as int, q) == page_frame(m_copy, pd.phys as int, q) by {
                assert(page_frame(m_zero, pd.phys as int, q) == page_frame(m_copy, pd.phys as int, q));
            }
            assert forall|va: int| 0 <= va < 0x1_0000_0000 && 3072 <= va / 4096 && !(first_page(seg) <= va / 4096 < end_page(seg))
                && page_frame(m0, pd.phys as int, va / 4096) is Some
                implies #[trigger] vbyte(m_end, pd.phys as int, va) == vbyte(m0, pd.phys as int, va) by {
                assert(page_frame(m_copy, pd.phys as int, va / 4096) is Some);
                if seg.vaddr <= va < seg.vaddr + seg.memsz {
                    lemma_in_seg_pages(seg, va);
                }
                assert(vbyte(m_zero, pd.phys as int, va) == vbyte(m_copy, pd.phys as int, va));
                assert(page_frame(m_zero, pd.phys as int, va / 4096) is Some);
            }
            assert forall|va: int| seg.vaddr <= va < seg.vaddr + seg_copy_len(data@.len() as int, seg)
                implies #[trigger] vbyte(m_end, pd.phys as int, va) == Some(data@[seg.offset + va - seg.vaddr]) by {
                lemma_in_seg_pages(seg, va);
                assert(page_frame(m_zero, pd.phys as int, va / 4096) is Some);
                assert(vbyte(m_zero, pd.phys as int, va) == Some(data@[seg.offset + va - seg.vaddr]));
            }
            assert(segment_loaded(m_end, pd.phys as int, data@, seg));
        }
    }
    true
}

/// Maps the user stack in the address space of `pd` and writes `stack` into it. False when
/// a page cannot be mapped or a byte written.
#[verifier::rlimit(100)]
#[verifier::spinoff_prover]
fn load_stack(pd: &PageDir, frames: &mut FrameAllocator, mem: &mut UserMem, stack: &StackLayout,
    Ghost(lay): Ghost<bool>, Ghost(good): Ghost<bool>) -> (r: bool)
    requires
        old(frames).wf(),
        frames_fit(*old(frames), *old(mem)),
        pd.phys % 4096 == 0,
        old(mem).contains(pd.phys as int, 4096),
        old(frames).used(pd.phys as int / 4096),
        lay ==> stack_placed(stack.sp, stack.table@, stack.strings_at, stack.strings@)
            && user_space(*old(frames), old(mem).bytes@, pd.phys),
        good ==> lay,
        good ==> free_count(*old(frames), old(frames).total_frames as int) >= 2 * (STACK_SIZE / 4096),
        good ==> old(frames).used_frames + 4 * (STACK_SIZE / 4096) + 16 < usize::MAX,
    ensures
        final(frames).wf(),
        frames_fit(*final(frames), *final(mem)),
        final(frames).total_frames == old(frames).total_frames,
        frames_grow(*old(frames), *final(frames)),
        final(frames).used_frames <= old(frames).used_frames + 4 * (STACK_SIZE / 4096),
        good ==> r,
        r && lay ==> {
            &&& stack_loaded(final(mem).bytes@, pd.phys as int, stack.sp, stack.table@, stack.strings_at, stack.strings@)
            &&& forall|va: int| 0 <= va < STACK_TOP - STACK_SIZE && 3072 <= va / 4096
                && page_frame(old(mem).bytes@, pd.phys as int, va / 4096) is Some
                ==> #[trigger] vbyte(final(mem).bytes@, pd.phys as int, va) == vbyte(old(mem).bytes@, pd.phys as int, va)
        },
{
    let ghost s0 = (STACK_TOP - STACK_SIZE) as int / 4096;
    let ghost m0 = mem.bytes@;
    proof {
        lemma_pd_ok_seq(*old(frames), *old(mem), pd.phys);
    }
    if !pd_check(frames, mem, pd.phys) || frames.used_frames >= usize::MAX - 4 * (STACK_SIZE as usize / 4096) - 8 {
        return false;
    }
    let ghost fb = *frames;
    if !pd.alloc_stack(frames, mem, STACK_TOP, STACK_SIZE) {
        return false;
    }
    assert forall|j: int| 0 <= j < crate::frames::BITMAP_FRAMES && old(frames).used(j) implies #[trigger] frames.used(j) by {
        assert(fb.used(j));
    }
    let ghost m_s1 = mem.bytes@;
    proof {
        lemma_pd_ok_seq(*frames, *mem, pd.phys);
        assert(s0 == 786416);
        if lay {
            assert forall|kk: int| 0 <= kk < stack.strings@.len() implies 3072 <= (stack.strings_at + kk) / 4096
                && #[trigger] page_frame(mem.bytes@, pd.phys as int, (stack.strings_at + kk) / 4096) is Some by {
                let va = stack.strings_at + kk;
                assert(s0 <= va / 4096 < s0 + 16) by (nonlinear_arith)
                    requires STACK_TOP - STACK_SIZE <= va < STACK_TOP, s0 == (STACK_TOP - STACK_SIZE) as int / 4096;
            }
            lemma_write_walk(*frames, mem.bytes@, pd.phys, stack.strings_at as int, stack.strings@, 0, 0, stack.strings@.len() as int);
        }
    }
    if !pd.write_virt(mem, stack.strings_at, stack.strings.as_slice(), 0, stack.strings.len()) {
        return false;
    }
    let ghost m_s2 = mem.bytes@;
    proof {
        lemma_pd_ok_seq(*frames, *mem, pd.phys);
        if lay {
            assert forall|kk: int| 0 <= kk < stack.table@.len() implies 3072 <= (stack.sp + kk) / 4096
                && #[trigger] page_frame(mem.bytes@, pd.phys as int, (stack.sp + kk) / 4096) is Some by {
                let va = stack.sp + kk;
                assert(s0 <= va / 4096 < s0 + 16) by (nonlinear_arith)
                    requires STACK_TOP - STACK_SIZE <= va < STACK_TOP, s0 == (STACK_TOP - STACK_SIZE) as int / 4096;
                assert(page_frame(m_s1, pd.phys as int, va / 4096) is Some);
            }
            lemma_write_walk(*frames, mem.bytes@, pd.phys, stack.sp as int, stack.table@, 0, 0, stack.table@.len() as int);
        }
    }
    if !pd.write_virt(mem, stack.sp, stack.table.as_slice(), 0, stack.table.len()) {
        return false;
    }
    proof {
        let m_f = mem.bytes@;
        if lay {
            assert forall|va: int| 0 <= va < STACK_TOP - STACK_SIZE && 3072 <= va / 4096
                && page_frame(m0, pd.phys as int, va / 4096) is Some
                implies #[trigger] vbyte(m_f, pd.phys as int, va) == vbyte(m0, pd.phys as int, va) by {
                assert(va / 4096 < s0) by (nonlinear_arith)
                    requires 0 <= va < STACK_TOP - STACK_SIZE, s0 == (STACK_TOP - STACK_SIZE) as int / 4096;
                assert(page_frame(m_s1, pd.phys as int, va / 4096) is Some);
                assert(vbyte(m_s1, pd.phys as int, va) == vbyte(m0, pd.phys as int, va));
                assert(vbyte(m_s2, pd.phys as int, va) == vbyte(m_s1, pd.phys as int, va));
                assert(page_frame(m_s2, pd.phys as int, va / 4096) is Some);
            }
            assert forall|va: int| stack.strings_at <= va < stack.strings_at + stack.strings@.len()
                && !(stack.sp <= va < stack.sp + stack.table@.len())
                implies #[trigger] vbyte(m_f, pd.phys as int, va) == Some(stack.strings@[va - stack.strings_at]) by {
                assert(s0 <= va / 4096 < s0 + 16) by (nonlinear_arith)
                    requires STACK_TOP - STACK_SIZE <= va < STACK_TOP, s0 == (STACK_TOP - STACK_SIZE) as int / 4096;
                assert(vbyte(m_s2, pd.phys as int, va) == Some(stack.strings@[va - stack.strings_at]));
                assert(page_frame(m_s2, pd.phys as int, va / 4096) is Some);
            }
        }
    }
    true
}

/// Builds a new address space for `img` (with the bytes of the file in `data`) in physical
/// memory `mem`: a fresh directory with the kernel identity-mapped, the pages of every
/// loadable segment mapped, its file bytes copied and the rest zeroed, the user stack
/// mapped and `stack` written into it. Returns the directory, the entry point and the
/// stack pointer. Errors: `PagingError` when no frame is free for the directory,
/// `LoadError` when a segment cannot be mapped or written, `StackError` when the stack
/// cannot. It succeeds when the segments lie side by side above the kernel's 12 MiB and
/// below the stack, the stack's contents lie in the stack, and the frames suffice.
#[verifier::rlimit(100)]
#[verifier::spinoff_prover]
pub fn load_image(frames: &mut FrameAllocator, mem: &mut UserMem, img: &ElfImage, data: &[u8], stack: &StackLayout)
    -> (r: Result<(u32, u32, u32), ElfError>)
    requires
        old(frames).wf(),
        frames_fit(*old(frames), *old(mem)),
        old(frames).used_frames < usize::MAX - 8,
    ensures
        final(frames).wf(),
        frames_fit(*final(frames), *final(mem)),
        final(frames).total_frames == old(frames).total_frames,
        frames_grow(*old(frames), *final(frames)),
        match r {
            Ok((pd, entry, sp)) => {
                &&& entry == img.entry
                &&& sp == stack.sp
                &&& pd % 4096 == 0
                &&& !old(frames).used(pd as int / 4096)
                &&& final(frames).used(pd as int / 4096)
            },
            Err(e) => e == ElfError::PagingError || e == ElfError::LoadError || e == ElfError::StackError,
        },
        layout_ok(img.segments@) && stack_placed(stack.sp, stack.table@, stack.strings_at, stack.strings@)
            && load_room(*old(frames), img.segments@) ==> r is Ok
                && final(frames).used_frames <= old(frames).used_frames + 2 * load_frames(img.segments@),
        r matches Ok((pd, _, _)) ==> (layout_ok(img.segments@)
            && stack_placed(stack.sp, stack.table@, stack.strings_at, stack.strings@) ==> {
            &&& forall|t: int| 0 <= t < img.segments@.len()
                ==> #[trigger] segment_loaded(final(mem).bytes@, pd as int, data@, img.segments@[t])
            &&& stack_loaded(final(mem).bytes@, pd as int, stack.sp, stack.table@, stack.strings_at, stack.strings@)
        }),
{
    let ghost segs = img.segments@;
    let ghost tot = old(frames).total_frames as int;
    let ghost lay = layout_ok(segs) && stack_placed(stack.sp, stack.table@, stack.strings_at, stack.strings@);
    let ghost good = lay && load_room(*old(frames), segs);
    let ghost all_pages = pages_total(segs, segs.len() as int);
    let pd = match PageDir::new(frames, mem) {
        Some(p) => p,
        None => {
            proof {
                if good {
                    crate::frames::lemma_free_count_all_used(*old(frames), tot);
                    lemma_pages_total_mono(segs, 0, segs.len() as int);
                    assert(load_frames(segs) >= 4);
                }
            }
            return Err(ElfError::PagingError);
        },
    };
    proof {
        lemma_free_count_two(*old(frames), *frames, pd.phys as int / 4096, pd.phys as int / 4096, tot);
        crate::paging::lemma_frame_aligned(0u32);
        assert forall|i: int| 0 <= i < 1024 implies #[trigger] entry_at(mem.bytes@, pd.phys as int, i) == 0u32 by {
            crate::paging::lemma_word_zero(old(mem).bytes@, pd.phys as int, pd.phys + 4 * i);
        }
        assert forall|i: int| 0 <= i < 1024 implies !present(#[trigger] crate::usermem::word_at(mem.bytes@, pd.phys + 4 * i)) by {
            assert(entry_at(mem.bytes@, pd.phys as int, i) == 0u32);
        }
        assert(pd_ok(*frames, *mem, pd.phys));
    }
    if !pd_check(frames, mem, pd.phys) {
        return Err(ElfError::PagingError);
    }
    if frames.used_frames >= usize::MAX - 8 {
        proof {
            if good {
                lemma_pages_total_mono(segs, 0, segs.len() as int);
                assert(pages_total(segs, 0) == 0);
                assert(load_frames(segs) >= 4);
                assert(old(frames).used_frames + 2 * load_frames(segs) + 64 < usize::MAX);
                assert(frames.used_frames == old(frames).used_frames + 1);
                assert(false);
            }
        }
        return Err(ElfError::PagingError);
    }
    let ghost fb = *frames;
    let ghost mb = mem.bytes@;
    pd.identity_map_kernel(frames, mem);
    assert forall|j: int| 0 <= j < crate::frames::BITMAP_FRAMES && old(frames).used(j) implies #[trigger] frames.used(j) by {
        assert(fb.used(j));
    }
    proof {
        lemma_pd_ok_seq(*frames, *mem, pd.phys);
        assert forall|i: int| 3 <= i < 1024 implies !present(#[trigger] entry_at(mem.bytes@, pd.phys as int, i)) by {
            assert(entry_at(mb, pd.phys as int, i) == 0u32);
        }
        assert forall|q: int| 3072 <= q < 0x100000 implies #[trigger] page_frame(mem.bytes@, pd.phys as int, q) is None by {
            assert((q * 4096) / 4096 == q) by (nonlinear_arith) requires 0 <= q;
            let k = crate::paging::pd_index(q * 4096);
            assert(3 <= k < 1024);
            assert(!present(entry_at(mem.bytes@, pd.phys as int, k)));
        }
        assert(user_space(*frames, mem.bytes@, pd.phys));
        if good {
            lemma_pages_total_mono(segs, 0, segs.len() as int);
        }
    }
    let mut si: usize = 0;
    while si < img.segments.len()
        invariant
            frames.wf(),
            frames_fit(*frames, *mem),
            frames.total_frames == old(frames).total_frames,
            tot == old(frames).total_frames,
            segs == img.segments@,
            pd.phys % 4096 == 0,
            mem.contains(pd.phys as int, 4096),
            pd.phys as int / 4096 < tot,
            !old(frames).used(pd.phys as int / 4096),
            frames.used(pd.phys as int / 4096),
            frames_grow(*old(frames), *frames),
            si <= img.segments@.len(),
            lay == (layout_ok(segs) && stack_placed(stack.sp, stack.table@, stack.strings_at, stack.strings@)),
            good == (lay && load_room(*old(frames), segs)),
            all_pages == pages_total(segs, segs.len() as int),
            lay ==> user_space(*frames, mem.bytes@, pd.phys),
            good ==> free_count(*frames, tot) >= 2 * (all_pages - pages_total(segs, si as int)) + 2 * (STACK_SIZE / 4096),
            good ==> frames.used_frames <= old(frames).used_frames + 4 + 2 * pages_total(segs, si as int),
            good ==> old(frames).used_frames + 2 * load_frames(segs) + 64 < usize::MAX,
            lay ==> forall|t: int| 0 <= t < si ==> #[trigger] segment_loaded(mem.bytes@, pd.phys as int, data@, segs[t]),
            lay ==> forall|t: int, q: int| 0 <= t < si && first_page(segs[t]) <= q < end_page(segs[t])
                ==> #[trigger] page_frame(mem.bytes@, pd.phys as int, q) is Some && #[trigger] segs[t] == segs[t],
        decreases img.segments@.len() - si,
    {
        let seg = img.segments[si];
        let ghost mb = mem.bytes@;
        proof {
            if good {
                lemma_pages_total_mono(segs, si + 1, segs.len() as int);
                assert(pages_total(segs, si + 1) == pages_total(segs, si as int) + seg_pages(seg));
            }
            if lay {
                assert(seg_ok(seg)) by {
                    assert(seg == segs[si as int]);
                }
            }
        }
        if !load_segment(&pd, frames, mem, seg, data, Ghost(lay), Ghost(good)) {
            return Err(ElfError::LoadError);
        }
        proof {
            assert(frames.used(pd.phys as int / 4096));
            let me = mem.bytes@;
            if lay {
                assert forall|t: int| 0 <= t < si + 1 implies #[trigger] segment_loaded(me, pd.phys as int, data@, segs[t]) by {
                    if t < si {
                        let st = segs[t];
                        assert(seg_ok(st));
                        assert(end_page(st) <= first_page(seg) || end_page(seg) <= first_page(st));
                        assert forall|va: int| st.vaddr <= va < st.vaddr + st.memsz
                            implies #[trigger] vbyte(me, pd.phys as int, va) == vbyte(mb, pd.phys as int, va) by {
                            lemma_in_seg_pages(st, va);
                            assert(page_frame(mb, pd.phys as int, va / 4096) is Some && segs[t] == segs[t]);
                        }
                        lemma_loaded_kept(mb, me, pd.phys as int, data@, st);
                    }
                }
                assert forall|t: int, q: int| 0 <= t < si + 1 && first_page(segs[t]) <= q < end_page(segs[t])
                    implies #[trigger] page_frame(me, pd.phys as int, q) is Some && #[trigger] segs[t] == segs[t] by {
                    if t < si {
                        let st = segs[t];
                        assert(seg_ok(st));
                        assert(end_page(st) <= first_page(seg) || end_page(seg) <= first_page(st));
                        assert(page_frame(mb, pd.phys as int, q) is Some && segs[t] == segs[t]);
                        assert(end_page(st) * 4096 <= STACK_TOP) by (nonlinear_arith)
                            requires st.vaddr + st.memsz <= STACK_TOP - STACK_SIZE;
                    }
                }
            }
        }
        si = si + 1;
    }
    let ghost mb = mem.bytes@;
    if !load_stack(&pd, frames, mem, stack, Ghost(lay), Ghost(good)) {
        return Err(ElfError::StackError);
    }
    proof {
        let me = mem.bytes@;
        if lay {
            assert forall|t: int| 0 <= t < segs.len() implies #[trigger] segment_loaded(me, pd.phys as int, data@, segs[t]) by {
                let st = segs[t];
                assert(seg_ok(st));
                assert forall|va: int| st.vaddr <= va < st.vaddr + st.memsz
                    implies #[trigger] vbyte(me, pd.phys as int, va) == vbyte(mb, pd.phys as int, va) by {
                    lemma_in_seg_pages(st, va);
                    assert(page_frame(mb, pd.phys as int, va / 4096) is Some && segs[t] == segs[t]);
                }
                lemma_loaded_kept(mb, me, pd.phys as int, data@, st);
            }
        }
    }
    Ok((pd.phys, img.entry, stack.sp))
}

/// The segments an executable's program headers ask the loader to map.
pub open spec fn elf_segments(d: Seq<u8>) -> Seq<Segment> {
    load_segments(d, u16_at(d, 44) as int)
}

/// Whether `data` is an executable whose segments can be loaded side by side (see
/// `layout_ok`) with `f` holding the frames that takes (see `load_room`).
pub open spec fn elf_loadable(f: FrameAllocator, data: Seq<u8>) -> bool {
    &&& header_error(data) is None
    &&& layout_ok(elf_segments(data))
    &&& load_room(f, elf_segments(data))
}

/// Whether memory `m`, read through directory `pd`, holds every segment of `data`.
pub open spec fn elf_loaded(m: Seq<u8>, pd: int, data: Seq<u8>) -> bool {
    forall|t: int| 0 <= t < elf_segments(data).len() ==> #[trigger] segment_loaded(m, pd, data, elf_segments(data)[t])
}

/// Loads an executable at boot (the stack of `boot_stack`; see `load_image`): succeeds on
/// an executable that `elf_loadable` accepts, and then memory holds its segments and stack.
pub fn load_elf(frames: &mut FrameAllocator, mem: &mut UserMem, data: &[u8]) -> (r: Result<(u32, u32, u32), ElfError>)
    requires
        old(frames).wf(),
        frames_fit(*old(frames), *old(mem)),
        old(frames).used_frames < usize::MAX - 8,
    ensures
        final(frames).wf(),
        frames_fit(*final(frames), *final(mem)),
        header_error(data@) matches Some(e) ==> r == Err::<(u32, u32, u32), ElfError>(e) && *final(frames) == *old(frames) && *final(mem) == *old(mem),
        elf_loadable(*old(frames), data@) ==> r is Ok
            && final(frames).used_frames <= old(frames).used_frames + 2 * load_frames(elf_segments(data@)),
        r matches Ok((pd, entry, sp)) ==> {
            let st = boot_stack_spec(entry, u16_at(data@, 44) as u32, phdr_addr_of(data@, u16_at(data@, 44) as int));
            &&& entry == u32_at(data@, 24)
            &&& sp == st.0
            &&& pd % 4096 == 0
            &&& !old(frames).used(pd as int / 4096)
            &&& final(frames).used(pd as int / 4096)
            &&& layout_ok(elf_segments(data@)) ==> {
                &&& elf_loaded(final(mem).bytes@, pd as int, data@)
                &&& stack_loaded(final(mem).bytes@, pd as int, st.0, st.1, st.2, st.3)
            }
        },
{
    let img = match parse_elf(data) {
        Ok(i) => i,
        Err(e) => return Err(e),
    };
    let stack = boot_stack(img.entry, img.phnum as u32, img.phdr_addr);
    load_image(frames, mem, &img, data, &stack)
}

/// Loads an executable for `execve` with arguments `argv` and environment `envp` (each
/// string with its terminating zero; see `exec_stack_spec`): succeeds on an executable that
/// `elf_loadable` accepts, and then memory holds its segments and stack.
pub fn exec_elf(frames: &mut FrameAllocator, mem: &mut UserMem, data: &[u8], argv: &Vec<Vec<u8>>, envp: &Vec<Vec<u8>>)
    -> (r: Result<(u32, u32, u32), ElfError>)
    requires
        old(frames).wf(),
        frames_fit(*old(frames), *old(mem)),
        old(frames).used_frames < usize::MAX - 8,
        header_error(data@) is None ==>
            concat(deep(argv@)).len() + concat(deep(envp@)).len() + 4 * (argv@.len() + envp@.len()) + 128 <= STACK_SIZE,
    ensures
        final(frames).wf(),
        frames_fit(*final(frames), *final(mem)),
        header_error(data@) matches Some(e) ==> r == Err::<(u32, u32, u32), ElfError>(e) && *final(frames) == *old(frames) && *final(mem) == *old(mem),
        elf_loadable(*old(frames), data@) ==> r is Ok
            && final(frames).used_frames <= old(frames).used_frames + 2 * load_frames(elf_segments(data@)),
        r matches Ok((pd, entry, sp)) ==> {
            let st = exec_stack_spec(deep(argv@), deep(envp@), entry, u16_at(data@, 44) as u32,
                phdr_addr_of(data@, u16_at(data@, 44) as int));
            &&& entry == u32_at(data@, 24)
            &&& sp == st.0
            &&& pd % 4096 == 0
            &&& !old(frames).used(pd as int / 4096)
            &&& final(frames).used(pd as int / 4096)
            &&& layout_ok(elf_segments(data@)) ==> {
                &&& elf_loaded(final(mem).bytes@, pd as int, data@)
                &&& stack_loaded(final(mem).bytes@, pd as int, st.0, st.1, st.2, st.3)
            }
        },
{
    let img = match parse_elf(data) {
        Ok(i) => i,
        Err(e) => return Err(e),
    };
    let stack = exec_stack(argv, envp, img.entry, img.phnum as u32, img.phdr_addr);
    load_image(frames, mem, &img, data, &stack)
}

} // verus!
