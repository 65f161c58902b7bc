//! Two-level i686 page tables kept in physical memory: a directory of 1024 entries, each
//! pointing to a table of 1024 page entries. Physical memory is a byte window at base 0.
use vstd::prelude::*;
use crate::frames::{FrameAllocator, FRAME_SIZE, BITMAP_FRAMES, free_count, lemma_free_count_two, lemma_free_count_all_used};
use crate::usermem::{UserMem, le_bytes, overwrite, word_at};

verus! {

pub const PAGE_SIZE: u32 = 4096;
pub const ENTRIES: u32 = 1024;
pub const PDE_P: u32 = 1;
pub const PDE_RW: u32 = 2;
pub const PDE_US: u32 = 4;
pub const PTE_P: u32 = 1;
pub const PTE_RW: u32 = 2;
pub const PTE_US: u32 = 4;

/// A page directory, named by the physical address of its frame.
#[derive(Clone, Copy, PartialEq, Eq, Structural, Debug)]
pub struct PageDir {
    pub phys: u32,
}

/// The directory slot that covers virtual address `v`.
pub open spec fn pd_index(v: int) -> int {
    (v / 4096) / 1024
}

/// The table slot that covers virtual address `v`.
pub open spec fn pt_index(v: int) -> int {
    (v / 4096) % 1024
}

/// The frame an entry points to.
pub open spec fn frame_of(e: u32) -> u32 {
    e & 0xFFFFF000
}

/// Whether an entry is present.
pub open spec fn present(e: u32) -> bool {
    e & 1 != 0
}

/// The entry flags for a page or table: present, writable, and user-accessible if asked.
pub open spec fn entry_flags(user: bool) -> u32 {
    if user { 7u32 } else { 3u32 }
}

/// The physical frame that virtual address `v` maps to under directory `pd`, if any.
pub open spec fn translate(m: Seq<u8>, pd: int, v: int) -> Option<u32> {
    let pde = word_at(m, pd + 4 * pd_index(v));
    if !present(pde) {
        None
    } else {
        let pte = word_at(m, frame_of(pde) + 4 * pt_index(v));
        if !present(pte) { None } else { Some(frame_of(pte)) }
    }
}

/// What `translate` gives in physical memory `m` (starting at address 0) when the page
/// table it goes through lies in `m`, and `None` when it does not.
pub open spec fn translate_bytes(m: Seq<u8>, pd: int, v: int) -> Option<u32> {
    let pde = word_at(m, pd + 4 * pd_index(v));
    if present(pde) && !(frame_of(pde) + 4096 <= m.len() && frame_of(pde) + 4096 <= 0x1_0000_0000) { None }
    else { translate(m, pd, v) }
}

/// The physical address of virtual byte `va` in `m`, when `va` is a 32-bit address that
/// translates (see `translate_bytes`) to a byte inside `m`.
pub open spec fn byte_target(m: Seq<u8>, pd: int, va: int) -> Option<int> {
    if va < 0 || va > 0xFFFF_FFFF { None } else {
        match translate_bytes(m, pd, va) {
            None => None,
            Some(f) => {
                let pa = f + ((va as u32) & 0xFFFu32);
                if pa + 1 <= m.len() && pa + 1 <= 0x1_0000_0000 { Some(pa) } else { None }
            },
        }
    }
}

/// Copies `data[from + i ..]`, byte by byte, to the virtual bytes `v + i ..` below
/// `v + n`, each translated in memory as the copy has left it; stops, false, at the first
/// byte that does not translate. The result and the memory after.
pub open spec fn write_walk(m: Seq<u8>, pd: int, v: int, data: Seq<u8>, from: int, i: int, n: int) -> (bool, Seq<u8>)
    decreases n - i,
{
    if i >= n { (true, m) } else {
        match byte_target(m, pd, v + i) {
            None => (false, m),
            Some(pa) => write_walk(m.update(pa, data[from + i]), pd, v, data, from, i + 1, n),
        }
    }
}

/// Clears the virtual bytes `v + i ..` below `v + n` as `write_walk` copies.
pub open spec fn zero_walk(m: Seq<u8>, pd: int, v: int, i: int, n: int) -> (bool, Seq<u8>)
    decreases n - i,
{
    if i >= n { (true, m) } else {
        match byte_target(m, pd, v + i) {
            None => (false, m),
            Some(pa) => zero_walk(m.update(pa, 0u8), pd, v, i + 1, n),
        }
    }
}

/// The byte at virtual address `va` under directory `pd` in `m`, when it translates.
pub open spec fn vbyte(m: Seq<u8>, pd: int, va: int) -> Option<u8> {
    match byte_target(m, pd, va) {
        Some(pa) => Some(m[pa]),
        None => None,
    }
}

/// Word `i` of the directory or table at `t` in `m`.
pub open spec fn entry_at(m: Seq<u8>, t: int, i: int) -> u32 {
    word_at(m, t + 4 * i)
}

/// The frame that user page `p` (the page at `p * 4096`) maps to under directory `pd`.
pub open spec fn page_frame(m: Seq<u8>, pd: int, p: int) -> Option<u32> {
    translate(m, pd, p * 4096)
}

/// `pd_ok` for physical memory given as its bytes (at address 0).
pub open spec fn pd_ok_seq(f: FrameAllocator, m: Seq<u8>, pd: u32) -> bool {
    &&& pd % 4096 == 0
    &&& pd + 4096 <= m.len()
    &&& pd + 4096 <= 0x1_0000_0000
    &&& (pd as int) / 4096 < f.total_frames
    &&& f.used(pd as int / 4096)
    &&& forall|i: int| 0 <= i < 1024 ==> {
        let e = #[trigger] word_at(m, pd + 4 * i);
        present(e) ==> {
            &&& frame_of(e) + 4096 <= m.len()
            &&& frame_of(e) + 4096 <= 0x1_0000_0000
            &&& frame_of(e) != pd
            &&& (frame_of(e) as int) / 4096 < f.total_frames
            &&& f.used(frame_of(e) as int / 4096)
        }
    }
}

/// For memory at address 0, `pd_ok` is `pd_ok_seq` of its bytes.
pub proof fn lemma_pd_ok_seq(f: FrameAllocator, m: UserMem, pd: u32)
    requires
        m.base == 0,
    ensures
        pd_ok(f, m, pd) == pd_ok_seq(f, m.bytes@, pd),
{
}

/// With every frame below `n` but `g` used, at most one of them is free.
pub proof fn lemma_free_count_one(f: FrameAllocator, n: int, g: int)
    requires
        forall|j: int| 0 <= j < n && j != g ==> f.used(j),
    ensures
        free_count(f, n) <= 1,
        !(0 <= g < n) ==> free_count(f, n) == 0,
    decreases n,
{
    if n > 0 {
        lemma_free_count_one(f, n - 1, g);
    }
}

/// Whether `o` and `f` mark the same frames used, but for frames `a` and `b`.
pub open spec fn frames_differ_at(o: FrameAllocator, f: FrameAllocator, a: int, b: int) -> bool {
    forall|j: int| 0 <= j < BITMAP_FRAMES && j != a && j != b ==> #[trigger] f.used(j) == o.used(j)
}

/// The user half of an address space built by the loader, above the 12 MiB the kernel maps
/// (directory entries 3 on): the directory is sound, its entries from 3 on point to
/// distinct tables, and every page mapped there goes to its own frame in use, which is
/// neither the directory nor a table.
pub open spec fn user_space(f: FrameAllocator, m: Seq<u8>, pd: u32) -> bool {
    &&& pd_ok_seq(f, m, pd)
    &&& user_tables_apart(m, pd)
    &&& user_frames_ok(f, m, pd)
    &&& user_frames_apart(m, pd)
}

/// The directory entries from 3 on point to distinct tables.
pub open spec fn user_tables_apart(m: Seq<u8>, pd: u32) -> bool {
    forall|i: int, j: int| #![trigger entry_at(m, pd as int, i), entry_at(m, pd as int, j)]
        3 <= i < 1024 && 3 <= j < 1024 && i != j && present(entry_at(m, pd as int, i))
        && present(entry_at(m, pd as int, j))
        ==> frame_of(entry_at(m, pd as int, i)) != frame_of(entry_at(m, pd as int, j))
}

/// Every mapped user page goes to an aligned frame in use that is neither the directory nor
/// a table.
pub open spec fn user_frames_ok(f: FrameAllocator, m: Seq<u8>, pd: u32) -> bool {
    forall|p: int| 3072 <= p < 0x100000 ==> (#[trigger] page_frame(m, pd as int, p) matches Some(x) ==> {
        &&& x % 4096 == 0
        &&& (x as int) / 4096 < f.total_frames
        &&& f.used(x as int / 4096)
        &&& x != pd
        &&& forall|i: int| 0 <= i < 1024 && present(#[trigger] entry_at(m, pd as int, i))
            ==> frame_of(entry_at(m, pd as int, i)) != x
    })
}

/// Different mapped user pages go to different frames.
pub open spec fn user_frames_apart(m: Seq<u8>, pd: u32) -> bool {
    forall|p: int, q: int| #![trigger page_frame(m, pd as int, p), page_frame(m, pd as int, q)]
        3072 <= p < 0x100000 && 3072 <= q < 0x100000 && p != q && page_frame(m, pd as int, p) is Some
        ==> page_frame(m, pd as int, p) != page_frame(m, pd as int, q)
}

/// Physical memory `m` with the 4096 bytes at `a` zeroed.
pub open spec fn zero_page(m: Seq<u8>, a: int) -> Seq<u8> {
    overwrite(m, a, Seq::new(4096, |i: int| 0u8))
}

/// Whether every frame the allocator hands out lies inside physical memory `m`.
pub open spec fn frames_fit(f: FrameAllocator, m: UserMem) -> bool {
    &&& m.base == 0
    &&& f.total_frames * 4096 <= m.bytes@.len()
    &&& m.bytes@.len() <= 0x1_0000_0000
}

/// Whether every present entry of directory `pd` points to a table that lies in memory, is
/// not the directory itself and is a frame in use.
pub open spec fn pd_ok(f: FrameAllocator, m: UserMem, pd: u32) -> bool {
    &&& pd % 4096 == 0
    &&& m.contains(pd as int, 4096)
    &&& (pd as int) / 4096 < f.total_frames
    &&& f.used(pd as int / 4096)
    &&& forall|i: int| 0 <= i < 1024 ==> {
        let e = #[trigger] word_at(m.bytes@, pd + 4 * i);
        present(e) ==> {
            &&& m.contains(frame_of(e) as int, 4096)
            &&& frame_of(e) != pd
            &&& (frame_of(e) as int) / 4096 < f.total_frames
            &&& f.used(frame_of(e) as int / 4096)
        }
    }
}

/// Every frame in use stays in use.
pub open spec fn frames_grow(o: FrameAllocator, f: FrameAllocator) -> bool {
    forall|j: int| 0 <= j < BITMAP_FRAMES ==> o.used(j) ==> #[trigger] f.used(j)
}

/// Zeroes the frame at `a`.
pub fn zero_frame(mem: &mut UserMem, a: u32)
    requires
        old(mem).contains(a as int, 4096),
    ensures
        final(mem).base == old(mem).base,
        final(mem).bytes@ == zero_page(old(mem).bytes@, a - old(mem).base),
{
    let mut z: Vec<u8> = Vec::new();
    let mut i: usize = 0;
    while i < 4096
        invariant
            i <= 4096,
            z@ == Seq::new(i as nat, |k: int| 0u8),
        decreases 4096 - i,
    {
        z.push(0u8);
        assert(z@ =~= Seq::new((i + 1) as nat, |k: int| 0u8));
        i = i + 1;
    }
    mem.write_bytes(a, z.as_slice());
}

/// Takes a free frame and returns its address as a physical address.
fn take_frame(frames: &mut FrameAllocator, mem: &UserMem) -> (r: Option<u32>)
    requires
        old(frames).wf(),
        old(frames).used_frames < usize::MAX,
        frames_fit(*old(frames), *mem),
    ensures
        final(frames).wf(),
        frames_fit(*final(frames), *mem),
        final(frames).total_frames == old(frames).total_frames,
        frames_grow(*old(frames), *final(frames)),
        match r {
            Some(a) => {
                &&& a % 4096 == 0
                &&& (a as int / 4096) < old(frames).total_frames
                &&& mem.contains(a as int, 4096)
                &&& !old(frames).used(a as int / 4096)
                &&& forall|j: int| 0 <= j < a / 4096 ==> old(frames).used(j)
                &&& final(frames).used(a as int / 4096)
                &&& forall|j: int| 0 <= j < BITMAP_FRAMES && j != a / 4096 ==> final(frames).used(j) == old(frames).used(j)
                &&& final(frames).used_frames == old(frames).used_frames + 1
            },
            None => {
                &&& forall|j: int| 0 <= j < old(frames).total_frames ==> old(frames).used(j)
                &&& *final(frames) == *old(frames)
            },
        },
{
    match frames.alloc_frame() {
        Some(a) => {
            assert(a + 4096 <= mem.bytes@.len()) by (nonlinear_arith)
                requires a % 4096 == 0, a / 4096 < frames.total_frames, frames.total_frames * 4096 <= mem.bytes@.len();
            Some(a as u32)
        },
        None => None,
    }
}

/// The frame an entry points to is page aligned.
pub proof fn lemma_frame_aligned(e: u32)
    ensures
        frame_of(e) % 4096 == 0,
        (e & 0xFFFFF000u32) % 4096 == 0,
        e & 0xFFFu32 == e % 4096,
        !present(0u32),
{
    assert((e & 0xFFFFF000u32) % 4096 == 0 && e & 0xFFFu32 == e % 4096 && (0u32 & 1u32) == 0u32) by (bit_vector);
}

/// A word written over `m` reads back.
pub proof fn lemma_word_same(m: Seq<u8>, a: int, x: u32)
    requires
        0 <= a,
        a + 4 <= m.len(),
    ensures
        word_at(overwrite(m, a, le_bytes(x)), a) == x,
{
    let n = overwrite(m, a, le_bytes(x));
    assert(n[a] == le_bytes(x)[0] && n[a + 1] == le_bytes(x)[1] && n[a + 2] == le_bytes(x)[2] && n[a + 3] == le_bytes(x)[3]);
    crate::usermem::lemma_le_roundtrip(x);
}

/// A word written over `m` leaves the words that do not overlap it alone.
pub proof fn lemma_word_other(m: Seq<u8>, a: int, data: Seq<u8>, b: int)
    requires
        0 <= b,
        b + 4 <= m.len(),
        b + 4 <= a || a + data.len() <= b,
    ensures
        word_at(overwrite(m, a, data), b) == word_at(m, b),
{
    let n = overwrite(m, a, data);
    assert(n[b] == m[b] && n[b + 1] == m[b + 1] && n[b + 2] == m[b + 2] && n[b + 3] == m[b + 3]);
}

/// A zeroed page reads as zero words.
pub proof fn lemma_word_zero(m: Seq<u8>, a: int, b: int)
    requires
        0 <= a <= b,
        b + 4 <= a + 4096,
        a + 4096 <= m.len(),
    ensures
        word_at(zero_page(m, a), b) == 0,
{
    let n = zero_page(m, a);
    assert(n[b] == 0 && n[b + 1] == 0 && n[b + 2] == 0 && n[b + 3] == 0);
    assert(((0u8 as u32) | ((0u8 as u32) << 8) | ((0u8 as u32) << 16) | ((0u8 as u32) << 24)) == 0u32) by (bit_vector);
}

/// An entry made from a page-aligned frame and flags below 4096 points to that frame and
/// is present when the flags say so.
pub proof fn lemma_entry(f: u32, flags: u32)
    requires
        f % 4096 == 0,
        flags < 4096,
    ensures
        frame_of(f | flags) == f,
        present(f | flags) == (flags & 1 != 0),
{
    assert(f % 4096 == 0 && flags < 4096 ==> ((f | flags) & 0xFFFFF000) == f && (((f | flags) & 1 != 0) == (flags & 1 != 0))) by (bit_vector);
}

/// Two different page-aligned frames do not overlap.
proof fn lemma_frames_apart(x: int, y: int)
    requires
        x % 4096 == 0,
        y % 4096 == 0,
        x != y,
    ensures
        x + 4096 <= y || y + 4096 <= x,
{
    assert(x + 4096 <= y || y + 4096 <= x) by (nonlinear_arith)
        requires x % 4096 == 0, y % 4096 == 0, x != y;
}

/// Changing bytes only inside the frame at `x` leaves a word inside another frame `t`.
proof fn lemma_word_kept_frames(m1: Seq<u8>, m2: Seq<u8>, x: int, t: int, a: int)
    requires
        x % 4096 == 0,
        t % 4096 == 0,
        x != t,
        0 <= t,
        t <= a <= t + 4092,
        m1.len() == m2.len(),
        a + 4 <= m1.len(),
        forall|b: int| 0 <= b < m1.len() && !(x <= b < x + 4096) ==> #[trigger] m2[b] == m1[b],
    ensures
        word_at(m2, a) == word_at(m1, a),
{
    lemma_frames_apart(x, t);
    assert(m2[a] == m1[a] && m2[a + 1] == m1[a + 1] && m2[a + 2] == m1[a + 2] && m2[a + 3] == m1[a + 3]);
}

/// Writing bytes inside the frame at `x` of one mapped user page keeps the directory,
/// every table, every translation and the loader's invariant.
pub proof fn lemma_data_write(f: FrameAllocator, a1: Seq<u8>, a2: Seq<u8>, pd: u32, x: u32)
    requires
        user_space(f, a1, pd),
        a2.len() == a1.len(),
        x % 4096 == 0,
        x != pd,
        forall|i: int| 0 <= i < 1024 && present(#[trigger] entry_at(a1, pd as int, i))
            ==> frame_of(entry_at(a1, pd as int, i)) != x,
        forall|b: int| 0 <= b < a1.len() && !(x <= b < x + 4096) ==> #[trigger] a2[b] == a1[b],
    ensures
        user_space(f, a2, pd),
        forall|i: int| 0 <= i < 1024 ==> #[trigger] entry_at(a2, pd as int, i) == entry_at(a1, pd as int, i),
        forall|v: int| 0 <= v < 0x1_0000_0000 ==> #[trigger] translate(a2, pd as int, v) == translate(a1, pd as int, v),
        forall|v: int| #[trigger] byte_target(a2, pd as int, v) == byte_target(a1, pd as int, v),
{
    let p = pd as int;
    assert forall|i: int| 0 <= i < 1024 implies #[trigger] entry_at(a2, p, i) == entry_at(a1, p, i) by {
        lemma_word_kept_frames(a1, a2, x as int, p, p + 4 * i);
    }
    assert forall|v: int| 0 <= v < 0x1_0000_0000 implies #[trigger] translate(a2, p, v) == translate(a1, p, v) by {
        let k = pd_index(v);
        assert(0 <= k < 1024);
        assert(entry_at(a2, p, k) == entry_at(a1, p, k));
        let e = word_at(a1, p + 4 * k);
        if present(e) {
            assert(present(entry_at(a1, p, k)));
            lemma_frame_aligned(e);
            lemma_word_kept_frames(a1, a2, x as int, frame_of(e) as int, frame_of(e) + 4 * pt_index(v));
        }
    }
    assert forall|v: int| #[trigger] byte_target(a2, p, v) == byte_target(a1, p, v) by {
        if 0 <= v <= 0xFFFF_FFFF {
            assert(translate(a2, p, v) == translate(a1, p, v));
        }
    }
    assert forall|q: int| 3072 <= q < 0x100000 implies #[trigger] page_frame(a2, p, q) == page_frame(a1, p, q) by {
        assert(translate(a2, p, q * 4096) == translate(a1, p, q * 4096));
    }
    assert forall|i: int| 0 <= i < 1024 implies #[trigger] word_at(a2, p + 4 * i) == word_at(a1, p + 4 * i) by {
        assert(entry_at(a2, p, i) == entry_at(a1, p, i));
    }
}

/// Where virtual byte `va` of a mapped user page lies: at its offset in the page's frame.
pub proof fn lemma_user_byte(f: FrameAllocator, m: Seq<u8>, pd: u32, va: int)
    requires
        user_space(f, m, pd),
        f.total_frames * 4096 <= m.len(),
        0 <= va < 0x1_0000_0000,
        3072 <= va / 4096,
        page_frame(m, pd as int, va / 4096) is Some,
    ensures
        ({
            let x = page_frame(m, pd as int, va / 4096)->0;
            &&& byte_target(m, pd as int, va) == Some(x + va % 4096)
            &&& x + 4096 <= m.len()
            &&& x % 4096 == 0
            &&& x != pd
            &&& forall|i: int| 0 <= i < 1024 && present(#[trigger] entry_at(m, pd as int, i))
                ==> frame_of(entry_at(m, pd as int, i)) != x
        }),
{
    let p = va / 4096;
    let x = page_frame(m, pd as int, p)->0;
    assert(p < 0x100000);
    assert(page_frame(m, pd as int, p) matches Some(y) && y == x);
    assert((p * 4096) / 4096 == p && va % 4096 == va - p * 4096) by (nonlinear_arith)
        requires p == va / 4096, 0 <= va;
    assert(pd_index(va) == pd_index(p * 4096) && pt_index(va) == pt_index(p * 4096));
    let e = word_at(m, pd + 4 * pd_index(va));
    assert(0 <= pd_index(va) < 1024);
    assert(present(e));
    lemma_frame_aligned(va as u32);
    assert(x + 4096 <= m.len()) by (nonlinear_arith)
        requires x % 4096 == 0, (x as int) / 4096 < f.total_frames, f.total_frames * 4096 <= m.len();
}

/// Two bytes at offsets below 4096 of two different aligned frames are different bytes.
proof fn lemma_frame_bytes_apart(x: int, y: int, o: int, q: int)
    requires
        x % 4096 == 0,
        y % 4096 == 0,
        x != y,
        0 <= o < 4096,
        0 <= q < 4096,
    ensures
        x + o != y + q,
{
    lemma_frames_apart(x, y);
}

/// Copying into mapped user pages, as `write_virt` does, succeeds, writes the bytes where a
/// read through the same directory finds them, and leaves every other byte of the mapped
/// user pages, every translation and the loader's invariant as they were.
#[verifier::rlimit(50)]
#[verifier::spinoff_prover]
pub proof fn lemma_write_walk(f: FrameAllocator, m: Seq<u8>, pd: u32, v: int, data: Seq<u8>, from: int, i: int, n: int)
    requires
        user_space(f, m, pd),
        f.total_frames * 4096 <= m.len(),
        0 <= i <= n,
        0 <= from,
        from + n <= data.len(),
        0 <= v,
        v + n <= 0x1_0000_0000,
        forall|k: int| i <= k < n ==> 3072 <= (v + k) / 4096 && #[trigger] page_frame(m, pd as int, (v + k) / 4096) is Some,
    ensures
        ({
            let (ok, w) = write_walk(m, pd as int, v, data, from, i, n);
            &&& ok
            &&& w.len() == m.len()
            &&& user_space(f, w, pd)
            &&& forall|q: int| 3072 <= q < 0x100000 ==> #[trigger] page_frame(w, pd as int, q) == page_frame(m, pd as int, q)
            &&& forall|va: int| v + i <= va < v + n ==> #[trigger] vbyte(w, pd as int, va) == Some(data[from + va - v])
            &&& forall|va: int| !(v + i <= va < v + n) && 0 <= va < 0x1_0000_0000 && 3072 <= va / 4096
                && page_frame(m, pd as int, va / 4096) is Some ==> #[trigger] vbyte(w, pd as int, va) == vbyte(m, pd as int, va)
        }),
    decreases n - i,
{
    if i < n {
        let va = v + i;
        assert(page_frame(m, pd as int, (v + i) / 4096) is Some);
        lemma_user_byte(f, m, pd, va);
        let x = page_frame(m, pd as int, va / 4096)->0;
        let pa = x + va % 4096;
        let m1 = m.update(pa, data[from + i]);
        lemma_data_write(f, m, m1, pd, x);
        assert forall|k: int| i + 1 <= k < n implies 3072 <= (v + k) / 4096 && #[trigger] page_frame(m1, pd as int, (v + k) / 4096) is Some by {
            assert(page_frame(m, pd as int, (v + k) / 4096) is Some);
        }
        lemma_write_walk(f, m1, pd, v, data, from, i + 1, n);
        let w = write_walk(m1, pd as int, v, data, from, i + 1, n).1;
        assert(write_walk(m, pd as int, v, data, from, i, n) == write_walk(m1, pd as int, v, data, from, i + 1, n));
        assert(vbyte(m1, pd as int, va) == Some(data[from + i]));
        assert(vbyte(w, pd as int, va) == vbyte(m1, pd as int, va));
        assert forall|vb: int| !(v + i <= vb < v + n) && 0 <= vb < 0x1_0000_0000 && 3072 <= vb / 4096
            && page_frame(m, pd as int, vb / 4096) is Some implies #[trigger] vbyte(w, pd as int, vb) == vbyte(m, pd as int, vb) by {
            assert(page_frame(m1, pd as int, vb / 4096) == page_frame(m, pd as int, vb / 4096));
            lemma_user_byte(f, m, pd, vb);
            let y = page_frame(m, pd as int, vb / 4096)->0;
            if vb / 4096 == va / 4096 {
                assert(y == x);
            } else {
                assert(page_frame(m, pd as int, vb / 4096) != page_frame(m, pd as int, va / 4096));
                lemma_frame_bytes_apart(y as int, x as int, vb % 4096, va % 4096);
            }
        }
    }
}

/// Clearing mapped user pages, as `zero_virt` does, succeeds likewise.
#[verifier::rlimit(50)]
#[verifier::spinoff_prover]
pub proof fn lemma_zero_walk(f: FrameAllocator, m: Seq<u8>, pd: u32, v: int, i: int, n: int)
    requires
        user_space(f, m, pd),
        f.total_frames * 4096 <= m.len(),
        0 <= i <= n,
        0 <= v,
        v + n <= 0x1_0000_0000,
        forall|k: int| i <= k < n ==> 3072 <= (v + k) / 4096 && #[trigger] page_frame(m, pd as int, (v + k) / 4096) is Some,
    ensures
        ({
            let (ok, w) = zero_walk(m, pd as int, v, i, n);
            &&& ok
            &&& w.len() == m.len()
            &&& user_space(f, w, pd)
            &&& forall|q: int| 3072 <= q < 0x100000 ==> #[trigger] page_frame(w, pd as int, q) == page_frame(m, pd as int, q)
            &&& forall|va: int| v + i <= va < v + n ==> #[trigger] vbyte(w, pd as int, va) == Some(0u8)
            &&& forall|va: int| !(v + i <= va < v + n) && 0 <= va < 0x1_0000_0000 && 3072 <= va / 4096
                && page_frame(m, pd as int, va / 4096) is Some ==> #[trigger] vbyte(w, pd as int, va) == vbyte(m, pd as int, va)
        }),
    decreases n - i,
{
    if i < n {
        let va = v + i;
        assert(page_frame(m, pd as int, (v + i) / 4096) is Some);
        lemma_user_byte(f, m, pd, va);
        let x = page_frame(m, pd as int, va / 4096)->0;
        let pa = x + va % 4096;
        let m1 = m.update(pa, 0u8);
        lemma_data_write(f, m, m1, pd, x);
        assert forall|k: int| i + 1 <= k < n implies 3072 <= (v + k) / 4096 && #[trigger] page_frame(m1, pd as int, (v + k) / 4096) is Some by {
            assert(page_frame(m, pd as int, (v + k) / 4096) is Some);
        }
        lemma_zero_walk(f, m1, pd, v, i + 1, n);
        let w = zero_walk(m1, pd as int, v, i + 1, n).1;
        assert(zero_walk(m, pd as int, v, i, n) == zero_walk(m1, pd as int, v, i + 1, n));
        assert(vbyte(m1, pd as int, va) == Some(0u8));
        assert(vbyte(w, pd as int, va) == vbyte(m1, pd as int, va));
        assert forall|vb: int| !(v + i <= vb < v + n) && 0 <= vb < 0x1_0000_0000 && 3072 <= vb / 4096
            && page_frame(m, pd as int, vb / 4096) is Some implies #[trigger] vbyte(w, pd as int, vb) == vbyte(m, pd as int, vb) by {
            assert(page_frame(m1, pd as int, vb / 4096) == page_frame(m, pd as int, vb / 4096));
            lemma_user_byte(f, m, pd, vb);
            let y = page_frame(m, pd as int, vb / 4096)->0;
            if vb / 4096 == va / 4096 {
                assert(y == x);
            } else {
                assert(page_frame(m, pd as int, vb / 4096) != page_frame(m, pd as int, va / 4096));
                lemma_frame_bytes_apart(y as int, x as int, vb % 4096, va % 4096);
            }
        }
    }
}

/// A word whose four bytes all lie in a frame that kept its bytes is unchanged.
proof fn lemma_word_in_kept_frame(mo: Seq<u8>, mm: Seq<u8>, t: int, a: int)
    requires
        t % 4096 == 0,
        0 <= t <= a <= t + 4092,
        a + 4 <= mo.len(),
        mm.len() == mo.len(),
        forall|b: int| t <= b < t + 4096 && b < mo.len() ==> #[trigger] mm[b] == mo[b],
    ensures
        word_at(mm, a) == word_at(mo, a),
{
    assert(mm[a] == mo[a] && mm[a + 1] == mo[a + 1] && mm[a + 2] == mo[a + 2] && mm[a + 3] == mo[a + 3]);
}

/// What one mapping did to physical memory and the frames: user page `v / 4096` now goes to
/// the fresh frame `x`; besides it only the page's table entry (and, when its directory entry
/// was absent, that entry and a fresh zeroed table) changed.
pub open spec fn map_wrote(fo: FrameAllocator, ff: FrameAllocator, mo: Seq<u8>, mm: Seq<u8>, pd: u32, v: int, x: u32) -> bool {
    &&& fo.total_frames * 4096 <= mo.len()
    &&& mm.len() == mo.len()
    &&& 0 <= v < 0x1_0000_0000
    &&& 3072 <= v / 4096
    &&& ff.total_frames == fo.total_frames
    &&& fo.total_frames <= BITMAP_FRAMES
    &&& forall|j: int| 0 <= j < BITMAP_FRAMES && fo.used(j) ==> #[trigger] ff.used(j)
    &&& pd_ok_seq(ff, mm, pd)
    &&& translate(mm, pd as int, v) == Some(x)
    &&& x % 4096 == 0
    &&& (x as int) / 4096 < fo.total_frames
    &&& !fo.used(x as int / 4096)
    &&& ff.used(x as int / 4096)
    &&& forall|i: int| 0 <= i < 1024 && i != pd_index(v) ==> #[trigger] entry_at(mm, pd as int, i) == entry_at(mo, pd as int, i)
    &&& present(entry_at(mo, pd as int, pd_index(v))) ==> ({
        let t = frame_of(entry_at(mo, pd as int, pd_index(v)));
        &&& entry_at(mm, pd as int, pd_index(v)) == entry_at(mo, pd as int, pd_index(v))
        &&& forall|j: int| 0 <= j < 1024 && j != pt_index(v) ==> #[trigger] entry_at(mm, t as int, j) == entry_at(mo, t as int, j)
        &&& forall|b: int| 0 <= b < mo.len() && fo.used(b / 4096) && b / 4096 != (t as int) / 4096
            && b / 4096 != (pd as int) / 4096 ==> #[trigger] mm[b] == mo[b]
    })
    &&& !present(entry_at(mo, pd as int, pd_index(v))) ==> ({
        let e = entry_at(mm, pd as int, pd_index(v));
        &&& present(e)
        &&& !fo.used(frame_of(e) as int / 4096)
        &&& frame_of(e) != x
        &&& forall|j: int| 0 <= j < 1024 && j != pt_index(v) ==> !present(#[trigger] entry_at(mm, frame_of(e) as int, j))
        &&& forall|b: int| 0 <= b < mo.len() && fo.used(b / 4096) && b / 4096 != (pd as int) / 4096
            ==> #[trigger] mm[b] == mo[b]
    })
}

proof fn lemma_map_frames(fo: FrameAllocator, ff: FrameAllocator, mo: Seq<u8>, mm: Seq<u8>, pd: u32, v: int, x: u32)
    requires
        user_space(fo, mo, pd),
        map_wrote(fo, ff, mo, mm, pd, v, x),
    ensures
        page_frame(mm, pd as int, v / 4096) == Some(x),
        forall|q: int| 3072 <= q < 0x100000 && q != v / 4096 ==> #[trigger] page_frame(mm, pd as int, q) == page_frame(mo, pd as int, q),
{
    let p = pd as int;
    let k0 = pd_index(v);
    let pv = v / 4096;
    assert(0 <= k0 < 1024 && k0 >= 3);
    assert((pv * 4096) / 4096 == pv) by (nonlinear_arith) requires 0 <= pv;
    assert(pd_index(pv * 4096) == k0 && pt_index(pv * 4096) == pt_index(v));
    assert(page_frame(mm, p, pv) == Some(x));
    lemma_frame_aligned(0u32);
    // the other user pages keep their frames
    assert forall|q: int| 3072 <= q < 0x100000 && q != pv implies #[trigger] page_frame(mm, p, q) == page_frame(mo, p, q) by {
        assert((q * 4096) / 4096 == q) by (nonlinear_arith) requires 0 <= q;
        let k = pd_index(q * 4096);
        let j = pt_index(q * 4096);
        assert(3 <= k < 1024);
        if k != k0 {
            let e = entry_at(mo, p, k);
            assert(entry_at(mm, p, k) == e);
            if present(e) {
                let t = frame_of(e);
                lemma_frame_aligned(e);
                assert(word_at(mo, p + 4 * k) == e);
                assert(t + 4096 <= mo.len());
                if present(entry_at(mo, p, k0)) {
                    let t0 = frame_of(entry_at(mo, p, k0));
                    lemma_frame_aligned(entry_at(mo, p, k0));
                    assert(t != t0);
                    lemma_frames_apart(t as int, t0 as int);
                    assert(t as int / 4096 != t0 as int / 4096) by (nonlinear_arith)
                        requires t % 4096 == 0, t0 % 4096 == 0, t != t0;
                }
                assert(t as int / 4096 != p / 4096) by (nonlinear_arith)
                    requires t % 4096 == 0, p % 4096 == 0, t != p;
                assert forall|b: int| t <= b < t + 4096 && b < mo.len() implies #[trigger] mm[b] == mo[b] by {
                    assert(b / 4096 == t as int / 4096) by (nonlinear_arith) requires t % 4096 == 0, t <= b < t + 4096;
                }
                lemma_word_in_kept_frame(mo, mm, t as int, t + 4 * j);
            }
        } else {
            assert(j != pt_index(v));
            if present(entry_at(mo, p, k0)) {
                let t = frame_of(entry_at(mo, p, k0));
                assert(entry_at(mm, t as int, j) == entry_at(mo, t as int, j));
            } else {
                let e = entry_at(mm, p, k0);
                assert(!present(entry_at(mm, frame_of(e) as int, j)));
            }
        }
    }
}

proof fn lemma_map_tables(fo: FrameAllocator, ff: FrameAllocator, mo: Seq<u8>, mm: Seq<u8>, pd: u32, v: int, x: u32)
    requires
        user_space(fo, mo, pd),
        map_wrote(fo, ff, mo, mm, pd, v, x),
        page_frame(mm, pd as int, v / 4096) == Some(x),
        forall|q: int| 3072 <= q < 0x100000 && q != v / 4096 ==> #[trigger] page_frame(mm, pd as int, q) == page_frame(mo, pd as int, q),
    ensures
        user_tables_apart(mm, pd),
{
    let p = pd as int;
    let k0 = pd_index(v);
    let pv = v / 4096;
    assert(0 <= k0 < 1024 && k0 >= 3);
    // the invariant
    assert forall|i: int, j: int| #![trigger entry_at(mm, p, i), entry_at(mm, p, j)]
        3 <= i < 1024 && 3 <= j < 1024 && i != j && present(entry_at(mm, p, i)) && present(entry_at(mm, p, j))
        implies frame_of(entry_at(mm, p, i)) != frame_of(entry_at(mm, p, j)) by {
        if !present(entry_at(mo, p, k0)) && (i == k0 || j == k0) {
            let o = if i == k0 { j } else { i };
            assert(entry_at(mm, p, o) == entry_at(mo, p, o));
            assert(word_at(mo, p + 4 * o) == entry_at(mo, p, o));
        }
    }
}

proof fn lemma_map_pages(fo: FrameAllocator, ff: FrameAllocator, mo: Seq<u8>, mm: Seq<u8>, pd: u32, v: int, x: u32)
    requires
        user_space(fo, mo, pd),
        map_wrote(fo, ff, mo, mm, pd, v, x),
        page_frame(mm, pd as int, v / 4096) == Some(x),
        forall|q: int| 3072 <= q < 0x100000 && q != v / 4096 ==> #[trigger] page_frame(mm, pd as int, q) == page_frame(mo, pd as int, q),
    ensures
        user_frames_ok(ff, mm, pd),
{
    let p = pd as int;
    let k0 = pd_index(v);
    let pv = v / 4096;
    assert(0 <= k0 < 1024 && k0 >= 3);
    assert forall|q: int| 3072 <= q < 0x100000 implies (#[trigger] page_frame(mm, p, q) matches Some(y) ==> {
        &&& y % 4096 == 0
        &&& (y as int) / 4096 < ff.total_frames
        &&& ff.used(y as int / 4096)
        &&& y != pd
        &&& forall|i: int| 0 <= i < 1024 && present(#[trigger] entry_at(mm, p, i)) ==> frame_of(entry_at(mm, p, i)) != y
    }) by {
        if page_frame(mm, p, q) is Some {
            let y = page_frame(mm, p, q)->0;
            if q == pv {
                assert(y == x);
                assert forall|i: int| 0 <= i < 1024 && present(#[trigger] entry_at(mm, p, i)) implies frame_of(entry_at(mm, p, i)) != y by {
                    if i != k0 || present(entry_at(mo, p, k0)) {
                        assert(entry_at(mm, p, i) == entry_at(mo, p, i));
                        assert(word_at(mo, p + 4 * i) == entry_at(mo, p, i));
                    }
                }
            } else {
                assert(page_frame(mm, p, q) == page_frame(mo, p, q));
                assert(fo.used(y as int / 4096));
                assert(ff.used(y as int / 4096));
                assert forall|i: int| 0 <= i < 1024 && present(#[trigger] entry_at(mm, p, i)) implies frame_of(entry_at(mm, p, i)) != y by {
                    if i != k0 || present(entry_at(mo, p, k0)) {
                        assert(entry_at(mm, p, i) == entry_at(mo, p, i));
                    }
                }
            }
        }
    }
}

proof fn lemma_map_apart(fo: FrameAllocator, ff: FrameAllocator, mo: Seq<u8>, mm: Seq<u8>, pd: u32, v: int, x: u32)
    requires
        user_space(fo, mo, pd),
        map_wrote(fo, ff, mo, mm, pd, v, x),
        page_frame(mm, pd as int, v / 4096) == Some(x),
        forall|q: int| 3072 <= q < 0x100000 && q != v / 4096 ==> #[trigger] page_frame(mm, pd as int, q) == page_frame(mo, pd as int, q),
    ensures
        user_frames_apart(mm, pd),
{
    let p = pd as int;
    let k0 = pd_index(v);
    let pv = v / 4096;
    assert(0 <= k0 < 1024 && k0 >= 3);
    assert forall|q1: int, q2: int| #![trigger page_frame(mm, p, q1), page_frame(mm, p, q2)]
        3072 <= q1 < 0x100000 && 3072 <= q2 < 0x100000 && q1 != q2 && page_frame(mm, p, q1) is Some
        implies page_frame(mm, p, q1) != page_frame(mm, p, q2) by {
        if q1 != pv && q2 != pv {
            assert(page_frame(mm, p, q1) == page_frame(mo, p, q1));
            assert(page_frame(mm, p, q2) == page_frame(mo, p, q2));
        } else if q1 == pv {
            assert(page_frame(mm, p, q2) == page_frame(mo, p, q2));
        } else {
            assert(page_frame(mm, p, q1) == page_frame(mo, p, q1));
        }
    }
}

proof fn lemma_map_space(fo: FrameAllocator, ff: FrameAllocator, mo: Seq<u8>, mm: Seq<u8>, pd: u32, v: int, x: u32)
    requires
        user_space(fo, mo, pd),
        map_wrote(fo, ff, mo, mm, pd, v, x),
        page_frame(mm, pd as int, v / 4096) == Some(x),
        forall|q: int| 3072 <= q < 0x100000 && q != v / 4096 ==> #[trigger] page_frame(mm, pd as int, q) == page_frame(mo, pd as int, q),
    ensures
        user_space(ff, mm, pd),
{
    lemma_map_tables(fo, ff, mo, mm, pd, v, x);
    lemma_map_pages(fo, ff, mo, mm, pd, v, x);
    lemma_map_apart(fo, ff, mo, mm, pd, v, x);
}

proof fn lemma_map_bytes(fo: FrameAllocator, ff: FrameAllocator, mo: Seq<u8>, mm: Seq<u8>, pd: u32, v: int, x: u32)
    requires
        user_space(fo, mo, pd),
        map_wrote(fo, ff, mo, mm, pd, v, x),
        user_space(ff, mm, pd),
        forall|q: int| 3072 <= q < 0x100000 && q != v / 4096 ==> #[trigger] page_frame(mm, pd as int, q) == page_frame(mo, pd as int, q),
    ensures
        forall|va: int| 0 <= va < 0x1_0000_0000 && 3072 <= va / 4096 && va / 4096 != v / 4096
            && page_frame(mo, pd as int, va / 4096) is Some ==> #[trigger] vbyte(mm, pd as int, va) == vbyte(mo, pd as int, va),
{
    let p = pd as int;
    let k0 = pd_index(v);
    let pv = v / 4096;
    assert(0 <= k0 < 1024 && k0 >= 3);
    // the other user pages keep their bytes
    assert forall|va: int| 0 <= va < 0x1_0000_0000 && 3072 <= va / 4096 && va / 4096 != pv
        && page_frame(mo, p, va / 4096) is Some implies #[trigger] vbyte(mm, p, va) == vbyte(mo, p, va) by {
        let q = va / 4096;
        assert(q < 0x100000);
        assert(page_frame(mm, p, q) == page_frame(mo, p, q));
        lemma_user_byte(fo, mo, pd, va);
        lemma_user_byte(ff, mm, pd, va);
        let y = page_frame(mo, p, q)->0;
        let b = y + va % 4096;
        assert(b / 4096 == y as int / 4096) by (nonlinear_arith) requires y % 4096 == 0, b == y + va % 4096, 0 <= va % 4096 < 4096;
        assert(y as int / 4096 != p / 4096) by (nonlinear_arith) requires y % 4096 == 0, p % 4096 == 0, y != p;
        if present(entry_at(mo, p, k0)) {
            let t = frame_of(entry_at(mo, p, k0));
            lemma_frame_aligned(entry_at(mo, p, k0));
            assert(t != y);
            assert(y as int / 4096 != t as int / 4096) by (nonlinear_arith) requires y % 4096 == 0, t % 4096 == 0, y != t;
        }
    }
}

/// What mapping user page `v / 4096` to a fresh frame `x` keeps: the loader's invariant, the
/// other user pages' frames and bytes. `t` is the table the page's entry used before, when
/// the directory entry was present; `w` the frame that changed besides it (the directory's
/// when a new table was made).
pub proof fn lemma_map_keeps(fo: FrameAllocator, ff: FrameAllocator, mo: Seq<u8>, mm: Seq<u8>, pd: u32, v: int, x: u32)
    requires
        user_space(fo, mo, pd),
        map_wrote(fo, ff, mo, mm, pd, v, x),
    ensures
        user_space(ff, mm, pd),
        page_frame(mm, pd as int, v / 4096) == Some(x),
        forall|q: int| 3072 <= q < 0x100000 && q != v / 4096 ==> #[trigger] page_frame(mm, pd as int, q) == page_frame(mo, pd as int, q),
        forall|va: int| 0 <= va < 0x1_0000_0000 && 3072 <= va / 4096 && va / 4096 != v / 4096
            && page_frame(mo, pd as int, va / 4096) is Some ==> #[trigger] vbyte(mm, pd as int, va) == vbyte(mo, pd as int, va),
{
    lemma_map_frames(fo, ff, mo, mm, pd, v, x);
    lemma_map_space(fo, ff, mo, mm, pd, v, x);
    lemma_map_bytes(fo, ff, mo, mm, pd, v, x);
}

/// A byte of the frame at `t` lies in that frame.
proof fn lemma_byte_frame(t: int, b: int)
    requires
        t % 4096 == 0,
        0 <= t <= b < t + 4096,
    ensures
        b / 4096 == t / 4096,
{
    assert(b / 4096 == t / 4096) by (nonlinear_arith) requires t % 4096 == 0, 0 <= t <= b, b < t + 4096;
}

/// `map` into a present table wrote only the page's entry there.
proof fn lemma_map_wrote_present(fo: FrameAllocator, ff: FrameAllocator, mo: Seq<u8>, mm: Seq<u8>, pd: u32, v: int, x: u32,
    pte: u32)
    requires
        user_space(fo, mo, pd),
        fo.total_frames * 4096 <= mo.len(),
        fo.total_frames <= BITMAP_FRAMES,
        0 <= v < 0x1_0000_0000,
        3072 <= v / 4096,
        ff.total_frames == fo.total_frames,
        forall|j: int| 0 <= j < BITMAP_FRAMES && fo.used(j) ==> #[trigger] ff.used(j),
        pd_ok_seq(ff, mm, pd),
        translate(mm, pd as int, v) == Some(x),
        x % 4096 == 0,
        (x as int) / 4096 < fo.total_frames,
        !fo.used(x as int / 4096),
        ff.used(x as int / 4096),
        present(entry_at(mo, pd as int, pd_index(v))),
        mm == overwrite(mo, frame_of(entry_at(mo, pd as int, pd_index(v))) + 4 * pt_index(v), le_bytes(pte)),
    ensures
        map_wrote(fo, ff, mo, mm, pd, v, x),
{
    let p = pd as int;
    let k0 = pd_index(v);
    assert(0 <= k0 < 1024);
    let e0 = entry_at(mo, p, k0);
    assert(word_at(mo, p + 4 * k0) == e0);
    let t = frame_of(e0) as int;
    lemma_frame_aligned(e0);
    let a = t + 4 * pt_index(v);
    assert(0 <= pt_index(v) < 1024);
    assert forall|b: int| 0 <= b < mo.len() && !(t <= b < t + 4096) implies #[trigger] mm[b] == mo[b] by {}
    assert forall|i: int| 0 <= i < 1024 implies #[trigger] entry_at(mm, p, i) == entry_at(mo, p, i) by {
        lemma_word_kept_frames(mo, mm, t, p, p + 4 * i);
    }
    assert forall|j: int| 0 <= j < 1024 && j != pt_index(v) implies #[trigger] entry_at(mm, t, j) == entry_at(mo, t, j) by {
        lemma_word_other(mo, a, le_bytes(pte), t + 4 * j);
    }
    assert forall|b: int| 0 <= b < mo.len() && fo.used(b / 4096) && b / 4096 != t / 4096
        && b / 4096 != p / 4096 implies #[trigger] mm[b] == mo[b] by {
        if a <= b < a + 4 {
            lemma_byte_frame(t, b);
        }
    }
}

/// `map` with an absent directory entry wrote a fresh zeroed table, the entry and the page's
/// entry in the new table.
proof fn lemma_map_wrote_absent(fo: FrameAllocator, ff: FrameAllocator, mo: Seq<u8>, mm: Seq<u8>, pd: u32, v: int, x: u32,
    pte: u32, tf: u32, fl: u32)
    requires
        user_space(fo, mo, pd),
        fo.total_frames * 4096 <= mo.len(),
        fo.total_frames <= BITMAP_FRAMES,
        0 <= v < 0x1_0000_0000,
        3072 <= v / 4096,
        ff.total_frames == fo.total_frames,
        forall|j: int| 0 <= j < BITMAP_FRAMES && fo.used(j) ==> #[trigger] ff.used(j),
        pd_ok_seq(ff, mm, pd),
        translate(mm, pd as int, v) == Some(x),
        x % 4096 == 0,
        (x as int) / 4096 < fo.total_frames,
        !fo.used(x as int / 4096),
        ff.used(x as int / 4096),
        !present(entry_at(mo, pd as int, pd_index(v))),
        tf == frame_of(word_at(mm, pd + 4 * pd_index(v))),
        tf % 4096 == 0,
        tf + 4096 <= mo.len(),
        !fo.used(tf as int / 4096),
        tf != x,
        mm == overwrite(overwrite(zero_page(mo, tf as int), pd + 4 * pd_index(v), le_bytes(tf | fl)),
            tf + 4 * pt_index(v), le_bytes(pte)),
    ensures
        map_wrote(fo, ff, mo, mm, pd, v, x),
{
    let p = pd as int;
    let k0 = pd_index(v);
    let t = tf as int;
    assert(0 <= k0 < 1024);
    assert(0 <= pt_index(v) < 1024);
    assert(t != p) by {
        assert(fo.used(p / 4096));
    }
    let z = zero_page(mo, t);
    let m1 = overwrite(z, p + 4 * k0, le_bytes(tf | fl));
    let a = t + 4 * pt_index(v);
    assert forall|b: int| 0 <= b < mo.len() && !(t <= b < t + 4096) implies #[trigger] z[b] == mo[b] by {}
    assert forall|b: int| 0 <= b < mo.len() && !(t <= b < t + 4096) implies #[trigger] mm[b] == m1[b] by {}
    assert forall|i: int| 0 <= i < 1024 && i != k0 implies #[trigger] entry_at(mm, p, i) == entry_at(mo, p, i) by {
        lemma_word_kept_frames(mo, z, t, p, p + 4 * i);
        lemma_word_other(z, p + 4 * k0, le_bytes(tf | fl), p + 4 * i);
        lemma_word_kept_frames(m1, mm, t, p, p + 4 * i);
    }
    let e = entry_at(mm, p, k0);
    assert(present(word_at(mm, p + 4 * pd_index(v))));
    assert(present(e));
    lemma_frame_aligned(0u32);
    assert forall|j: int| 0 <= j < 1024 && j != pt_index(v) implies !present(#[trigger] entry_at(mm, frame_of(e) as int, j)) by {
        lemma_word_zero(mo, t, t + 4 * j);
        lemma_frames_apart(t, p);
        lemma_word_other(z, p + 4 * k0, le_bytes(tf | fl), t + 4 * j);
        lemma_word_other(m1, a, le_bytes(pte), t + 4 * j);
    }
    assert forall|b: int| 0 <= b < mo.len() && fo.used(b / 4096) && b / 4096 != p / 4096 implies #[trigger] mm[b] == mo[b] by {
        if t <= b < t + 4096 {
            lemma_byte_frame(t, b);
        }
        if p + 4 * k0 <= b < p + 4 * k0 + 4 {
            lemma_byte_frame(p, b);
        }
    }
}

impl PageDir {
    /// The physical address of the directory.
    pub fn phys_addr(&self) -> (r: u32)
        ensures
            r == self.phys,
    {
        self.phys
    }

    /// The directory whose frame is at `phys`.
    pub fn from_phys(phys: u32) -> (r: PageDir)
        ensures
            r.phys == phys,
    {
        PageDir { phys }
    }

    /// A new directory in a free frame, every entry absent. `None` when no frame is free.
    pub fn new(frames: &mut FrameAllocator, mem: &mut UserMem) -> (r: Option<PageDir>)
        requires
            old(frames).wf(),
            old(frames).used_frames < usize::MAX,
            frames_fit(*old(frames), *old(mem)),
        ensures
            final(frames).wf(),
            frames_fit(*final(frames), *final(mem)),
            final(frames).total_frames == old(frames).total_frames,
            match r {
                Some(pd) => {
                    &&& pd.phys % 4096 == 0
                    &&& (pd.phys as int) / 4096 < old(frames).total_frames
                    &&& old(mem).contains(pd.phys as int, 4096)
                    &&& final(frames).used_frames == old(frames).used_frames + 1
                    &&& final(mem).base == old(mem).base
                    &&& !old(frames).used(pd.phys as int / 4096)
                    &&& forall|j: int| 0 <= j < pd.phys / 4096 ==> old(frames).used(j)
                    &&& final(frames).used(pd.phys as int / 4096)
                    &&& forall|j: int| 0 <= j < BITMAP_FRAMES && j != pd.phys / 4096 ==> final(frames).used(j) == old(frames).used(j)
                    &&& final(mem).bytes@ == zero_page(old(mem).bytes@, pd.phys as int)
                },
                None => *final(frames) == *old(frames) && *final(mem) == *old(mem),
            },
            r is None <==> forall|j: int| 0 <= j < old(frames).total_frames ==> old(frames).used(j),
    {
        match take_frame(frames, mem) {
            Some(a) => {
                zero_frame(mem, a);
                Some(PageDir { phys: a })
            },
            None => None,
        }
    }
}

impl PageDir {
    /// Maps the page at `vaddr` to the frame at `paddr` (present, writable, and user pages
    /// when `user`), taking and zeroing a frame for the page table when the directory entry
    /// is absent. False only when that frame cannot be had.
    pub fn map(&self, frames: &mut FrameAllocator, mem: &mut UserMem, vaddr: u32, paddr: u32, user: bool) -> (r: bool)
        requires
            old(frames).wf(),
            old(frames).used_frames < usize::MAX,
            frames_fit(*old(frames), *old(mem)),
            self.phys % 4096 == 0,
            old(mem).contains(self.phys as int, 4096),
            old(frames).used(self.phys as int / 4096),
            ({
                let pde = word_at(old(mem).bytes@, self.phys + 4 * pd_index(vaddr as int));
                present(pde) ==> old(mem).contains(frame_of(pde) as int, 4096) && frame_of(pde) != self.phys
            }),
        ensures
            final(frames).wf(),
            frames_fit(*final(frames), *final(mem)),
            final(frames).total_frames == old(frames).total_frames,
            ({
                let m = old(mem).bytes@;
                let pde_at = self.phys + 4 * pd_index(vaddr as int);
                let pde = word_at(m, pde_at);
                let pte = paddr | entry_flags(user);
                if present(pde) {
                    &&& r
                    &&& *final(frames) == *old(frames)
                    &&& final(mem).bytes@ == overwrite(m, frame_of(pde) + 4 * pt_index(vaddr as int), le_bytes(pte))
                } else if forall|j: int| 0 <= j < old(frames).total_frames ==> old(frames).used(j) {
                    !r && *final(frames) == *old(frames) && *final(mem) == *old(mem)
                } else {
                    let f = frame_of(word_at(final(mem).bytes@, pde_at));
                    &&& r
                    &&& f % 4096 == 0
                    &&& old(mem).contains(f as int, 4096)
                    &&& !old(frames).used(f as int / 4096)
                    &&& forall|j: int| 0 <= j < f / 4096 ==> old(frames).used(j)
                    &&& final(frames).used(f as int / 4096)
                    &&& forall|j: int| 0 <= j < BITMAP_FRAMES && j != f / 4096 ==> final(frames).used(j) == old(frames).used(j)
                    &&& final(frames).used_frames == old(frames).used_frames + 1
                    &&& final(mem).bytes@ == overwrite(overwrite(zero_page(m, f as int), pde_at, le_bytes(f | entry_flags(user))),
                        f + 4 * pt_index(vaddr as int), le_bytes(pte))
                }
            }),
            r ==> translate(final(mem).bytes@, self.phys as int, vaddr as int) == Some(frame_of(paddr | entry_flags(user))),
            final(mem).base == old(mem).base,
            pd_ok(*old(frames), *old(mem), self.phys) ==> pd_ok(*final(frames), *final(mem), self.phys),
            frames_grow(*old(frames), *final(frames)),
    {
        let pdi = (vaddr / 4096) / 1024;
        let pti = (vaddr / 4096) % 1024;
        let flags: u32 = if user { 7 } else { 3 };
        let pde_at = self.phys + 4 * pdi;
        let pde = mem.read_u32(pde_at);
        let ghost m0 = mem.bytes@;
        let pt: u32 = if pde & 1 == 0 {
            match take_frame(frames, mem) {
                None => return false,
                Some(f) => {
                    zero_frame(mem, f);
                    mem.write_u32(pde_at, f | flags);
                    proof {
                        assert(flags & 1 != 0) by (bit_vector) requires flags == 3 || flags == 7;
                        lemma_entry(f, flags);
                        lemma_word_same(zero_page(m0, f as int), pde_at as int, f | flags);
                        assert(!(forall|j: int| 0 <= j < old(frames).total_frames ==> old(frames).used(j)));
                    }
                    f
                },
            }
        } else {
            pde & 0xFFFFF000
        };
        let ghost m1 = mem.bytes@;
        proof {
            lemma_frame_aligned(pde);
            assert((paddr | flags) & 1 != 0) by (bit_vector) requires flags == 3 || flags == 7;
            assert(pt % 4096 == 0);
            assert(pt != self.phys);
            lemma_frames_apart(pt as int, self.phys as int);
        }
        mem.write_u32(pt + 4 * pti, paddr | flags);
        proof {
            let m2 = mem.bytes@;
            lemma_word_same(m1, pt + 4 * pti, paddr | flags);
            lemma_word_other(m1, pt + 4 * pti, le_bytes(paddr | flags), pde_at as int);
            assert(pd_index(vaddr as int) == pdi);
            assert(pt_index(vaddr as int) == pti);
            assert(flags == entry_flags(user));
            let pde2 = word_at(m2, pde_at as int);
            assert(pde2 == word_at(m1, pde_at as int));
            assert(present(pde2));
            assert(frame_of(pde2) == pt);
            assert(word_at(m2, pt + 4 * pti) == paddr | flags);
            assert(present(paddr | flags));
            assert(translate(m2, self.phys as int, vaddr as int) == Some(frame_of(paddr | flags)));
            assert(frame_of(word_at(m2, pde_at as int)) == pt);
            if pd_ok(*old(frames), *old(mem), self.phys) {
                assert forall|i: int| 0 <= i < 1024 implies {
                    let e = #[trigger] word_at(m2, self.phys + 4 * i);
                    present(e) ==> {
                        &&& mem.contains(frame_of(e) as int, 4096)
                        &&& frame_of(e) != self.phys
                        &&& (frame_of(e) as int) / 4096 < frames.total_frames
                        &&& frames.used(frame_of(e) as int / 4096)
                    }
                } by {
                    let a = self.phys + 4 * i;
                    lemma_word_other(m1, pt + 4 * pti, le_bytes(paddr | flags), a);
                    if i != pdi {
                        if pde & 1 == 0 {
                            lemma_word_other(zero_page(m0, pt as int), pde_at as int, le_bytes(pt | flags), a);
                            lemma_frames_apart(pt as int, self.phys as int);
                            lemma_word_other(m0, pt as int, Seq::new(4096, |k: int| 0u8), a);
                            let e0 = word_at(m0, a);
                            if present(e0) {
                                assert(frame_of(e0) != pt);
                            }
                        }
                    }
                }
            }
        }
        true
    }
}

/// After the free frame `fi` is taken, every frame is used exactly when `fi` was the only
/// free one.
proof fn lemma_one_free(f0: FrameAllocator, f1: FrameAllocator, fi: int)
    requires
        f0.wf(),
        0 <= fi < f0.total_frames,
        !f0.used(fi),
        f1.total_frames == f0.total_frames,
        forall|j: int| 0 <= j < BITMAP_FRAMES && j != fi ==> f1.used(j) == f0.used(j),
        f1.used(fi),
    ensures
        !(forall|j: int| 0 <= j < f0.total_frames ==> f0.used(j)),
        (exists|g: int| 0 <= g < f0.total_frames && !f0.used(g)
            && forall|j: int| 0 <= j < f0.total_frames && j != g ==> f0.used(j))
            <==> (forall|j: int| 0 <= j < f1.total_frames ==> f1.used(j)),
{
    let tot = f0.total_frames as int;
    if forall|j: int| 0 <= j < tot ==> f1.used(j) {
        assert forall|j: int| 0 <= j < tot && j != fi implies f0.used(j) by {
            assert(f1.used(j));
        }
    }
    if exists|g: int| 0 <= g < tot && !f0.used(g) && forall|j: int| 0 <= j < tot && j != g ==> f0.used(j) {
        let g = choose|g: int| 0 <= g < tot && !f0.used(g) && forall|j: int| 0 <= j < tot && j != g ==> f0.used(j);
        if g != fi {
            assert(f0.used(fi));
        }
        assert forall|j: int| 0 <= j < tot implies f1.used(j) by {
            if j != fi {
                assert(f0.used(j));
            }
        }
    }
}

impl PageDir {
    /// Takes a free frame and maps the page at `vaddr` to it. `None` when no frame is free
    /// or the page table cannot be made.
#[verifier::rlimit(100)]
    #[verifier::spinoff_prover]
    pub fn map_alloc(&self, frames: &mut FrameAllocator, mem: &mut UserMem, vaddr: u32, user: bool) -> (r: Option<u32>)
        requires
            old(frames).wf(),
            old(frames).used_frames < usize::MAX - 1,
            frames_fit(*old(frames), *old(mem)),
            pd_ok(*old(frames), *old(mem), self.phys),
        ensures
            final(frames).wf(),
            frames_fit(*final(frames), *final(mem)),
            final(frames).total_frames == old(frames).total_frames,
            final(frames).used_frames <= old(frames).used_frames + 2,
            final(mem).base == old(mem).base,
            pd_ok(*final(frames), *final(mem), self.phys),
            frames_grow(*old(frames), *final(frames)),
            match r {
                Some(f) => {
                    &&& f % 4096 == 0
                    &&& !old(frames).used(f as int / 4096)
                    &&& final(frames).used(f as int / 4096)
                    &&& translate(final(mem).bytes@, self.phys as int, vaddr as int) == Some(f)
                },
                None => *final(mem) == *old(mem),
            },
            r is None ==> forall|j: int| 0 <= j < final(frames).total_frames ==> final(frames).used(j),
            r is Some ==> final(frames).used_frames >= old(frames).used_frames + 1,
            exists|a: int, b: int| #[trigger] frames_differ_at(*old(frames), *final(frames), a, b),
            r matches Some(f) ==> (user_space(*old(frames), old(mem).bytes@, self.phys) && 3072 <= vaddr / 4096 ==> {
                &&& user_space(*final(frames), final(mem).bytes@, self.phys)
                &&& page_frame(final(mem).bytes@, self.phys as int, vaddr as int / 4096) == Some(f)
                &&& forall|q: int| 3072 <= q < 0x100000 && q != vaddr as int / 4096
                    ==> #[trigger] page_frame(final(mem).bytes@, self.phys as int, q) == page_frame(old(mem).bytes@, self.phys as int, q)
                &&& forall|va: int| 0 <= va < 0x1_0000_0000 && 3072 <= va / 4096 && va / 4096 != vaddr as int / 4096
                    && page_frame(old(mem).bytes@, self.phys as int, va / 4096) is Some
                    ==> #[trigger] vbyte(final(mem).bytes@, self.phys as int, va) == vbyte(old(mem).bytes@, self.phys as int, va)
            }),
            r is None <==> (forall|j: int| 0 <= j < old(frames).total_frames ==> old(frames).used(j))
                || (!present(word_at(old(mem).bytes@, self.phys + 4 * pd_index(vaddr as int)))
                    && exists|f: int| 0 <= f < old(frames).total_frames && !old(frames).used(f)
                        && forall|j: int| 0 <= j < old(frames).total_frames && j != f ==> old(frames).used(j)),
    {
        let ghost f0 = *frames;
        let f = match take_frame(frames, mem) {
            Some(f) => f,
            None => {
                proof {
                    assert(frames_differ_at(*old(frames), *frames, 0, 0));
                }
                return None;
            },
        };
        proof { lemma_one_free(f0, *frames, f as int / 4096); }
        assert(f as int / 4096 != self.phys as int / 4096);
        proof {
            assert forall|i: int| 0 <= i < 1024 implies {
                let e = #[trigger] word_at(mem.bytes@, self.phys + 4 * i);
                present(e) ==> {
                    &&& mem.contains(frame_of(e) as int, 4096)
                    &&& frame_of(e) != self.phys
                    &&& (frame_of(e) as int) / 4096 < frames.total_frames
                    &&& frames.used(frame_of(e) as int / 4096)
                }
            } by {
                let e = word_at(mem.bytes@, self.phys + 4 * i);
                if present(e) {
                    assert(old(frames).used(frame_of(e) as int / 4096));
                }
            }
            let k = pd_index(vaddr as int);
            assert(0 <= k < 1024);
            assert(word_at(mem.bytes@, self.phys + 4 * k) == word_at(mem.bytes@, self.phys + 4 * pd_index(vaddr as int)));
        }
        let ghost f1 = *frames;
        let ghost mo = mem.bytes@;
        if self.map(frames, mem, vaddr, f, user) {
            proof {
                lemma_entry(f, entry_flags(user));
                assert(entry_flags(user) < 4096);
                let v = vaddr as int;
                let k0 = pd_index(v);
                let pde = word_at(mo, self.phys + 4 * k0);
                let fi = f as int / 4096;
                if present(pde) {
                    assert forall|j: int| 0 <= j < BITMAP_FRAMES && j != fi && j != fi
                        implies #[trigger] frames.used(j) == old(frames).used(j) by {}
                    assert(frames_differ_at(*old(frames), *frames, fi, fi));
                } else {
                    let tf = frame_of(word_at(mem.bytes@, self.phys + 4 * k0));
                    let ti = tf as int / 4096;
                    assert forall|j: int| 0 <= j < BITMAP_FRAMES && j != fi && j != ti
                        implies #[trigger] frames.used(j) == old(frames).used(j) by {
                        assert(f1.used(j) == old(frames).used(j));
                    }
                    assert(frames_differ_at(*old(frames), *frames, fi, ti));
                }
                if user_space(*old(frames), mo, self.phys) && 3072 <= v / 4096 {
                    lemma_pd_ok_seq(*frames, *mem, self.phys);
                    assert(frames.used(fi));
                    assert forall|j: int| 0 <= j < BITMAP_FRAMES && old(frames).used(j) implies #[trigger] frames.used(j) by {
                        assert(f1.used(j));
                    }
                    if present(pde) {
                        assert(present(entry_at(mo, self.phys as int, k0)));
                        lemma_map_wrote_present(*old(frames), *frames, mo, mem.bytes@, self.phys, v, f, f | entry_flags(user));
                    } else {
                        let tf = frame_of(word_at(mem.bytes@, self.phys + 4 * k0));
                        assert(!f1.used(tf as int / 4096));
                        assert(tf != f);
                        lemma_map_wrote_absent(*old(frames), *frames, mo, mem.bytes@, self.phys, v, f, f | entry_flags(user),
                            tf, entry_flags(user));
                    }
                    lemma_map_keeps(*old(frames), *frames, mo, mem.bytes@, self.phys, v, f);
                }
            }
            Some(f)
        } else {
            proof {
                assert forall|j: int| 0 <= j < BITMAP_FRAMES && j != f as int / 4096 && j != f as int / 4096
                    implies #[trigger] frames.used(j) == old(frames).used(j) by {}
                assert(frames_differ_at(*old(frames), *frames, f as int / 4096, f as int / 4096));
            }
            None
        }
    }
}

impl PageDir {
    /// Maps `size / 4096` fresh user pages below `top`. False as soon as a frame cannot be
    /// had (the pages mapped so far stay mapped).
    pub fn alloc_stack(&self, frames: &mut FrameAllocator, mem: &mut UserMem, top: u32, size: u32) -> (r: bool)
        requires
            old(frames).wf(),
            frames_fit(*old(frames), *old(mem)),
            pd_ok(*old(frames), *old(mem), self.phys),
            size <= top,
            old(frames).used_frames + 4 * (size / 4096) + 4 < usize::MAX,
        ensures
            final(frames).wf(),
            frames_fit(*final(frames), *final(mem)),
            final(frames).total_frames == old(frames).total_frames,
            final(frames).used_frames <= old(frames).used_frames + 4 * (size / 4096),
            final(mem).base == old(mem).base,
            pd_ok(*final(frames), *final(mem), self.phys),
            frames_grow(*old(frames), *final(frames)),
            !r ==> forall|j: int| 0 <= j < final(frames).total_frames ==> final(frames).used(j),
            r ==> final(frames).used_frames >= old(frames).used_frames + size / 4096,
            r && size / 4096 > 0 ==> translate(final(mem).bytes@, self.phys as int,
                top - size + (size / 4096 - 1) * 4096) is Some,
            free_count(*old(frames), old(frames).total_frames as int) >= 2 * (size / 4096) ==> r,
            r && user_space(*old(frames), old(mem).bytes@, self.phys) && (top - size) % 4096 == 0
                && 3072 <= (top - size) / 4096 ==> {
                let s0 = (top - size) / 4096;
                &&& user_space(*final(frames), final(mem).bytes@, self.phys)
                &&& forall|q: int| s0 <= q < s0 + size / 4096 ==> #[trigger] page_frame(final(mem).bytes@, self.phys as int, q) is Some
                &&& forall|q: int| 3072 <= q < 0x100000 && !(s0 <= q < s0 + size / 4096)
                    ==> #[trigger] page_frame(final(mem).bytes@, self.phys as int, q) == page_frame(old(mem).bytes@, self.phys as int, q)
                &&& forall|va: int| 0 <= va < 0x1_0000_0000 && 3072 <= va / 4096 && !(s0 <= va / 4096 < s0 + size / 4096)
                    && page_frame(old(mem).bytes@, self.phys as int, va / 4096) is Some
                    ==> #[trigger] vbyte(final(mem).bytes@, self.phys as int, va) == vbyte(old(mem).bytes@, self.phys as int, va)
            },
    {
        let start = top - size;
        let pages = size / 4096;
        let ghost tot = old(frames).total_frames as int;
        let ghost us = user_space(*old(frames), old(mem).bytes@, self.phys) && (top - size) % 4096 == 0
            && 3072 <= (top - size) / 4096;
        let ghost room = free_count(*old(frames), tot) >= 2 * (size / 4096);
        let ghost s0 = (top - size) / 4096;
        let mut i: u32 = 0;
        while i < pages
            invariant
                tot == old(frames).total_frames,
                us == (user_space(*old(frames), old(mem).bytes@, self.phys) && (top - size) % 4096 == 0
                    && 3072 <= (top - size) / 4096),
                room == (free_count(*old(frames), tot) >= 2 * (size / 4096)),
                s0 == (top - size) / 4096,
                room ==> free_count(*frames, tot) >= 2 * (pages - i),
                us ==> user_space(*frames, mem.bytes@, self.phys),
                us ==> forall|q: int| s0 <= q < s0 + i ==> #[trigger] page_frame(mem.bytes@, self.phys as int, q) is Some,
                us ==> forall|q: int| 3072 <= q < 0x100000 && !(s0 <= q < s0 + i)
                    ==> #[trigger] page_frame(mem.bytes@, self.phys as int, q) == page_frame(old(mem).bytes@, self.phys as int, q),
                us ==> forall|va: int| 0 <= va < 0x1_0000_0000 && 3072 <= va / 4096 && !(s0 <= va / 4096 < s0 + i)
                    && page_frame(old(mem).bytes@, self.phys as int, va / 4096) is Some
                    ==> #[trigger] vbyte(mem.bytes@, self.phys as int, va) == vbyte(old(mem).bytes@, self.phys as int, va),
                frames.wf(),
                frames_fit(*frames, *mem),
                frames.total_frames == old(frames).total_frames,
                mem.base == old(mem).base,
                pd_ok(*frames, *mem, self.phys),
                i <= pages,
                pages == size / 4096,
                start == top - size,
                frames.used_frames <= old(frames).used_frames + 4 * i,
                old(frames).used_frames + 4 * pages + 4 < usize::MAX,
                frames_grow(*old(frames), *frames),
                frames.used_frames >= old(frames).used_frames + i,
                i > 0 ==> translate(mem.bytes@, self.phys as int, start + (i - 1) * 4096) is Some,
            decreases pages - i,
        {
            assert(start + i * 4096 < 0x1_0000_0000) by (nonlinear_arith)
                requires start == top - size, i < pages, pages == size / 4096, size <= top, top < 0x1_0000_0000;
            let vaddr = start + i * 4096;
            let ghost fb = *frames;
            let ghost mb = mem.bytes@;
            proof {
                if us {
                    assert(vaddr as int / 4096 == s0 + i) by (nonlinear_arith)
                        requires vaddr == start + i * 4096, start == top - size, (top - size) % 4096 == 0,
                            s0 == (top - size) / 4096, 0 <= i;
                }
            }
            match self.map_alloc(frames, mem, vaddr, true) {
                Some(_) => {},
                None => {
                    proof {
                        if room {
                            if forall|j: int| 0 <= j < fb.total_frames ==> fb.used(j) {
                                lemma_free_count_all_used(fb, tot);
                            } else {
                                let g = choose|g: int| 0 <= g < fb.total_frames && !fb.used(g)
                                    && forall|j: int| 0 <= j < fb.total_frames && j != g ==> fb.used(j);
                                lemma_free_count_one(fb, tot, g);
                            }
                        }
                    }
                    return false;
                },
            }
            proof {
                let (a, b) = choose|a: int, b: int| #[trigger] frames_differ_at(fb, *frames, a, b);
                lemma_free_count_two(fb, *frames, a, b, tot);
                if us {
                    assert forall|q: int| s0 <= q < s0 + i + 1 implies #[trigger] page_frame(mem.bytes@, self.phys as int, q) is Some by {
                        if q < s0 + i {
                            assert(page_frame(mb, self.phys as int, q) is Some);
                        }
                    }
                    assert forall|q: int| 3072 <= q < 0x100000 && !(s0 <= q < s0 + i + 1)
                        implies #[trigger] page_frame(mem.bytes@, self.phys as int, q) == page_frame(old(mem).bytes@, self.phys as int, q) by {
                        assert(page_frame(mb, self.phys as int, q) == page_frame(old(mem).bytes@, self.phys as int, q));
                    }
                    assert forall|va: int| 0 <= va < 0x1_0000_0000 && 3072 <= va / 4096 && !(s0 <= va / 4096 < s0 + i + 1)
                        && page_frame(old(mem).bytes@, self.phys as int, va / 4096) is Some
                        implies #[trigger] vbyte(mem.bytes@, self.phys as int, va) == vbyte(old(mem).bytes@, self.phys as int, va) by {
                        assert(page_frame(mb, self.phys as int, va / 4096) == page_frame(old(mem).bytes@, self.phys as int, va / 4096));
                        assert(vbyte(mb, self.phys as int, va) == vbyte(old(mem).bytes@, self.phys as int, va));
                    }
                }
            }
            assert forall|j: int| 0 <= j < BITMAP_FRAMES && old(frames).used(j) implies #[trigger] frames.used(j) by {
                assert(fb.used(j));
            }
            i = i + 1;
        }
        true
    }

    /// Identity-maps the first 12 MiB (three tables of kernel pages, the directory entries
    /// user-accessible). False when a table frame cannot be had.
    #[verifier::rlimit(40)]
    pub fn identity_map_kernel(&self, frames: &mut FrameAllocator, mem: &mut UserMem) -> (r: bool)
        requires
            old(frames).wf(),
            frames_fit(*old(frames), *old(mem)),
            pd_ok(*old(frames), *old(mem), self.phys),
            old(frames).used_frames + 3 < usize::MAX,
        ensures
            final(frames).wf(),
            frames_fit(*final(frames), *final(mem)),
            final(frames).total_frames == old(frames).total_frames,
            final(frames).used_frames <= old(frames).used_frames + 3,
            final(mem).base == old(mem).base,
            pd_ok(*final(frames), *final(mem), self.phys),
            frames_grow(*old(frames), *final(frames)),
            r ==> forall|k: int, i: int| 0 <= k < 3 && 0 <= i < 1024 ==>
                #[trigger] translate(final(mem).bytes@, self.phys as int, (k * 1024 + i) * 4096) == Some(((k * 1024 + i) * 4096) as u32),
            forall|i: int| 3 <= i < 1024 ==> #[trigger] entry_at(final(mem).bytes@, self.phys as int, i)
                == entry_at(old(mem).bytes@, self.phys as int, i),
            free_count(*final(frames), old(frames).total_frames as int) + 3 >= free_count(*old(frames), old(frames).total_frames as int),
    {
        let mut k: u32 = 0;
        while k < 3
            invariant
                frames.wf(),
                frames_fit(*frames, *mem),
                frames.total_frames == old(frames).total_frames,
                mem.base == old(mem).base,
                pd_ok(*frames, *mem, self.phys),
                k <= 3,
                frames.used_frames <= old(frames).used_frames + k,
                old(frames).used_frames + 3 < usize::MAX,
                frames_grow(*old(frames), *frames),
                forall|kk: int, i: int| 0 <= kk < k && 0 <= i < 1024 ==>
                    #[trigger] translate(mem.bytes@, self.phys as int, (kk * 1024 + i) * 4096) == Some(((kk * 1024 + i) * 4096) as u32),
                forall|i: int| 3 <= i < 1024 ==> #[trigger] entry_at(mem.bytes@, self.phys as int, i)
                    == entry_at(old(mem).bytes@, self.phys as int, i),
                free_count(*frames, old(frames).total_frames as int) + k >= free_count(*old(frames), old(frames).total_frames as int),
            decreases 3 - k,
        {
            let ghost fb = *frames;
            let t = match take_frame(frames, mem) {
                Some(f) => f,
                None => return false,
            };
            proof {
                lemma_free_count_two(fb, *frames, t as int / 4096, t as int / 4096, old(frames).total_frames as int);
            }
            assert forall|j: int| 0 <= j < BITMAP_FRAMES && old(frames).used(j) implies #[trigger] frames.used(j) by {
                assert(fb.used(j));
            }
            let ghost m0 = mem.bytes@;
            proof { lemma_frames_apart(t as int, self.phys as int); }
            let mut i: u32 = 0;
            while i < 1024
                invariant
                    mem.base == old(mem).base,
                    mem.base == 0,
                    mem.bytes@.len() == m0.len(),
                    mem.contains(t as int, 4096),
                    t % 4096 == 0,
                    k < 3,
                    i <= 1024,
                    forall|j: int| 0 <= j < i ==> #[trigger] word_at(mem.bytes@, t + 4 * j) == ((k * 1024 + j) * 4096) as u32 | 3u32,
                    forall|b: int| 0 <= b < m0.len() && !(t <= b < t + 4096) ==> #[trigger] mem.bytes@[b] == m0[b],
                decreases 1024 - i,
            {
                let ghost mb = mem.bytes@;
                let val: u32 = ((k * 1024 + i) * 4096) | 3;
                mem.write_u32(t + 4 * i, val);
                proof {
                    lemma_word_same(mb, t + 4 * i, val);
                    assert forall|j: int| 0 <= j < i + 1 implies #[trigger] word_at(mem.bytes@, t + 4 * j) == ((k * 1024 + j) * 4096) as u32 | 3u32 by {
                        if j < i {
                            lemma_word_other(mb, t + 4 * i, le_bytes(val), t + 4 * j);
                        }
                    }
                }
                i = i + 1;
            }
            let ghost m1 = mem.bytes@;
            proof {
                assert forall|b: int| 0 <= b && b + 4 <= m0.len() && (b + 4 <= t || t + 4096 <= b) implies
                    word_at(m1, b) == word_at(m0, b) by {
                    assert(m1[b] == m0[b] && m1[b + 1] == m0[b + 1] && m1[b + 2] == m0[b + 2] && m1[b + 3] == m0[b + 3]);
                }
            }
            let pde_at = self.phys + 4 * k;
            mem.write_u32(pde_at, t | 7);
            proof {
                let m2 = mem.bytes@;
                lemma_entry(t, 7);
                assert(7u32 & 1 != 0) by (bit_vector);
                lemma_word_same(m1, pde_at as int, t | 7);
                // words outside the directory slot keep their values
                assert forall|b: int| 0 <= b && b + 4 <= m0.len() && (b + 4 <= pde_at || pde_at + 4 <= b) implies
                    word_at(m2, b) == word_at(m1, b) by {
                    lemma_word_other(m1, pde_at as int, le_bytes(t | 7), b);
                }
                assert forall|i: int| 0 <= i < 1024 implies {
                    let e = #[trigger] word_at(m2, self.phys + 4 * i);
                    present(e) ==> {
                        &&& mem.contains(frame_of(e) as int, 4096)
                        &&& frame_of(e) != self.phys
                        &&& (frame_of(e) as int) / 4096 < frames.total_frames
                        &&& frames.used(frame_of(e) as int / 4096)
                    }
                } by {
                    if i != k {
                        assert(word_at(m2, self.phys + 4 * i) == word_at(m1, self.phys + 4 * i));
                        assert(word_at(m1, self.phys + 4 * i) == word_at(m0, self.phys + 4 * i));
                    }
                }
                assert forall|kk: int, i: int| 0 <= kk < k + 1 && 0 <= i < 1024 implies
                    #[trigger] translate(m2, self.phys as int, (kk * 1024 + i) * 4096) == Some(((kk * 1024 + i) * 4096) as u32) by {
                    let v = (kk * 1024 + i) * 4096;
                    assert(pd_index(v) == kk && pt_index(v) == i) by (nonlinear_arith)
                        requires v == (kk * 1024 + i) * 4096, 0 <= kk < 3, 0 <= i < 1024;
                    let x = ((kk * 1024 + i) * 4096) as u32;
                    assert(x % 4096 == 0 && x == (kk * 1024 + i) * 4096) by (nonlinear_arith)
                        requires x == ((kk * 1024 + i) * 4096) as u32, 0 <= kk < 3, 0 <= i < 1024;
                    lemma_entry(x, 3);
                    assert(3u32 & 1 != 0) by (bit_vector);
                    if kk < k {
                        assert(word_at(m2, self.phys + 4 * kk) == word_at(m0, self.phys + 4 * kk));
                        let e = word_at(m0, self.phys + 4 * kk);
                        assert(translate(m0, self.phys as int, v) == Some(x));
                        assert(present(e));
                        assert(frame_of(e) != t);
                        lemma_frame_aligned(e);
                        lemma_frames_apart(frame_of(e) as int, t as int);
                        assert(word_at(m2, frame_of(e) + 4 * i) == word_at(m0, frame_of(e) + 4 * i));
                    } else {
                        assert(word_at(m2, t + 4 * i) == word_at(m1, t + 4 * i));
                    }
                }
                assert forall|i: int| 3 <= i < 1024 implies #[trigger] entry_at(m2, self.phys as int, i)
                    == entry_at(old(mem).bytes@, self.phys as int, i) by {
                    assert(entry_at(m0, self.phys as int, i) == entry_at(old(mem).bytes@, self.phys as int, i));
                    assert(word_at(m2, self.phys + 4 * i) == word_at(m1, self.phys + 4 * i));
                    assert(word_at(m1, self.phys + 4 * i) == word_at(m0, self.phys + 4 * i));
                }
            }
            k = k + 1;
        }
        true
    }
}

/// Whether `pd_ok` holds, checked entry by entry.
pub fn pd_check(frames: &FrameAllocator, mem: &UserMem, pd: u32) -> (r: bool)
    requires
        frames.wf(),
        mem.base == 0,
    ensures
        r == pd_ok(*frames, *mem, pd),
{
    if pd % 4096 != 0 || !mem.has(pd, 4096) || (pd / 4096) as usize >= frames.total_frames
        || !frames.is_used((pd / 4096) as usize) {
        return false;
    }
    let mut i: u32 = 0;
    while i < 1024
        invariant
            frames.wf(),
            mem.base == 0,
            pd % 4096 == 0,
            mem.contains(pd as int, 4096),
            (pd as int) / 4096 < frames.total_frames,
            frames.used(pd as int / 4096),
            i <= 1024,
            forall|j: int| 0 <= j < i ==> {
                let e = #[trigger] word_at(mem.bytes@, pd + 4 * j);
                present(e) ==> {
                    &&& mem.contains(frame_of(e) as int, 4096)
                    &&& frame_of(e) != pd
                    &&& (frame_of(e) as int) / 4096 < frames.total_frames
                    &&& frames.used(frame_of(e) as int / 4096)
                }
            },
        decreases 1024 - i,
    {
        let e = mem.read_u32(pd + 4 * i);
        if e & 1 != 0 {
            let f = e & 0xFFFFF000;
            if !mem.has(f, 4096) || f == pd || (f / 4096) as usize >= frames.total_frames || !frames.is_used((f / 4096) as usize) {
                assert(word_at(mem.bytes@, pd + 4 * i) == e);
                assert(present(e) && frame_of(e) == f);
                return false;
            }
        }
        i = i + 1;
    }
    true
}

impl PageDir {
    /// The frame that `v` maps to, when the directory entry and the page entry are present
    /// and the page table lies in memory.
    pub fn translate_page(&self, mem: &UserMem, v: u32) -> (r: Option<u32>)
        requires
            mem.base == 0,
            mem.contains(self.phys as int, 4096),
        ensures
            r == translate_bytes(mem.bytes@, self.phys as int, v as int),
    {
        let pde = mem.read_u32(self.phys + 4 * ((v / 4096) / 1024));
        if pde & 1 == 0 {
            return None;
        }
        let t = pde & 0xFFFFF000;
        if !mem.has(t, 4096) {
            return None;
        }
        let pte = mem.read_u32(t + 4 * ((v / 4096) % 1024));
        if pte & 1 == 0 {
            return None;
        }
        Some(pte & 0xFFFFF000)
    }

    /// Writes `data[from..from + n]` at virtual address `v` of this address space, byte by
    /// byte through the page tables. False at the first byte whose page is not mapped (the
    /// bytes before it are written).
    pub fn write_virt(&self, mem: &mut UserMem, v: u32, data: &[u8], from: usize, n: usize) -> (r: bool)
        requires
            old(mem).base == 0,
            old(mem).contains(self.phys as int, 4096),
            from + n <= data@.len(),
        ensures
            final(mem).base == 0,
            final(mem).bytes@.len() == old(mem).bytes@.len(),
            (r, final(mem).bytes@) == write_walk(old(mem).bytes@, self.phys as int, v as int, data@, from as int, 0, n as int),
    {
        let dl: usize = data.len();
        let mut i: usize = 0;
        while i < n
            invariant
                mem.base == 0,
                mem.bytes@.len() == old(mem).bytes@.len(),
                mem.contains(self.phys as int, 4096),
                from + n <= data@.len(),
                dl == data@.len(),
                i <= n,
                write_walk(mem.bytes@, self.phys as int, v as int, data@, from as int, i as int, n as int)
                    == write_walk(old(mem).bytes@, self.phys as int, v as int, data@, from as int, 0, n as int),
            decreases n - i,
        {
            if i as u64 > 0xFFFF_FFFF - v as u64 {
                return false;
            }
            let va = v + i as u32;
            let f = match self.translate_page(mem, va) {
                Some(f) => f,
                None => return false,
            };
            let pa = f as u64 + (va & 0xFFF) as u64;
            if pa > 0xFFFF_FFFF || !mem.has(pa as u32, 1) {
                return false;
            }
            assert(byte_target(mem.bytes@, self.phys as int, v + i) == Some(pa as int));
            let ghost m0 = mem.bytes@;
            mem.write_u8(pa as u32, data[from + i]);
            assert(mem.bytes@ =~= m0.update(pa as int, data@[from + i]));
            i = i + 1;
        }
        true
    }

    /// Writes `n` zero bytes at virtual address `v` of this address space (as `write_virt`).
    pub fn zero_virt(&self, mem: &mut UserMem, v: u32, n: u32) -> (r: bool)
        requires
            old(mem).base == 0,
            old(mem).contains(self.phys as int, 4096),
        ensures
            final(mem).base == 0,
            final(mem).bytes@.len() == old(mem).bytes@.len(),
            (r, final(mem).bytes@) == zero_walk(old(mem).bytes@, self.phys as int, v as int, 0, n as int),
    {
        let mut i: u32 = 0;
        while i < n
            invariant
                mem.base == 0,
                mem.bytes@.len() == old(mem).bytes@.len(),
                mem.contains(self.phys as int, 4096),
                i <= n,
                zero_walk(mem.bytes@, self.phys as int, v as int, i as int, n as int)
                    == zero_walk(old(mem).bytes@, self.phys as int, v as int, 0, n as int),
            decreases n - i,
        {
            if v as u64 + i as u64 > 0xFFFF_FFFF {
                return false;
            }
            let va = v + i;
            let f = match self.translate_page(mem, va) {
                Some(f) => f,
                None => return false,
            };
            let pa = f as u64 + (va & 0xFFF) as u64;
            if pa > 0xFFFF_FFFF || !mem.has(pa as u32, 1) {
                return false;
            }
            assert(byte_target(mem.bytes@, self.phys as int, v + i) == Some(pa as int));
            let ghost m0 = mem.bytes@;
            mem.write_u8(pa as u32, 0);
            assert(mem.bytes@ =~= m0.update(pa as int, 0u8));
            i = i + 1;
        }
        true
    }
}

} // verus!
