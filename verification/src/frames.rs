//! Physical frame allocator: one bit per 4 KiB frame, plus counters.
use vstd::prelude::*;

verus! {

pub const FRAME_SIZE: usize = 4096;
pub const HEAP_SIZE: usize = 64 * 1024;
pub const BITMAP_FRAMES: usize = 128 * 1024;
pub const BITMAP_BYTES: usize = 16384;

/// The frame bitmap with its counters.
pub struct FrameAllocator {
    pub bitmap: Vec<u8>,
    pub total_frames: usize,
    pub used_frames: usize,
    pub total_mem: usize,
}

/// Whether bit `k` of byte `b` is set.
pub open spec fn bit_of(b: u8, k: int) -> bool {
    (b >> (k as u8)) & 1u8 == 1u8
}

pub proof fn lemma_bit_set(b: u8, k: u8, j: u8)
    requires
        k < 8,
        j < 8,
    ensures
        bit_of(b | (1u8 << k), j as int) == (j == k || bit_of(b, j as int)),
        bit_of(b & !(1u8 << k), j as int) == (j != k && bit_of(b, j as int)),
        bit_of(b, k as int) == (b & (1u8 << k) != 0),
{
    assert(((b | (1u8 << k)) >> j) & 1u8 == 1u8 <==> (j == k || (b >> j) & 1u8 == 1u8)) by (bit_vector)
        requires k < 8, j < 8;
    assert(((b & !(1u8 << k)) >> j) & 1u8 == 1u8 <==> (j != k && (b >> j) & 1u8 == 1u8)) by (bit_vector)
        requires k < 8, j < 8;
    assert(((b >> k) & 1u8 == 1u8) <==> (b & (1u8 << k) != 0)) by (bit_vector)
        requires k < 8;
}

impl FrameAllocator {
    pub open spec fn wf(&self) -> bool {
        &&& self.bitmap@.len() == BITMAP_BYTES
        &&& self.total_frames <= BITMAP_FRAMES
    }

    /// Whether frame `i` is marked in use.
    pub open spec fn used(&self, i: int) -> bool {
        bit_of(self.bitmap@[i / 8], i % 8)
    }

    /// An allocator with every bit clear and the given counters.
    fn blank(total_frames: usize, used_frames: usize, total_mem: usize) -> (r: Self)
        requires
            total_frames <= BITMAP_FRAMES,
        ensures
            r.wf(),
            r.total_frames == total_frames,
            r.used_frames == used_frames,
            r.total_mem == total_mem,
            forall|i: int| 0 <= i < BITMAP_FRAMES ==> !r.used(i),
    {
        let mut bitmap: Vec<u8> = Vec::new();
        let mut k: usize = 0;
        while k < BITMAP_BYTES
            invariant
                k <= BITMAP_BYTES,
                bitmap@.len() == k,
                forall|j: int| 0 <= j < k ==> bitmap@[j] == 0u8,
            decreases BITMAP_BYTES - k,
        {
            bitmap.push(0u8);
            k = k + 1;
        }
        let r = FrameAllocator { bitmap, total_frames, used_frames, total_mem };
        assert forall|i: int| 0 <= i < BITMAP_FRAMES implies !r.used(i) by {
            assert(r.bitmap@[i / 8] == 0u8);
            let k = (i % 8) as u8;
            assert((0u8 >> k) & 1u8 == 0u8) by (bit_vector);
        }
        r
    }

    pub fn total_frames(&self) -> (r: usize)
        ensures
            r == self.total_frames,
    {
        self.total_frames
    }

    pub fn total(&self) -> (r: usize)
        ensures
            r == self.total_frames,
    {
        self.total_frames
    }

    pub fn used_count(&self) -> (r: usize)
        ensures
            r == self.used_frames,
    {
        self.used_frames
    }

    /// Marks frame `i` used or free, leaving every other frame as it was.
    pub fn set(&mut self, i: usize, v: bool)
        requires
            old(self).wf(),
            i < BITMAP_FRAMES,
        ensures
            final(self).wf(),
            final(self).used(i as int) == v,
            forall|j: int| 0 <= j < BITMAP_FRAMES && j != i ==> final(self).used(j) == old(self).used(j),
            final(self).total_frames == old(self).total_frames,
            final(self).used_frames == old(self).used_frames,
            final(self).total_mem == old(self).total_mem,
    {
        let byte = self.bitmap[i / 8];
        let k = (i % 8) as u8;
        let nb = if v { byte | (1u8 << k) } else { byte & !(1u8 << k) };
        self.bitmap.set(i / 8, nb);
        proof {
            assert forall|j: int| 0 <= j < BITMAP_FRAMES && j != i implies self.used(j) == old(self).used(j) by {
                if j / 8 == i / 8 {
                    lemma_bit_set(byte, k, (j % 8) as u8);
                }
            }
            lemma_bit_set(byte, k, k);
        }
    }

    /// Whether frame `i` is marked in use.
    pub fn is_used(&self, i: usize) -> (r: bool)
        requires
            self.wf(),
            i < BITMAP_FRAMES,
        ensures
            r == self.used(i as int),
    {
        let k = (i % 8) as u8;
        proof { lemma_bit_set(self.bitmap@[i as int / 8], k, k); }
        self.bitmap[i / 8] & (1u8 << k) != 0
    }
}


/// The first page boundary at or above `end`.
pub open spec fn page_round_up(end: int) -> int {
    ((end + 4095) / 4096) * 4096
}

/// The first page boundary at or above the end of the kernel image.
pub fn kernel_phys_end(bss_end: usize) -> (r: usize)
    requires
        bss_end + 0xFFF <= usize::MAX,
    ensures
        r == page_round_up(bss_end as int),
{
    let x = bss_end + 0xFFF;
    assert(x & !0xFFFusize == x - x % 4096) by (bit_vector);
    x & !0xFFFusize
}

/// The index of the first frame after the kernel image.
pub fn kernel_end_frame(bss_end: usize) -> (r: usize)
    requires
        bss_end + 0xFFF <= usize::MAX,
    ensures
        r == page_round_up(bss_end as int) / 4096,
{
    kernel_phys_end(bss_end) / FRAME_SIZE
}

/// Where the kernel heap starts: the first 1 MiB boundary at or above `kernel_end`.
pub open spec fn heap_base(kernel_end: int) -> int {
    ((kernel_end + 0xFFFFF) / 0x100000) * 0x100000
}

pub fn heap_base_of(kernel_end: usize) -> (r: usize)
    requires
        kernel_end + 0xFFFFF <= usize::MAX,
    ensures
        r == heap_base(kernel_end as int),
{
    let x = kernel_end + 0xFFFFF;
    assert(x & !0xFFFFFusize == x - x % 0x100000) by (bit_vector);
    x & !0xFFFFFusize
}

/// How many bytes of memory the boot loader reports: `mem_upper` KiB above the first MiB.
pub open spec fn mem_bytes(mem_upper: int) -> int {
    (mem_upper + 1024) * 1024
}

impl FrameAllocator {
    /// Sets up the allocator for `mem_upper` KiB of upper memory and a kernel image ending at
    /// `kernel_end` (page aligned): every frame below the kernel's end is used, every frame
    /// after it is free, and then the heap's frames are marked used too.
    pub fn init(mem_upper: u32, kernel_end: usize) -> (r: Self)
        requires
            mem_bytes(mem_upper as int) / 4096 <= BITMAP_FRAMES,
            kernel_end + 0xFFFFF + HEAP_SIZE + FRAME_SIZE <= usize::MAX,
            (heap_base(kernel_end as int) + HEAP_SIZE + FRAME_SIZE - 1) / 4096 <= BITMAP_FRAMES,
        ensures
            r.wf(),
            r.total_mem == mem_bytes(mem_upper as int),
            r.total_frames == mem_bytes(mem_upper as int) / 4096,
            r.used_frames == kernel_end / 4096 + ((heap_base(kernel_end as int) + HEAP_SIZE + FRAME_SIZE - 1) / 4096
                - heap_base(kernel_end as int) / 4096),
            forall|i: int| 0 <= i < BITMAP_FRAMES ==> r.used(i) == (
                (i < r.total_frames && i < kernel_end / 4096)
                || (heap_base(kernel_end as int) / 4096 <= i
                    && i < (heap_base(kernel_end as int) + HEAP_SIZE + FRAME_SIZE - 1) / 4096)),
    {
        let total_bytes = (mem_upper as usize + 1024) * 1024;
        let kframe = kernel_end / FRAME_SIZE;
        let aligned = heap_base_of(kernel_end);
        let sf = aligned / FRAME_SIZE;
        let ef = (aligned + HEAP_SIZE + FRAME_SIZE - 1) / FRAME_SIZE;
        let mut fa = FrameAllocator::blank(total_bytes / FRAME_SIZE, kframe + (ef - sf), total_bytes);
        let n = fa.total();
        let mut i: usize = 0;
        while i < n
            invariant
                fa.wf(),
                n == fa.total_frames,
                n <= BITMAP_FRAMES,
                fa.total_mem == total_bytes,
                fa.used_frames == kframe + (ef - sf),
                i <= n,
                forall|j: int| 0 <= j < BITMAP_FRAMES ==> fa.used(j) == (j < i),
            decreases n - i,
        {
            fa.set(i, true);
            i = i + 1;
        }
        let mut i = kframe;
        while i < n
            invariant
                fa.wf(),
                n == fa.total_frames,
                n <= BITMAP_FRAMES,
                fa.total_mem == total_bytes,
                fa.used_frames == kframe + (ef - sf),
                kframe <= i,
                forall|j: int| 0 <= j < BITMAP_FRAMES ==> fa.used(j) == (j < n && (j < kframe || j >= i)),
            decreases n - i,
        {
            fa.set(i, false);
            i = i + 1;
        }
        let mut i = sf;
        while i < ef
            invariant
                fa.wf(),
                n == fa.total_frames,
                fa.total_mem == total_bytes,
                fa.used_frames == kframe + (ef - sf),
                sf <= i,
                i <= ef,
                ef <= BITMAP_FRAMES,
                forall|j: int| 0 <= j < BITMAP_FRAMES ==> fa.used(j) == ((j < n && j < kframe) || (sf <= j && j < i)),
            decreases ef - i,
        {
            fa.set(i, true);
            i = i + 1;
        }
        fa
    }

    /// Takes the lowest free frame and returns its address, or `None` when every frame is used.
    pub fn alloc_frame(&mut self) -> (r: Option<usize>)
        requires
            old(self).wf(),
            old(self).used_frames < usize::MAX,
        ensures
            final(self).wf(),
            final(self).total_frames == old(self).total_frames,
            final(self).total_mem == old(self).total_mem,
            match r {
                Some(a) => {
                    let i = a / FRAME_SIZE;
                    &&& a % FRAME_SIZE == 0
                    &&& i < old(self).total_frames
                    &&& !old(self).used(i as int)
                    &&& forall|j: int| 0 <= j < i ==> old(self).used(j)
                    &&& final(self).used(i as int)
                    &&& forall|j: int| 0 <= j < BITMAP_FRAMES && j != i ==> final(self).used(j) == old(self).used(j)
                    &&& final(self).used_frames == old(self).used_frames + 1
                },
                None => {
                    &&& forall|j: int| 0 <= j < old(self).total_frames ==> old(self).used(j)
                    &&& *final(self) == *old(self)
                },
            },
    {
        let n = self.total();
        let mut i: usize = 0;
        while i < n
            invariant
                self.wf(),
                self == old(self),
                self.used_frames < usize::MAX,
                n == self.total_frames,
                i <= n,
                forall|j: int| 0 <= j < i ==> self.used(j),
            decreases n - i,
        {
            if !self.is_used(i) {
                self.set(i, true);
                self.used_frames = self.used_frames + 1;
                proof {
                    let ii = i as int;
                    assert((ii * 4096) / 4096 == ii) by (nonlinear_arith);
                    assert((ii * 4096) % 4096 == 0) by (nonlinear_arith);
                    assert(ii * 4096 <= 131072 * 4096) by (nonlinear_arith)
                        requires ii < 131072;
                }
                return Some(i * FRAME_SIZE);
            }
            i = i + 1;
        }
        None
    }

    /// Takes the frame at `addr` if it exists and is free; says whether it did.
    pub fn alloc_frame_at(&mut self, addr: usize) -> (r: bool)
        requires
            old(self).wf(),
            old(self).used_frames < usize::MAX,
        ensures
            final(self).wf(),
            r == (addr / FRAME_SIZE < old(self).total_frames && !old(self).used((addr / FRAME_SIZE) as int)),
            r ==> final(self).used((addr / FRAME_SIZE) as int),
            r ==> forall|j: int| 0 <= j < BITMAP_FRAMES && j != addr / FRAME_SIZE
                ==> final(self).used(j) == old(self).used(j),
            r ==> final(self).used_frames == old(self).used_frames + 1,
            r ==> final(self).total_frames == old(self).total_frames && final(self).total_mem == old(self).total_mem,
            !r ==> *final(self) == *old(self),
    {
        let i = addr / FRAME_SIZE;
        if i >= self.total() {
            return false;
        }
        if self.is_used(i) {
            return false;
        }
        self.set(i, true);
        self.used_frames = self.used_frames + 1;
        true
    }

    /// Gives the frame at `addr` back, when it is one of the machine's frames.
    pub fn free_frame(&mut self, addr: usize)
        requires
            old(self).wf(),
            addr / FRAME_SIZE < old(self).total_frames ==> old(self).used_frames > 0,
        ensures
            final(self).wf(),
            addr / FRAME_SIZE < old(self).total_frames ==> {
                &&& !final(self).used((addr / FRAME_SIZE) as int)
                &&& forall|j: int| 0 <= j < BITMAP_FRAMES && j != addr / FRAME_SIZE
                    ==> final(self).used(j) == old(self).used(j)
                &&& final(self).used_frames == old(self).used_frames - 1
                &&& final(self).total_frames == old(self).total_frames
                &&& final(self).total_mem == old(self).total_mem
            },
            addr / FRAME_SIZE >= old(self).total_frames ==> *final(self) == *old(self),
    {
        let i = addr / FRAME_SIZE;
        if i < self.total() {
            self.set(i, false);
            self.used_frames = self.used_frames - 1;
        }
    }

    /// Total, used and free frame counts.
    pub fn stats(&self) -> (r: (usize, usize, usize))
        requires
            self.used_frames <= self.total_frames,
        ensures
            r == (self.total_frames, self.used_frames, (self.total_frames - self.used_frames) as usize),
    {
        (self.total(), self.used_count(), self.total() - self.used_count())
    }
}

/// The number of free frames among the first `n`.
pub open spec fn free_count(f: FrameAllocator, n: int) -> nat
    decreases n,
{
    if n <= 0 { 0 } else { free_count(f, n - 1) + if f.used(n - 1) { 0nat } else { 1nat } }
}

/// When every frame below `n` is used, none of them is free.
pub proof fn lemma_free_count_all_used(f: FrameAllocator, n: int)
    requires
        forall|j: int| 0 <= j < n ==> f.used(j),
    ensures
        free_count(f, n) == 0,
    decreases n,
{
    if n > 0 {
        lemma_free_count_all_used(f, n - 1);
    }
}

/// Changing the marks of at most two frames `a` and `b` takes at most two free frames away.
pub proof fn lemma_free_count_two(f1: FrameAllocator, f2: FrameAllocator, a: int, b: int, n: int)
    requires
        forall|j: int| 0 <= j < n && j != a && j != b ==> f2.used(j) == f1.used(j),
    ensures
        free_count(f2, n) + (if 0 <= a < n { 1int } else { 0int }) + (if 0 <= b < n && b != a { 1int } else { 0int })
            >= free_count(f1, n),
    decreases n,
{
    if n > 0 {
        lemma_free_count_two(f1, f2, a, b, n - 1);
    }
}

/// Allocating a frame and freeing it again leaves every frame as it was.
pub proof fn law_alloc_then_free_restores(before: FrameAllocator, mid: FrameAllocator, after: FrameAllocator, a: usize)
    requires
        before.wf(),
        mid.wf(),
        after.wf(),
        a % FRAME_SIZE == 0,
        a / FRAME_SIZE < before.total_frames,
        !before.used((a / FRAME_SIZE) as int),
        mid.used((a / FRAME_SIZE) as int),
        forall|j: int| 0 <= j < BITMAP_FRAMES && j != a / FRAME_SIZE ==> mid.used(j) == before.used(j),
        !after.used((a / FRAME_SIZE) as int),
        forall|j: int| 0 <= j < BITMAP_FRAMES && j != a / FRAME_SIZE ==> after.used(j) == mid.used(j),
    ensures
        forall|j: int| 0 <= j < BITMAP_FRAMES ==> after.used(j) == before.used(j),
{
}

} // verus!
