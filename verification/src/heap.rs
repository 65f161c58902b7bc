//! The kernel heap: a first-fit free list in a region of `HEAP_SIZE` bytes. Every block
//! starts with a header of `NODE_SZ` bytes; a block big enough is split when more than a
//! header and 8 bytes would be left over. Freed blocks go back to the front of the list,
//! unmerged.
use vstd::prelude::*;
use crate::frames::{HEAP_SIZE, heap_base, heap_base_of};

verus! {

/// The size of a block header (a size and a link, 32 bits each).
pub const NODE_SZ: usize = 8;

/// A block: where its header starts and how many bytes follow the header.
#[derive(Clone, Copy, PartialEq, Eq, Structural, Debug)]
pub struct Block {
    pub addr: usize,
    pub size: usize,
}

/// The bytes a block covers, header included, end excluded.
pub open spec fn block_end(b: Block) -> int {
    b.addr + NODE_SZ + b.size
}

/// Whether two blocks share no byte.
pub open spec fn apart(a: Block, b: Block) -> bool {
    block_end(a) <= b.addr || block_end(b) <= a.addr
}

/// The heap: its region, the free list in list order, and the blocks handed out.
pub struct Heap {
    pub base: usize,
    pub end: usize,
    pub free: Vec<Block>,
    pub live: Vec<Block>,
}

/// Every block, free ones first.
pub open spec fn all_blocks(h: Heap) -> Seq<Block> {
    h.free@ + h.live@
}

/// The size a request is rounded up to: the next multiple of 8.
pub open spec fn round8(size: int) -> int {
    (size + 7) / 8 * 8
}

/// The first free block, from index `i` on, with at least `needed` bytes after its header.
pub open spec fn first_fit(free: Seq<Block>, needed: int, i: int) -> Option<int>
    decreases free.len() - i,
{
    if i < 0 || i >= free.len() { None }
    else if free[i].size >= needed { Some(i) }
    else { first_fit(free, needed, i + 1) }
}

/// What an allocation of `size` bytes does to the free list `free` and the handed-out
/// blocks `live`: the first free block with room for the rounded size and a header is taken;
/// when more than a header and 8 bytes would be left over it is split, the rest (less a
/// header) staying in its place in the list; the address after the header is returned.
pub open spec fn alloc_effect(free: Seq<Block>, live: Seq<Block>, size: int) -> (Seq<Block>, Seq<Block>, Option<int>) {
    let rsize = round8(size);
    let needed = rsize + NODE_SZ;
    match first_fit(free, needed, 0) {
        None => (free, live, None),
        Some(i) => {
            let b = free[i];
            let remaining = b.size - needed;
            if remaining > NODE_SZ + 8 {
                let rest = Block { addr: (b.addr + NODE_SZ + rsize) as usize, size: (remaining - NODE_SZ) as usize };
                (free.update(i, rest), live.push(Block { addr: b.addr, size: rsize as usize }), Some(b.addr + NODE_SZ))
            } else {
                (free.remove(i), live.push(b), Some(b.addr + NODE_SZ))
            }
        },
    }
}

impl Heap {
    /// Every block lies in the region and no two blocks share a byte.
    pub open spec fn wf(&self) -> bool {
        let all = all_blocks(*self);
        &&& self.base + HEAP_SIZE <= usize::MAX
        &&& self.end == self.base + HEAP_SIZE
        &&& forall|i: int| 0 <= i < all.len() ==> self.base <= (#[trigger] all[i]).addr && block_end(all[i]) <= self.end
        &&& forall|i: int, j: int| 0 <= i < all.len() && 0 <= j < all.len() && i != j ==> apart(#[trigger] all[i], #[trigger] all[j])
    }

    /// The heap placed at the first 1 MiB boundary at or above `kernel_end`: one free block
    /// covering the whole region.
    pub fn init(kernel_end: usize) -> (h: Heap)
        requires
            kernel_end + 0xFFFFF + HEAP_SIZE <= usize::MAX,
        ensures
            h.wf(),
            h.base == heap_base(kernel_end as int),
            h.free@ == seq![Block { addr: h.base, size: (HEAP_SIZE - NODE_SZ) as usize }],
            h.live@.len() == 0,
    {
        let base = heap_base_of(kernel_end);
        let mut free: Vec<Block> = Vec::new();
        free.push(Block { addr: base, size: HEAP_SIZE - NODE_SZ });
        let h = Heap { base, end: base + HEAP_SIZE, free, live: Vec::new() };
        assert(all_blocks(h) =~= seq![Block { addr: base, size: (HEAP_SIZE - NODE_SZ) as usize }]);
        h
    }
}

/// Whether block `c` lies within block `b`.
pub open spec fn within(c: Block, b: Block) -> bool {
    b.addr <= c.addr && block_end(c) <= block_end(b)
}

/// Blocks that each lie within a block of a list whose blocks are apart, and that are apart
/// from one another where they come from the same block, are apart and in the same region.
proof fn lemma_sub_blocks(old: Seq<Block>, new: Seq<Block>, f: spec_fn(int) -> int, lo: int, hi: int)
    requires
        forall|i: int| 0 <= i < old.len() ==> lo <= (#[trigger] old[i]).addr && block_end(old[i]) <= hi,
        forall|i: int, j: int| 0 <= i < old.len() && 0 <= j < old.len() && i != j ==> apart(#[trigger] old[i], #[trigger] old[j]),
        forall|p: int| 0 <= p < new.len() ==> 0 <= #[trigger] f(p) < old.len() && within(new[p], old[f(p)]),
        forall|p: int, q: int| 0 <= p < new.len() && 0 <= q < new.len() && p != q && f(p) == f(q)
            ==> apart(#[trigger] new[p], #[trigger] new[q]),
    ensures
        forall|i: int| 0 <= i < new.len() ==> lo <= (#[trigger] new[i]).addr && block_end(new[i]) <= hi,
        forall|i: int, j: int| 0 <= i < new.len() && 0 <= j < new.len() && i != j ==> apart(#[trigger] new[i], #[trigger] new[j]),
{
    assert forall|i: int| 0 <= i < new.len() implies lo <= (#[trigger] new[i]).addr && block_end(new[i]) <= hi by {
        assert(within(new[i], old[f(i)]));
    }
    assert forall|i: int, j: int| 0 <= i < new.len() && 0 <= j < new.len() && i != j implies apart(#[trigger] new[i], #[trigger] new[j]) by {
        if f(i) != f(j) {
            assert(apart(old[f(i)], old[f(j)]));
            assert(within(new[i], old[f(i)]) && within(new[j], old[f(j)]));
        }
    }
}

impl Heap {
    /// Allocates `size` bytes first fit (see `alloc_effect`): the address after the header
    /// of the block handed out, or `None` when no free block is big enough. The alignment
    /// asked for is not looked at; blocks are 8-byte multiples.
    pub fn alloc_from_heap(&mut self, size: usize, align: usize) -> (r: Option<usize>)
        requires
            old(self).wf(),
            size + 7 + NODE_SZ <= usize::MAX,
        ensures
            final(self).wf(),
            final(self).base == old(self).base,
            ({
                let (f, l, p) = alloc_effect(old(self).free@, old(self).live@, size as int);
                &&& final(self).free@ == f
                &&& final(self).live@ == l
                &&& match r { Some(x) => p == Some(x as int), None => p is None }
            }),
            r matches Some(p) ==> old(self).base + NODE_SZ <= p && p + round8(size as int) <= old(self).end,
    {
        let rsize = (size + 7) / 8 * 8;
        assert(rsize == round8(size as int));
        let needed = rsize + NODE_SZ;
        let mut i: usize = 0;
        while i < self.free.len() && self.free[i].size < needed
            invariant
                self == old(self),
                i <= self.free@.len(),
                needed == round8(size as int) + NODE_SZ,
                first_fit(self.free@, needed as int, 0) == first_fit(self.free@, needed as int, i as int),
            decreases self.free@.len() - i,
        {
            i = i + 1;
        }
        if i == self.free.len() {
            return None;
        }
        let ghost old_all = all_blocks(*self);
        let ghost nf = self.free@.len() as int;
        let ghost nl = self.live@.len() as int;
        let b = self.free[i];
        proof {
            assert(old_all[i as int] == b);
            assert(block_end(b) <= self.end);
        }
        let ptr = b.addr + NODE_SZ;
        let remaining = b.size - needed;
        if remaining > NODE_SZ + 8 {
            let rest = Block { addr: b.addr + NODE_SZ + rsize, size: remaining - NODE_SZ };
            let taken = Block { addr: b.addr, size: rsize };
            self.free.set(i, rest);
            self.live.push(taken);
            proof {
                let new_all = all_blocks(*self);
                let f = |p: int| if p < nf { p } else if p < nf + nl { p } else { i as int };
                assert forall|p: int| 0 <= p < new_all.len() implies 0 <= #[trigger] f(p) < old_all.len() && within(new_all[p], old_all[f(p)]) by {
                    if p < nf {
                        if p != i { assert(new_all[p] == old_all[p]); }
                    } else if p < nf + nl {
                        assert(new_all[p] == old_all[p]);
                    } else {
                        assert(new_all[p] == taken);
                    }
                }
                assert forall|p: int, q: int| 0 <= p < new_all.len() && 0 <= q < new_all.len() && p != q && f(p) == f(q)
                    implies apart(#[trigger] new_all[p], #[trigger] new_all[q]) by {
                    assert(new_all[i as int] == rest);
                    assert(new_all[nf + nl] == taken);
                }
                lemma_sub_blocks(old_all, new_all, f, self.base as int, self.end as int);
            }
        } else {
            self.free.remove(i);
            self.live.push(b);
            proof {
                let new_all = all_blocks(*self);
                let f = |p: int| if p < i { p } else if p < nf + nl - 1 { p + 1 } else { i as int };
                assert forall|p: int| 0 <= p < new_all.len() implies 0 <= #[trigger] f(p) < old_all.len() && within(new_all[p], old_all[f(p)]) by {
                    if p < i {
                        assert(new_all[p] == old_all[p]);
                    } else if p < nf - 1 {
                        assert(new_all[p] == old_all[p + 1]);
                    } else if p < nf + nl - 1 {
                        assert(new_all[p] == old_all[p + 1]);
                    } else {
                        assert(new_all[p] == b);
                    }
                }
                lemma_sub_blocks(old_all, new_all, f, self.base as int, self.end as int);
            }
        }
        Some(ptr)
    }
}

/// The index of the first handed-out block whose header starts at `addr`, from `i` on.
pub open spec fn live_index(live: Seq<Block>, addr: int, i: int) -> Option<int>
    decreases live.len() - i,
{
    if i < 0 || i >= live.len() { None }
    else if live[i].addr == addr { Some(i) }
    else { live_index(live, addr, i + 1) }
}

proof fn lemma_live_index(live: Seq<Block>, addr: int, i: int)
    ensures
        live_index(live, addr, i) matches Some(j) ==> 0 <= i <= j < live.len() && live[j].addr == addr,
    decreases live.len() - i,
{
    if 0 <= i < live.len() && live[i].addr != addr {
        lemma_live_index(live, addr, i + 1);
    }
}

impl Heap {
    /// Gives back the block whose data starts at `ptr` (nothing for a null `ptr`): it goes
    /// to the front of the free list with the size its header holds.
    pub fn dealloc_from_heap(&mut self, ptr: usize)
        requires
            old(self).wf(),
            ptr == 0 || live_index(old(self).live@, ptr - NODE_SZ, 0) is Some,
        ensures
            final(self).wf(),
            final(self).base == old(self).base,
            ptr == 0 ==> final(self).free@ == old(self).free@ && final(self).live@ == old(self).live@,
            ptr != 0 ==> {
                let j = live_index(old(self).live@, ptr - NODE_SZ, 0)->0;
                &&& final(self).free@ == seq![old(self).live@[j]] + old(self).free@
                &&& final(self).live@ == old(self).live@.remove(j)
            },
    {
        if ptr == 0 {
            return;
        }
        proof { lemma_live_index(self.live@, ptr - NODE_SZ, 0); }
        let node = ptr - NODE_SZ;
        let mut j: usize = 0;
        while j < self.live.len() && self.live[j].addr != node
            invariant
                self == old(self),
                node == ptr - NODE_SZ,
                j <= self.live@.len(),
                live_index(self.live@, node as int, 0) == live_index(self.live@, node as int, j as int),
                live_index(self.live@, node as int, 0) is Some,
            decreases self.live@.len() - j,
        {
            j = j + 1;
        }
        let ghost old_all = all_blocks(*self);
        let ghost nf = self.free@.len() as int;
        let ghost nl = self.live@.len() as int;
        let b = self.live.remove(j);
        self.free.insert(0, b);
        proof {
            let new_all = all_blocks(*self);
            let f = |p: int| if p == 0 { nf + j } else if p <= nf { p - 1 } else if p < nf + 1 + j { p - 1 } else { p };
            assert forall|p: int| 0 <= p < new_all.len() implies 0 <= #[trigger] f(p) < old_all.len() && within(new_all[p], old_all[f(p)]) by {
                if p == 0 {
                    assert(new_all[0] == b);
                    assert(old_all[nf + j] == b);
                } else if p <= nf {
                    assert(new_all[p] == old_all[p - 1]);
                } else if p < nf + 1 + j {
                    assert(new_all[p] == old_all[p - 1]);
                } else {
                    assert(new_all[p] == old_all[p]);
                }
            }
            lemma_sub_blocks(old_all, new_all, f, self.base as int, self.end as int);
        }
    }
}

/// Freeing the block that an allocation just handed out leaves the handed-out blocks as
/// they were before it, and puts that block at the front of the free list.
pub proof fn law_alloc_then_free(h0: Heap, h1: Heap, h2: Heap, size: int, p: int)
    requires
        h0.wf(),
        h1.wf(),
        alloc_effect(h0.free@, h0.live@, size) == (h1.free@, h1.live@, Some(p)),
        live_index(h1.live@, p - NODE_SZ, 0) is Some,
        h2.free@ == seq![h1.live@[live_index(h1.live@, p - NODE_SZ, 0)->0]] + h1.free@,
        h2.live@ == h1.live@.remove(live_index(h1.live@, p - NODE_SZ, 0)->0),
    ensures
        h2.live@ == h0.live@,
        h2.free@[0].addr == p - NODE_SZ,
{
    let n = h0.live@.len() as int;
    let last = h1.live@[n];
    assert(last.addr == p - NODE_SZ);
    let j = live_index(h1.live@, p - NODE_SZ, 0)->0;
    lemma_live_index(h1.live@, p - NODE_SZ, 0);
    if j != n {
        let all = all_blocks(h1);
        let nf = h1.free@.len() as int;
        assert(all[nf + j] == h1.live@[j]);
        assert(all[nf + n] == last);
        assert(apart(all[nf + j], all[nf + n]));
    }
    assert(h2.live@ =~= h0.live@);
}

/// The kernel's allocator: every request goes to its heap.
pub struct MizuAlloc {
    pub heap: Heap,
}

impl MizuAlloc {
    /// Allocates `size` bytes (see `Heap::alloc_from_heap`); the alignment is passed on.
    pub fn allocate(&mut self, size: usize, align: usize) -> (r: Option<usize>)
        requires
            old(self).heap.wf(),
            size + 7 + NODE_SZ <= usize::MAX,
        ensures
            final(self).heap.wf(),
            ({
                let (f, l, p) = alloc_effect(old(self).heap.free@, old(self).heap.live@, size as int);
                &&& final(self).heap.free@ == f
                &&& final(self).heap.live@ == l
                &&& match r { Some(x) => p == Some(x as int), None => p is None }
            }),
    {
        self.heap.alloc_from_heap(size, align)
    }

    /// Frees the block at `ptr` (see `Heap::dealloc_from_heap`); the size is not looked at.
    pub fn deallocate(&mut self, ptr: usize, size: usize)
        requires
            old(self).heap.wf(),
            ptr == 0 || live_index(old(self).heap.live@, ptr - NODE_SZ, 0) is Some,
        ensures
            final(self).heap.wf(),
            ptr == 0 ==> final(self).heap.free@ == old(self).heap.free@ && final(self).heap.live@ == old(self).heap.live@,
            ptr != 0 ==> {
                let j = live_index(old(self).heap.live@, ptr - NODE_SZ, 0)->0;
                &&& final(self).heap.free@ == seq![old(self).heap.live@[j]] + old(self).heap.free@
                &&& final(self).heap.live@ == old(self).heap.live@.remove(j)
            },
    {
        self.heap.dealloc_from_heap(ptr)
    }
}

} // verus!
