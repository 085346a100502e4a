//! The state of an allocator as its contracts see it: a buffer, and the allocated blocks in it.

use crate::block;
use crate::block::{Block, HEADER, WORD};
use crate::rounding;
use vstd::arithmetic::power2;
use vstd::prelude::*;

verus! {

/// A buffer at address `base` with the contents `memory`, and the allocated blocks in it, by
/// position. Free space is implicit: every gap before, between and behind the blocks.
pub struct Heap {
    pub base: int,
    pub memory: Seq<u8>,
    pub blocks: Seq<Block>,
}

impl Heap {
    /// Bytes in the buffer.
    pub open spec fn length(self) -> int {
        self.memory.len() as int
    }

    /// `b` starts on a word boundary, has a power of two for its alignment and lies inside the
    /// buffer.
    pub open spec fn block_ok(self, b: Block) -> bool {
        &&& 0 <= b.off
        &&& b.off % (WORD as int) == 0
        &&& 0 <= b.size
        &&& power2::is_pow2(b.align)
        &&& b.align <= usize::MAX
        &&& b.end(self.base) <= self.length()
    }

    /// The buffer lies inside the address space, on a word boundary unless it is empty; the blocks
    /// lie inside the buffer, in the order of their offsets, and do not overlap.
    pub open spec fn wf(self) -> bool {
        &&& 0 <= self.base
        &&& self.base + self.length() <= usize::MAX
        &&& self.length() == 0 || self.base % (WORD as int) == 0
        &&& forall|i: int| 0 <= i < self.blocks.len() ==> self.block_ok(#[trigger] self.blocks[i])
        &&& forall|i: int, j: int|
            0 <= i < j < self.blocks.len() ==> (#[trigger] self.blocks[i]).end(self.base) <= (
            #[trigger] self.blocks[j]).off
    }

    /// The heap that a buffer at `address` gives: what is left of it behind the first word
    /// boundary, with no block. A buffer that ends before that boundary gives an empty heap.
    pub open spec fn fresh(address: int, data: Seq<u8>) -> Heap {
        let padding = rounding::round_up(address, WORD as int) - address;
        if padding <= data.len() {
            Heap {
                base: address + padding,
                memory: data.subrange(padding, data.len() as int),
                blocks: Seq::empty(),
            }
        } else {
            Heap { base: address, memory: Seq::empty(), blocks: Seq::empty() }
        }
    }

    // ---- gaps and best fit ----
    /// Where gap `k`, the one before block `k`, starts. Gap `blocks.len()` is the one behind the
    /// last block.
    pub open spec fn gap_start(self, k: int) -> int {
        if k <= 0 {
            0
        } else {
            self.blocks[k - 1].end(self.base)
        }
    }

    /// Where gap `k` ends.
    pub open spec fn gap_end(self, k: int) -> int {
        if k < self.blocks.len() {
            self.blocks[k].off
        } else {
            self.length()
        }
    }

    /// The block that a request would become at the start of gap `k`.
    pub open spec fn candidate(self, k: int, size: int, align: int) -> Block {
        Block { off: self.gap_start(k), size, align }
    }

    /// The request fits gap `k`.
    pub open spec fn fits(self, k: int, size: int, align: int) -> bool {
        &&& 0 <= k <= self.blocks.len()
        &&& self.candidate(k, size, align).end(self.base) <= self.gap_end(k)
    }

    /// Bytes of gap `k` that the request would leave free.
    pub open spec fn waste(self, k: int, size: int, align: int) -> int {
        self.gap_end(k) - self.candidate(k, size, align).end(self.base)
    }

    /// Gap `k` is the first of those that fit the request with the least waste.
    pub open spec fn is_best(self, k: int, size: int, align: int) -> bool {
        &&& self.fits(k, size, align)
        &&& forall|j: int| #[trigger]
            self.fits(j, size, align) ==> self.waste(k, size, align) <= self.waste(j, size, align)
        &&& forall|j: int| #[trigger]
            self.fits(j, size, align) && j < k ==> self.waste(k, size, align) < self.waste(
                j,
                size,
                align,
            )
    }

    /// The gap where a request is placed: the best one, if any gap fits.
    pub open spec fn placement(self, size: int, align: int) -> Option<int> {
        if exists|k: int| self.fits(k, size, align) {
            Some(choose|k: int| self.is_best(k, size, align))
        } else {
            None
        }
    }

    /// The blocks after a request was placed in gap `k`.
    pub open spec fn placed(self, k: int, size: int, align: int) -> Seq<Block> {
        self.blocks.insert(k, self.candidate(k, size, align))
    }

    /// Block `i` can take `size` bytes where it is.
    pub open spec fn resizes(self, i: int, size: int) -> bool {
        (Block { size, ..self.blocks[i] }).end(self.base) <= self.gap_end(i + 1)
    }

    /// The blocks after block `i` was given `size` bytes where it is.
    pub open spec fn resized(self, i: int, size: int) -> Seq<Block> {
        self.blocks.update(i, Block { size, ..self.blocks[i] })
    }

    /// The index of block `i` after a block was placed in gap `k`.
    pub open spec fn shifted(i: int, k: int) -> int {
        if i < k {
            i
        } else {
            i + 1
        }
    }

    /// The blocks after a request was placed in gap `k` and block `i` was freed.
    pub open spec fn relocated(self, i: int, k: int, size: int, align: int) -> Seq<Block> {
        self.placed(k, size, align).remove(Self::shifted(i, k))
    }

    // ---- addresses and contents ----
    /// The address of the user bytes of block `i`.
    pub open spec fn address(self, i: int) -> int {
        self.blocks[i].address(self.base)
    }

    /// `ptr` is the address of the user bytes of block `i`.
    pub open spec fn is_at(self, i: int, ptr: int) -> bool {
        0 <= i < self.blocks.len() && self.address(i) == ptr
    }

    /// The block whose user bytes start at `ptr`, if there is one.
    pub open spec fn find(self, ptr: int) -> Option<int> {
        if exists|i: int| self.is_at(i, ptr) {
            Some(choose|i: int| self.is_at(i, ptr))
        } else {
            None
        }
    }

    /// `addr` is the address of one of the user bytes of block `i`.
    pub open spec fn covers(self, i: int, addr: int) -> bool {
        &&& 0 <= i < self.blocks.len()
        &&& self.address(i) <= addr < self.address(i) + self.blocks[i].size
    }

    /// `addr` is the address of a user byte.
    pub open spec fn is_user_byte(self, addr: int) -> bool {
        exists|i: int| self.covers(i, addr)
    }

    /// Offset `p` lies in the header of block `i`.
    pub open spec fn in_header(self, i: int, p: int) -> bool {
        0 <= i < self.blocks.len() && self.blocks[i].off <= p < self.blocks[i].off + HEADER
    }

    /// Offset `p` lies in no header.
    pub open spec fn outside_headers(self, p: int) -> bool {
        forall|i: int| !self.in_header(i, p)
    }

    /// The first `n` bytes at address `addr`.
    pub open spec fn bytes_at(self, addr: int, n: int) -> Seq<u8> {
        self.memory.subrange(addr - self.base, addr - self.base + n)
    }

    /// The user bytes of block `i`.
    pub open spec fn content(self, i: int) -> Seq<u8> {
        self.bytes_at(self.address(i), self.blocks[i].size)
    }

    /// The same buffer as in `pre`, where no byte was written outside the headers of the blocks.
    pub open spec fn only_headers_written(self, pre: Heap) -> bool {
        &&& self.base == pre.base
        &&& self.length() == pre.length()
        &&& forall|p: int|
            0 <= p < self.length() && self.outside_headers(p) ==> #[trigger] self.memory[p]
                == pre.memory[p]
    }

    /// The same buffer as in `pre`, where `n` bytes were copied from address `from` to address
    /// `to` and no other byte was written outside the headers of `blocks`.
    pub open spec fn bytes_moved(
        self,
        pre: Heap,
        blocks: Seq<Block>,
        from: int,
        to: int,
        n: int,
    ) -> bool {
        &&& self.base == pre.base
        &&& self.length() == pre.length()
        &&& self.bytes_at(to, n) == pre.bytes_at(from, n)
        &&& forall|p: int|
            0 <= p < self.length() && !(to <= self.base + p < to + n) && (Heap {
                blocks,
                ..pre
            }).outside_headers(p) ==> #[trigger] self.memory[p] == pre.memory[p]
    }

    /// The same buffer as in `pre`, where no byte was written but the user bytes of block `i`, its
    /// header and the header before it.
    pub open spec fn only_block_written(self, pre: Heap, i: int) -> bool {
        &&& self.base == pre.base
        &&& self.length() == pre.length()
        &&& forall|p: int|
            0 <= p < self.length() && !self.covers(i, self.base + p) && !self.in_header(i, p)
                && !self.in_header(i - 1, p) ==> #[trigger] self.memory[p] == pre.memory[p]
    }

    /// The same buffer as in `pre`, where no free byte was written: only the headers and the user
    /// bytes of the blocks may differ.
    pub open spec fn only_blocks_written(self, pre: Heap) -> bool {
        &&& self.base == pre.base
        &&& self.length() == pre.length()
        &&& forall|p: int|
            0 <= p < self.length() && self.outside_headers(p) && !self.is_user_byte(self.base + p)
                ==> #[trigger] self.memory[p] == pre.memory[p]
    }

    // ---- compaction ----
    /// Where block `i` starts when the blocks before it are packed to the left.
    pub open spec fn packed_start(self, i: int) -> int
        decreases i,
    {
        if i <= 0 {
            0
        } else {
            self.blocks[i - 1].at(self.packed_start(i - 1)).end(self.base)
        }
    }

    /// The blocks with the first `n` of them packed to the left.
    pub open spec fn packed_to(self, n: int) -> Seq<Block> {
        Seq::new(
            self.blocks.len(),
            |i: int|
                if i < n {
                    self.blocks[i].at(self.packed_start(i))
                } else {
                    self.blocks[i]
                },
        )
    }

    /// All blocks packed to the left, in their order.
    pub open spec fn packed(self) -> Seq<Block> {
        self.packed_to(self.blocks.len() as int)
    }

    /// The user addresses, before and after, of those of the first `n` blocks that packing moves.
    pub open spec fn moves_to(self, n: int) -> Seq<(int, int)>
        decreases n,
    {
        if n <= 0 {
            Seq::empty()
        } else {
            let b = self.blocks[n - 1];
            let start = self.packed_start(n - 1);
            if start < b.off {
                self.moves_to(n - 1).push((b.address(self.base), b.at(start).address(self.base)))
            } else {
                self.moves_to(n - 1)
            }
        }
    }

    /// The user addresses, before and after, of all blocks that packing moves, by position.
    pub open spec fn moves(self) -> Seq<(int, int)> {
        self.moves_to(self.blocks.len() as int)
    }
}

/// A power of two is positive.
pub proof fn lemma_align_positive(align: int)
    requires
        power2::is_pow2(align),
    ensures
        0 < align,
{
    reveal(power2::is_pow2);
}

/// Whether a heap is well formed does not depend on what its memory holds.
pub proof fn lemma_same_shape(a: Heap, b: Heap)
    requires
        a.wf(),
        b.base == a.base,
        b.length() == a.length(),
        b.blocks == a.blocks,
    ensures
        b.wf(),
{
    assert forall|i: int| 0 <= i < b.blocks.len() implies b.block_ok(#[trigger] b.blocks[i]) by {
        assert(a.block_ok(a.blocks[i]));
    }
}

/// A block of a well-formed heap: its user bytes lie behind its header and inside it, and it ends
/// on a word boundary.
pub proof fn lemma_block(h: Heap, i: int)
    requires
        h.wf(),
        0 <= i < h.blocks.len(),
    ensures
        0 < h.blocks[i].align,
        h.base % (WORD as int) == 0,
        h.address(i) % h.blocks[i].align == 0,
        h.base + h.blocks[i].off + HEADER <= h.address(i),
        h.address(i) + h.blocks[i].size <= h.base + h.blocks[i].end(h.base),
        h.blocks[i].off + HEADER <= h.blocks[i].end(h.base) <= h.length(),
        h.blocks[i].end(h.base) % (WORD as int) == 0,
{
    let b = h.blocks[i];
    lemma_align_positive(b.align);
    block::lemma_extent(b, h.base);
    block::lemma_end(b, h.base);
}

/// A gap of a well-formed heap starts on a word boundary and lies inside the buffer.
pub proof fn lemma_gap(h: Heap, k: int)
    requires
        h.wf(),
        0 <= k <= h.blocks.len(),
    ensures
        0 <= h.gap_start(k) <= h.gap_end(k) <= h.length(),
        h.gap_start(k) % (WORD as int) == 0,
{
    block::lemma_word();
    if k > 0 {
        lemma_block(h, k - 1);
    }
    if k < h.blocks.len() {
        lemma_block(h, k);
    }
}

/// Only one gap is the best one.
pub proof fn lemma_best_unique(h: Heap, k: int, size: int, align: int)
    requires
        h.is_best(k, size, align),
    ensures
        h.placement(size, align) == Some(k),
{
    let c = choose|c: int| h.is_best(c, size, align);
    assert(h.fits(k, size, align) && h.fits(c, size, align));
}

/// A request for more bytes than the buffer has fits no gap.
pub proof fn lemma_oversized(h: Heap, size: int, align: int)
    requires
        h.wf(),
        power2::is_pow2(align),
        h.length() < size,
    ensures
        h.placement(size, align) is None,
{
    assert forall|k: int| !h.fits(k, size, align) by {
        if h.fits(k, size, align) {
            lemma_gap(h, k);
            lemma_align_positive(align);
            block::lemma_extent(h.candidate(k, size, align), h.base);
        }
    }
}

/// A request that fits a gap keeps the heap well formed when it is placed there.
pub proof fn lemma_place(h: Heap, k: int, size: int, align: int)
    requires
        h.wf(),
        0 <= size,
        power2::is_pow2(align),
        align <= usize::MAX,
        h.fits(k, size, align),
    ensures
        (Heap { blocks: h.placed(k, size, align), ..h }).wf(),
{
    let c = h.candidate(k, size, align);
    let after = Heap { blocks: h.placed(k, size, align), ..h };
    lemma_gap(h, k);
    lemma_align_positive(align);
    block::lemma_extent(c, h.base);
    assert forall|i: int| 0 <= i < after.blocks.len() implies after.block_ok(
        #[trigger] after.blocks[i],
    ) by {
        if i < k {
            assert(after.blocks[i] == h.blocks[i]);
        } else if i > k {
            assert(after.blocks[i] == h.blocks[i - 1]);
        }
    }
    assert forall|i: int, j: int| 0 <= i < j < after.blocks.len() implies (
    #[trigger] after.blocks[i]).end(h.base) <= (#[trigger] after.blocks[j]).off by {
        let bi = if i < k {
            h.blocks[i]
        } else if i > k {
            h.blocks[i - 1]
        } else {
            c
        };
        let bj = if j < k {
            h.blocks[j]
        } else if j > k {
            h.blocks[j - 1]
        } else {
            c
        };
        assert(after.blocks[i] == bi && after.blocks[j] == bj);
        if j == k && i < k - 1 {
            lemma_block(h, k - 1);
            assert(h.blocks[i].end(h.base) <= h.blocks[k - 1].off);
        }
        if i == k && j > k + 1 {
            lemma_block(h, k);
            assert(h.blocks[k].end(h.base) <= h.blocks[j - 1].off);
        }
    }
}

/// Freeing a block keeps the heap well formed.
pub proof fn lemma_free(h: Heap, i: int)
    requires
        h.wf(),
        0 <= i < h.blocks.len(),
    ensures
        (Heap { blocks: h.blocks.remove(i), ..h }).wf(),
{
}

/// Replacing block `i` by one that lies between the blocks around it keeps the heap well formed.
proof fn lemma_replace(h: Heap, i: int, b: Block)
    requires
        h.wf(),
        0 <= i < h.blocks.len(),
        h.block_ok(b),
        h.gap_start(i) <= b.off,
        b.end(h.base) <= h.gap_end(i + 1),
    ensures
        (Heap { blocks: h.blocks.update(i, b), ..h }).wf(),
{
    let after = Heap { blocks: h.blocks.update(i, b), ..h };
    assert forall|x: int, y: int| 0 <= x < y < after.blocks.len() implies (
    #[trigger] after.blocks[x]).end(h.base) <= (#[trigger] after.blocks[y]).off by {
        if y == i && x < i - 1 {
            lemma_block(h, i - 1);
            assert(h.blocks[x].end(h.base) <= h.blocks[i - 1].off);
        }
        if x == i && y > i + 1 {
            lemma_block(h, i + 1);
            assert(h.blocks[i + 1].end(h.base) <= h.blocks[y].off);
        }
    }
}

/// Resizing a block where it is keeps the heap well formed.
pub proof fn lemma_resize(h: Heap, i: int, size: int)
    requires
        h.wf(),
        0 <= i < h.blocks.len(),
        0 <= size,
        h.resizes(i, size),
    ensures
        (Heap { blocks: h.resized(i, size), ..h }).wf(),
{
    lemma_gap(h, i);
    lemma_gap(h, i + 1);
    lemma_replace(h, i, Block { size, ..h.blocks[i] });
}

/// Sliding a block to the start of the gap before it keeps the heap well formed, and moves
/// neither the user bytes nor the end of the block to the right.
pub proof fn lemma_slide(h: Heap, i: int)
    requires
        h.wf(),
        0 <= i < h.blocks.len(),
    ensures
        (Heap { blocks: h.blocks.update(i, h.blocks[i].at(h.gap_start(i))), ..h }).wf(),
        h.blocks[i].at(h.gap_start(i)).address(h.base) <= h.address(i),
        h.blocks[i].at(h.gap_start(i)).end(h.base) <= h.blocks[i].end(h.base),
{
    lemma_gap(h, i);
    lemma_gap(h, i + 1);
    lemma_block(h, i);
    block::lemma_moved_left(h.blocks[i], h.base, h.gap_start(i));
    lemma_replace(h, i, h.blocks[i].at(h.gap_start(i)));
}

/// The user bytes of a block lie before the header of every later block.
pub proof fn lemma_apart(h: Heap, i: int, j: int)
    requires
        h.wf(),
        0 <= i < j < h.blocks.len(),
    ensures
        h.address(i) + h.blocks[i].size <= h.base + h.blocks[j].off,
        h.blocks[i].off + HEADER <= h.blocks[j].off,
        h.address(i) < h.address(j),
{
    lemma_block(h, i);
    lemma_block(h, j);
}

/// User bytes lie in no header.
pub proof fn lemma_user_byte_outside_headers(h: Heap, i: int, p: int)
    requires
        h.wf(),
        h.covers(i, h.base + p),
    ensures
        0 <= p < h.length(),
        h.outside_headers(p),
{
    lemma_block(h, i);
    assert forall|j: int| !h.in_header(j, p) by {
        if 0 <= j < h.blocks.len() {
            lemma_block(h, j);
            if j < i {
                lemma_apart(h, j, i);
            } else if i < j {
                lemma_apart(h, i, j);
            }
        }
    }
}

/// Only one block has its user bytes at a given address.
pub proof fn lemma_find(h: Heap, i: int, ptr: int)
    requires
        h.wf(),
        h.is_at(i, ptr),
    ensures
        h.find(ptr) == Some(i),
{
    let c = choose|c: int| h.is_at(c, ptr);
    assert(h.is_at(c, ptr));
    if i < c {
        lemma_apart(h, i, c);
    } else if c < i {
        lemma_apart(h, c, i);
    }
}

/// Packing the blocks before it to the left leaves block `i` room to the left, up to a word
/// boundary.
pub proof fn lemma_packed_start(h: Heap, i: int)
    requires
        h.wf(),
        0 <= i <= h.blocks.len(),
    ensures
        0 <= h.packed_start(i) <= h.gap_start(i),
        h.packed_start(i) % (WORD as int) == 0,
    decreases i,
{
    block::lemma_word();
    if i > 0 {
        let b = h.blocks[i - 1];
        let start = h.packed_start(i - 1);
        lemma_packed_start(h, i - 1);
        lemma_gap(h, i - 1);
        lemma_block(h, i - 1);
        block::lemma_moved_left(b, h.base, start);
        block::lemma_extent(b.at(start), h.base);
        block::lemma_end(b.at(start), h.base);
    }
}

/// One step of packing: with the first `i` blocks packed, the gap before block `i` starts where
/// the block goes.
pub proof fn lemma_packed_step(h: Heap, i: int)
    requires
        h.wf(),
        0 <= i < h.blocks.len(),
    ensures
        (Heap { blocks: h.packed_to(i), ..h }).gap_start(i) == h.packed_start(i),
        h.packed_to(i)[i] == h.blocks[i],
        h.packed_start(i) <= h.blocks[i].off,
        h.packed_to(i + 1) == h.packed_to(i).update(i, h.blocks[i].at(h.packed_start(i))),
{
    lemma_packed_start(h, i);
    lemma_gap(h, i);
    assert(h.packed_to(i + 1) =~= h.packed_to(i).update(i, h.blocks[i].at(h.packed_start(i))));
}

} // verus!
