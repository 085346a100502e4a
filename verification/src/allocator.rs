//! The allocator.

use crate::block;
use crate::block::{Block, BlockHeader, HEADER, NONE, WORD};
use crate::heap;
use crate::heap::Heap;
use crate::laws;
use crate::layout::Layout;
use crate::list;
use crate::memory;
use crate::rounding;
use vstd::arithmetic::power2;
use vstd::prelude::*;

verus! {

/// Best-fit allocator over a caller-provided byte buffer.
///
/// Only *allocated* blocks carry inline [`BlockHeader`]s, kept sorted by offset. Free space is
/// implicit: every gap between allocated blocks. Freeing a block simply unlinks it, so no
/// coalescing is required.
///
/// The `'buf` parameter ties the allocator to the buffer it was built from, so it can never
/// outlive that buffer.
pub struct Allocator<'buf> {
    /// Address of the usable region, on a word boundary unless the region is empty.
    base: usize,
    /// The usable region.
    memory: &'buf mut [u8],
    /// Offset of the first allocated block (sorted by position), or [`NONE`].
    head: usize,
    /// The allocated blocks, by position.
    blocks: Ghost<Seq<Block>>,
}

/// The best gap that a walk has seen so far.
struct Placement {
    /// Where the gap starts.
    gap_start: usize,
    /// Offset of the block before the gap, or [`NONE`].
    prev: usize,
}

/// A block that a walk has found.
struct Found {
    /// Offset of the block.
    off: usize,
    /// Offset of the block before it, or [`NONE`].
    prev: usize,
    /// Its header.
    header: BlockHeader,
}

impl<'buf> View for Allocator<'buf> {
    type V = Heap;

    closed spec fn view(&self) -> Heap {
        Heap { base: self.base as int, memory: self.memory@, blocks: self.blocks@ }
    }
}

/// A block that a compaction moved: the address of its user bytes before and after.
#[derive(Clone, Copy)]
pub struct Relocation {
    pub old: usize,
    pub new: usize,
}

/// The addresses in `moves`.
pub open spec fn pairs(moves: Seq<Relocation>) -> Seq<(int, int)> {
    Seq::new(moves.len(), |i: int| (moves[i].old as int, moves[i].new as int))
}

/// How far a compaction has come: the blocks before the cursor are packed.
pub struct Compaction {
    /// Where the block at the cursor would start: behind the block before it.
    target: usize,
    /// Offset of the block before the cursor, or [`NONE`].
    prev: usize,
    /// Offset of the block at the cursor, or [`NONE`] at the end.
    cur: usize,
    /// The index of that block.
    index: Ghost<int>,
}

impl Compaction {
    /// The index of the block at the cursor.
    pub closed spec fn index(&self) -> int {
        self.index@
    }

    /// The cursor stands at a block of `h`, or behind the last one.
    pub closed spec fn valid(&self, h: Heap) -> bool {
        &&& 0 <= self.index@ <= h.blocks.len()
        &&& self.target == h.gap_start(self.index@)
        &&& self.prev == list::link(h, self.index@ - 1)
        &&& self.cur == list::link(h, self.index@)
    }
}

/// What one step of a compaction did.
pub enum Step {
    /// There was no block left.
    Done,
    /// The block stayed where it was.
    Kept,
    /// The block moved.
    Moved(Relocation),
}

/// The address of the first byte of `data`.
///
/// Calls `<[u8]>::as_mut_ptr` and takes the address of the pointer. Which address that is depends
/// on the machine. Claimed of it: the bytes of a slice never reach past the end of the address
/// space. Claimed of the slice: nothing is written to it.
#[verifier::external_body]
fn address_of(data: &mut [u8]) -> (address: usize)
    ensures
        address + old(data)@.len() <= usize::MAX,
        final(data)@ == old(data)@,
{
    data.as_mut_ptr() as usize
}

impl<'buf> Allocator<'buf> {
    /// The blocks lie in the buffer without overlap, and the buffer holds their headers, linked by
    /// position.
    pub open spec fn wf(&self) -> bool {
        &&& self@.wf()
        &&& self.linked()
    }

    /// The buffer holds the headers of the blocks, linked by position.
    pub closed spec fn linked(&self) -> bool {
        list::linked(self@, self.head)
    }

    /// Build an allocator over `data`. The bytes of `data` before the usable region stay as they
    /// are for as long as the allocator lives; where no byte is usable, so do all of them.
    ///
    /// The allocator borrows `data` for as long as it lives, so it cannot outlive the buffer:
    ///
    /// ```compile_fail
    /// use optimal_space_allocator::Allocator;
    /// let allocator = {
    ///     let mut buffer = [0u8; 1024];
    ///     Allocator::new(&mut buffer)
    /// };
    /// ```
    pub fn new(data: &'buf mut [u8]) -> (r: Self)
        ensures
            r.wf(),
            exists|address: int|
                {
                    &&& 0 <= address
                    &&& address + old(data)@.len() <= usize::MAX
                    &&& r@ == #[trigger] Heap::fresh(address, old(data)@)
                    &&& final(data)@.subrange(0, r@.base - address) == old(data)@.subrange(
                        0,
                        r@.base - address,
                    )
                    &&& rounding::round_up(address, WORD as int) - address > old(data)@.len()
                        ==> final(data)@ == old(data)@
                },
    {
        let address: usize = address_of(data);
        Self::over(data, address)
    }

    /// Claim the largest word-aligned region inside `data`, whose first byte is at `address`.
    ///
    /// Every block offset is a multiple of the word size, so aligning the base once is what keeps
    /// every inline header aligned. A buffer too short to contain even the padding yields a
    /// zero-length allocator, which simply never fits anything. The padding, or in the latter case
    /// the whole buffer, stays as it is for as long as the allocator lives.
    pub fn over(data: &'buf mut [u8], address: usize) -> (r: Self)
        requires
            address + old(data)@.len() <= usize::MAX,
        ensures
            r.wf(),
            r@ == Heap::fresh(address as int, old(data)@),
            ({
                let padding = rounding::round_up(address as int, WORD as int) - address;
                if padding <= old(data)@.len() {
                    final(data)@.subrange(0, padding) == old(data)@.subrange(0, padding)
                } else {
                    final(data)@ == old(data)@
                }
            }),
    {
        proof {
            block::lemma_word_is_pow2();
            rounding::lemma_round_up(address as int, WORD as int);
        }
        if let Some(aligned) = block::checked_align_up(address, WORD) {
            let padding: usize = aligned - address;
            if padding <= data.len() {
                let (_front, usable) = data.split_at_mut(padding);
                return Allocator {
                    base: aligned,
                    memory: usable,
                    head: NONE,
                    blocks: Ghost(Seq::empty()),
                };
            }
        }
        let none: &'buf mut [u8] = &mut [];
        let r = Allocator { base: address, memory: none, head: NONE, blocks: Ghost(Seq::empty()) };
        assert(r@.memory =~= Seq::empty());
        r
    }

    /// The address of the usable region.
    pub fn buf(&self) -> (base: usize)
        ensures
            base == self@.base,
    {
        self.base
    }

    /// The header at `off`.
    fn get(&self, off: usize) -> (h: BlockHeader)
        requires
            off + HEADER <= self@.memory.len(),
        ensures
            h == memory::header_at(self@.memory, off as int),
    {
        memory::read_header(self.memory, off)
    }

    /// Store `h` at `off`.
    fn set(&mut self, off: usize, h: BlockHeader)
        requires
            off + HEADER <= old(self)@.memory.len(),
        ensures
            final(self)@.base == old(self)@.base,
            final(self).head == old(self).head,
            final(self)@.blocks == old(self)@.blocks,
            memory::header_at(final(self)@.memory, off as int) == h,
            list::written(old(self)@.memory, final(self)@.memory, NONE, off as int),
    {
        memory::write_header(self.memory, off, h);
    }

    /// Make the block at `prev`, or the head where `prev` is [`NONE`], lead to `next`.
    fn set_next(&mut self, prev: usize, next: usize)
        requires
            prev != NONE ==> prev + HEADER <= old(self)@.memory.len(),
        ensures
            final(self)@.base == old(self)@.base,
            final(self)@.blocks == old(self)@.blocks,
            prev == NONE ==> {
                &&& final(self).head == next
                &&& final(self)@.memory == old(self)@.memory
            },
            prev != NONE ==> {
                &&& final(self).head == old(self).head
                &&& memory::header_at(final(self)@.memory, prev as int) == (BlockHeader {
                    next,
                    ..memory::header_at(old(self)@.memory, prev as int)
                })
                &&& list::written(old(self)@.memory, final(self)@.memory, NONE, prev as int)
            },
    {
        if prev == NONE {
            self.head = next;
        } else {
            let h = self.get(prev);
            self.set(prev, BlockHeader { size: h.size, align: h.align, next });
        }
    }

    /// Try to fit `size` bytes at `align` into the gap `[gap_start, gap_end)`. Returns the body
    /// length and the bytes left over on success.
    pub fn fit_gap(&self, gap_start: usize, gap_end: usize, size: usize, align: usize) -> (r: Option<
        (usize, usize),
    >)
        requires
            self@.base + gap_end <= usize::MAX,
            power2::is_pow2(align as int),
        ensures
            ({
                let b = Block { off: gap_start as int, size: size as int, align: align as int };
                match r {
                    Some((body, waste)) => {
                        &&& b.end(self@.base) <= gap_end
                        &&& body == b.body(self@.base)
                        &&& waste == gap_end - b.end(self@.base)
                    },
                    None => b.end(self@.base) > gap_end,
                }
            }),
    {
        let ghost b = Block { off: gap_start as int, size: size as int, align: align as int };
        proof {
            heap::lemma_align_positive(align as int);
            block::lemma_extent(b, self@.base);
        }
        let gap: usize = gap_end.checked_sub(gap_start)?;
        if gap < HEADER {
            return None;
        }
        let body: usize = block::checked_body_len(self.base, gap_start, size, align)?;
        if body <= gap - HEADER {
            Some((body, gap - HEADER - body))
        } else {
            None
        }
    }

    /// The offset just behind the block at `cur`, whose header is `hdr`.
    fn end_of(&self, cur: usize, hdr: BlockHeader) -> (end: usize)
        requires
            power2::is_pow2(hdr.align as int),
            self@.base + (Block {
                off: cur as int,
                size: hdr.size as int,
                align: hdr.align as int,
            }).end(self@.base) <= usize::MAX,
        ensures
            end == (Block {
                off: cur as int,
                size: hdr.size as int,
                align: hdr.align as int,
            }).end(self@.base),
    {
        proof {
            let b = Block { off: cur as int, size: hdr.size as int, align: hdr.align as int };
            heap::lemma_align_positive(b.align);
            block::lemma_extent(b, self@.base);
        }
        cur + HEADER + block::body_len(self.base, cur, hdr.size, hdr.align)
    }

    /// The first gap with the least waste for `size` bytes at `align`.
    fn search(&self, size: usize, align: usize) -> (r: Option<Placement>)
        requires
            self.wf(),
            power2::is_pow2(align as int),
        ensures
            match self@.placement(size as int, align as int) {
                Some(k) => {
                    &&& self@.is_best(k, size as int, align as int)
                    &&& r matches Some(p) && p.gap_start == self@.gap_start(k) && p.prev
                        == list::link(self@, k - 1)
                },
                None => r is None,
            },
    {
        let ghost h = self@;
        let ghost n = h.blocks.len() as int;
        let len: usize = self.memory.len();
        let mut best: Option<Placement> = None;
        let mut best_waste: usize = usize::MAX;
        let mut prev: usize = NONE;
        let mut gap_start: usize = 0;
        let mut cur: usize = self.head;
        let ghost mut k: int = 0;
        let ghost mut best_k: int = 0;
        while cur != NONE
            invariant
                self.wf(),
                h == self@,
                h.wf(),
                n == h.blocks.len(),
                len == h.length(),
                power2::is_pow2(align as int),
                0 <= k <= n,
                cur == list::link(h, k),
                prev == list::link(h, k - 1),
                gap_start == h.gap_start(k),
                best matches Some(p) ==> {
                    &&& best_so_far(h, k, best_k, size as int, align as int)
                    &&& best_waste == h.waste(best_k, size as int, align as int)
                    &&& p.gap_start == h.gap_start(best_k)
                    &&& p.prev == list::link(h, best_k - 1)
                },
                best is None ==> best_waste == usize::MAX && forall|j: int|
                    j < k ==> !h.fits(j, size as int, align as int),
            decreases n - k,
        {
            proof {
                list::lemma_read(h, self.head, k);
                heap::lemma_block(h, k);
                heap::lemma_gap(h, k);
            }
            if let Some((_body, waste)) = self.fit_gap(gap_start, cur, size, align) {
                assert(h.fits(k, size as int, align as int));
                assert(waste == h.waste(k, size as int, align as int));
                if waste < best_waste {
                    best = Some(Placement { gap_start, prev });
                    best_waste = waste;
                    proof {
                        best_k = k;
                    }
                    if waste == 0 {
                        proof {
                            heap::lemma_best_unique(h, k, size as int, align as int);
                        }
                        return best;
                    }
                }
            }
            let hdr = self.get(cur);
            prev = cur;
            gap_start = self.end_of(cur, hdr);
            cur = hdr.next;
            proof {
                k = k + 1;
            }
        }
        proof {
            if k < n {
                list::lemma_read(h, self.head, k);
            }
            heap::lemma_gap(h, n);
        }
        if let Some((_body, waste)) = self.fit_gap(gap_start, len, size, align) {
            assert(h.fits(n, size as int, align as int));
            if waste < best_waste {
                best = Some(Placement { gap_start, prev });
                proof {
                    best_k = n;
                }
            }
        }
        proof {
            if best is Some {
                heap::lemma_best_unique(h, best_k, size as int, align as int);
            }
        }
        best
    }

    /// Allocate `layout.size` bytes at a multiple of `layout.align`, in the first gap that is left
    /// with the least waste. Returns their address, or `None` when no gap fits.
    pub fn allocate(&mut self, layout: Layout) -> (r: Option<usize>)
        requires
            old(self).wf(),
            layout.wf(),
        ensures
            final(self).wf(),
            match old(self)@.placement(layout.size as int, layout.align as int) {
                Some(k) => {
                    &&& old(self)@.is_best(k, layout.size as int, layout.align as int)
                    &&& r matches Some(ptr) && ptr == old(self)@.candidate(
                        k,
                        layout.size as int,
                        layout.align as int,
                    ).address(old(self)@.base)
                    &&& final(self)@.blocks == old(self)@.placed(
                        k,
                        layout.size as int,
                        layout.align as int,
                    )
                    &&& final(self)@.only_headers_written(old(self)@)
                },
                None => r is None && final(self)@ == old(self)@,
            },
            match r {
                Some(ptr) => {
                    &&& final(self)@.find(ptr as int) matches Some(x)
                    &&& final(self)@.blocks[x].size == layout.size
                    &&& final(self)@.blocks[x].align == layout.align
                    &&& final(self)@.blocks.remove(x) == old(self)@.blocks
                },
                None => forall|off: int|
                    0 <= off && off % (WORD as int) == 0 && #[trigger] (Block {
                        off,
                        size: layout.size as int,
                        align: layout.align as int,
                    }).end(old(self)@.base) <= old(self)@.memory.len() ==> exists|i: int|
                        {
                            &&& 0 <= i < old(self)@.blocks.len()
                            &&& off < (#[trigger] old(self)@.blocks[i]).end(old(self)@.base)
                            &&& old(self)@.blocks[i].off < (Block {
                                off,
                                size: layout.size as int,
                                align: layout.align as int,
                            }).end(old(self)@.base)
                        },
            },
    {
        let size: usize = layout.size;
        let align: usize = layout.align;
        let ghost h = self@;
        let ghost pre_head = self.head;
        // A block costs a header plus padding on top of `size`, so anything larger than the whole
        // buffer is hopeless.
        if size > self.memory.len() {
            proof {
                heap::lemma_oversized(h, size as int, align as int);
                lemma_no_room(h, size as int, align as int);
            }
            return None;
        }
        let (gap, prev): (usize, usize) = match self.search(size, align) {
            Some(p) => (p.gap_start, p.prev),
            None => {
                proof {
                    lemma_no_room(h, size as int, align as int);
                }
                return None;
            },
        };
        let ghost k = h.placement(size as int, align as int)->0;
        let ghost c = h.candidate(k, size as int, align as int);
        proof {
            heap::lemma_gap(h, k);
            heap::lemma_align_positive(align as int);
            block::lemma_extent(c, h.base);
            heap::lemma_place(h, k, size as int, align as int);
            if k > 0 {
                list::lemma_read(h, pre_head, k - 1);
            }
        }
        let next: usize = if prev == NONE {
            self.head
        } else {
            self.get(prev).next
        };
        self.set_next(prev, gap);
        let ghost mid = self@.memory;
        self.set(gap, BlockHeader { size, align, next });
        self.blocks = Ghost(h.placed(k, size as int, align as int));
        proof {
            heap::lemma_same_shape(Heap { blocks: self@.blocks, ..h }, self@);
            if k > 0 {
                heap::lemma_block(h, k - 1);
                memory::lemma_same_header(mid, self@.memory, h.blocks[k - 1].off);
            }
            list::lemma_insert(h, pre_head, self@, self.head, k, size as int, align as int);
            laws::every_live_block_is_found(self@, k);
            assert(self@.blocks.remove(k) =~= h.blocks);
        }
        Some(block::align_up(self.base + gap + HEADER, align))
    }

    /// The block whose user bytes start at `target`, if there is one.
    fn find(&self, target: usize) -> (r: Option<Found>)
        requires
            self.wf(),
        ensures
            match self@.find(target as int) {
                Some(i) => {
                    &&& self@.is_at(i, target as int)
                    &&& r matches Some(f) && f.off == self@.blocks[i].off && f.prev == list::link(
                        self@,
                        i - 1,
                    ) && f.header == list::header(self@, i)
                },
                None => r is None,
            },
    {
        let ghost h = self@;
        let ghost n = h.blocks.len() as int;
        let mut prev: usize = NONE;
        let mut cur: usize = self.head;
        let ghost mut k: int = 0;
        while cur != NONE
            invariant
                self.wf(),
                h == self@,
                h.wf(),
                n == h.blocks.len(),
                0 <= k <= n,
                cur == list::link(h, k),
                prev == list::link(h, k - 1),
                forall|j: int| j < k ==> !h.is_at(j, target as int),
            decreases n - k,
        {
            proof {
                list::lemma_read(h, self.head, k);
                heap::lemma_block(h, k);
            }
            let header = self.get(cur);
            if block::align_up(self.base + cur + HEADER, header.align) == target {
                proof {
                    heap::lemma_find(h, k, target as int);
                }
                return Some(Found { off: cur, prev, header });
            }
            prev = cur;
            cur = header.next;
            proof {
                k = k + 1;
            }
        }
        proof {
            if k < n {
                list::lemma_read(h, self.head, k);
            }
        }
        None
    }

    /// Free the block whose user bytes start at `ptr`. Returns whether there was one; where there
    /// was none, nothing changes. The block is found by the alignment in its header, so the layout
    /// does not matter.
    pub fn dealloc(&mut self, ptr: usize, _layout: Layout) -> (found: bool)
        requires
            old(self).wf(),
        ensures
            final(self).wf(),
            match old(self)@.find(ptr as int) {
                Some(i) => {
                    &&& old(self)@.is_at(i, ptr as int)
                    &&& found
                    &&& final(self)@.blocks == old(self)@.blocks.remove(i)
                    &&& final(self)@.only_headers_written(old(self)@)
                },
                None => !found && final(self)@ == old(self)@,
            },
            found <==> exists|i: int|
                0 <= i < old(self)@.blocks.len() && (#[trigger] old(self)@.blocks[i]).address(
                    old(self)@.base,
                ) == ptr,
            final(self)@.find(ptr as int) is None,
    {
        let ghost h = self@;
        let ghost pre_head = self.head;
        let f = match self.find(ptr) {
            Some(f) => f,
            None => {
                proof {
                    assert forall|i: int|
                        0 <= i < h.blocks.len() && (#[trigger] h.blocks[i]).address(h.base)
                            == ptr implies false by {
                        laws::only_live_blocks_are_found(h, ptr as int, i);
                    }
                }
                return false;
            },
        };
        let ghost i = h.find(ptr as int)->0;
        proof {
            heap::lemma_free(h, i);
            if i > 0 {
                list::lemma_read(h, pre_head, i - 1);
            }
        }
        self.set_next(f.prev, f.header.next);
        self.blocks = Ghost(h.blocks.remove(i));
        proof {
            heap::lemma_same_shape(Heap { blocks: self@.blocks, ..h }, self@);
            list::lemma_remove(h, pre_head, self@, self.head, i);
            laws::only_live_blocks_are_found(h, ptr as int, i);
            laws::freed_address_is_not_found(h, i);
            assert forall|j: int| !self@.is_at(j, ptr as int) by {
                laws::only_live_blocks_are_found(
                    Heap { blocks: self@.blocks, ..h },
                    ptr as int,
                    j,
                );
            }
        }
        true
    }

    /// Change the size of the block whose user bytes start at `ptr`, which was allocated with
    /// `layout`, to `new_size`.
    ///
    /// A size of zero frees the block. Where the gap behind the block has room, the block stays
    /// where it is. Otherwise a new block is allocated, the user bytes are copied to it and the old
    /// block is freed. Returns the address of the user bytes, or `None` when the block was freed,
    /// when there is no such block or when no gap fits; in the latter two cases nothing changes.
    pub fn realloc(&mut self, ptr: usize, layout: Layout, new_size: usize) -> (r: Option<usize>)
        requires
            old(self).wf(),
            layout.wf(),
            old(self)@.find(ptr as int) matches Some(i) ==> layout.size
                <= old(self)@.blocks[i].size,
        ensures
            final(self).wf(),
            match old(self)@.find(ptr as int) {
                None => r is None && final(self)@ == old(self)@,
                Some(i) => {
                    let pre = old(self)@;
                    let post = final(self)@;
                    let size = new_size as int;
                    let align = layout.align as int;
                    &&& pre.is_at(i, ptr as int)
                    &&& if new_size == 0 {
                        &&& r is None
                        &&& post.blocks == pre.blocks.remove(i)
                        &&& post.only_headers_written(pre)
                    } else if pre.resizes(i, size) {
                        &&& r == Some(ptr)
                        &&& post.blocks == pre.resized(i, size)
                        &&& post.only_headers_written(pre)
                    } else {
                        match pre.placement(size, align) {
                            None => r is None && post == pre,
                            Some(k) => {
                                let address = pre.candidate(k, size, align).address(pre.base);
                                let kept = if layout.size < new_size {
                                    layout.size as int
                                } else {
                                    size
                                };
                                &&& pre.is_best(k, size, align)
                                &&& r matches Some(new_ptr) && new_ptr == address
                                &&& post.blocks == pre.relocated(i, k, size, align)
                                &&& post.bytes_moved(
                                    pre,
                                    pre.placed(k, size, align),
                                    ptr as int,
                                    address,
                                    kept,
                                )
                            },
                        }
                    }
                },
            },
            r matches Some(new_ptr) ==> {
                let pre = old(self)@;
                let post = final(self)@;
                &&& post.find(new_ptr as int) matches Some(x) && post.blocks[x].size == new_size
                &&& new_ptr != ptr ==> post.find(ptr as int) is None
                &&& forall|p: int|
                    new_ptr <= pre.base + p < new_ptr + layout.size && pre.base + p < new_ptr
                        + new_size ==> #[trigger] post.memory[p] == pre.memory[p - new_ptr + ptr]
            },
            forall|i: int|
                {
                    &&& 0 <= i < old(self)@.blocks.len()
                    &&& (#[trigger] old(self)@.blocks[i]).address(old(self)@.base) == ptr
                    &&& 0 < new_size
                    &&& (Block {
                        off: old(self)@.blocks[i].off,
                        size: new_size as int,
                        align: old(self)@.blocks[i].align,
                    }).end(old(self)@.base) <= if i + 1 < old(self)@.blocks.len() {
                        old(self)@.blocks[i + 1].off
                    } else {
                        old(self)@.memory.len() as int
                    }
                } ==> r == Some(ptr),
    {
        let ghost h = self@;
        proof {
            lemma_grows_in_place(h, ptr as int, new_size as int);
        }
        if new_size == 0 {
            self.dealloc(ptr, layout);
            return None;
        }
        // A request larger than the buffer can never be satisfied. The allocation stays untouched,
        // as a failed realloc must leave it.
        if new_size > self.memory.len() {
            proof {
                laws::oversized_requests_fail(self@, ptr as int, new_size as int, layout.align as int);
            }
            return None;
        }
        match self.find(ptr) {
            Some(f) => {
                let ghost i = h.find(ptr as int)->0;
                if self.resize(ptr, f, new_size) {
                    proof {
                        laws::every_live_block_is_found(self@, i);
                        assert forall|p: int|
                            ptr <= h.base + p < ptr + new_size implies #[trigger] self@.memory[p]
                            == h.memory[p - ptr + ptr] by {
                            laws::header_writes_keep_every_user_byte(h, self@, i, h.base + p - ptr);
                        }
                    }
                    Some(ptr)
                } else {
                    let r = self.relocate(ptr, layout, new_size);
                    proof {
                        if r is Some {
                            lemma_carried_over(
                                h,
                                self@,
                                i,
                                layout.size as int,
                                new_size as int,
                                layout.align as int,
                            );
                        }
                    }
                    r
                }
            },
            None => None,
        }
    }

    /// Give the block `f` of `ptr` `new_size` bytes where it is, if the gap behind it has room.
    fn resize(&mut self, ptr: usize, f: Found, new_size: usize) -> (done: bool)
        requires
            old(self).wf(),
            old(self)@.find(ptr as int) matches Some(i) && old(self)@.is_at(i, ptr as int) && f.off
                == old(self)@.blocks[i].off && f.header == list::header(old(self)@, i),
        ensures
            final(self).wf(),
            ({
                let i = old(self)@.find(ptr as int)->0;
                &&& done == old(self)@.resizes(i, new_size as int)
                &&& done ==> {
                    &&& final(self)@.blocks == old(self)@.resized(i, new_size as int)
                    &&& final(self)@.only_headers_written(old(self)@)
                }
                &&& !done ==> final(self)@ == old(self)@
            }),
    {
        let ghost h = self@;
        let ghost pre_head = self.head;
        let ghost i = h.find(ptr as int)->0;
        proof {
            list::lemma_read(h, pre_head, i);
            heap::lemma_block(h, i);
            heap::lemma_gap(h, i + 1);
            block::lemma_extent(Block { size: new_size as int, ..h.blocks[i] }, h.base);
            if i + 1 < h.blocks.len() {
                list::lemma_read(h, pre_head, i + 1);
            }
        }
        let gap_end: usize = if f.header.next == NONE {
            self.memory.len()
        } else {
            f.header.next
        };
        let room: usize = gap_end - f.off - HEADER;
        match block::checked_body_len(self.base, f.off, new_size, f.header.align) {
            Some(body) => {
                if body > room {
                    return false;
                }
            },
            None => {
                return false;
            },
        }
        self.set(
            f.off,
            BlockHeader { size: new_size, align: f.header.align, next: f.header.next },
        );
        self.blocks = Ghost(h.resized(i, new_size as int));
        proof {
            heap::lemma_resize(h, i, new_size as int);
            heap::lemma_same_shape(Heap { blocks: self@.blocks, ..h }, self@);
            list::lemma_resized(h, pre_head, self@, i, new_size as int);
        }
        true
    }

    /// Allocate `new_size` bytes, copy the user bytes at `ptr` there and free the block of `ptr`.
    #[verifier::rlimit(50)]
    #[verifier::spinoff_prover]
    fn relocate(&mut self, ptr: usize, layout: Layout, new_size: usize) -> (r: Option<usize>)
        requires
            old(self).wf(),
            layout.wf(),
            old(self)@.find(ptr as int) matches Some(i) && old(self)@.is_at(i, ptr as int)
                && layout.size <= old(self)@.blocks[i].size,
        ensures
            final(self).wf(),
            ({
                let pre = old(self)@;
                let post = final(self)@;
                let i = pre.find(ptr as int)->0;
                let size = new_size as int;
                let align = layout.align as int;
                match pre.placement(size, align) {
                    None => r is None && post == pre,
                    Some(k) => {
                        let address = pre.candidate(k, size, align).address(pre.base);
                        let kept = if layout.size < new_size {
                            layout.size as int
                        } else {
                            size
                        };
                        &&& pre.is_best(k, size, align)
                        &&& r matches Some(new_ptr) && new_ptr == address
                        &&& post.blocks == pre.relocated(i, k, size, align)
                        &&& post.bytes_moved(
                            pre,
                            pre.placed(k, size, align),
                            ptr as int,
                            address,
                            kept,
                        )
                    },
                }
            }),
    {
        let ghost h = self@;
        let ghost i = h.find(ptr as int)->0;
        let new_ptr: usize = match self.allocate(Layout { size: new_size, align: layout.align }) {
            Some(p) => p,
            None => {
                return None;
            },
        };
        let copy_size: usize = if layout.size < new_size {
            layout.size
        } else {
            new_size
        };
        let ghost k = h.placement(new_size as int, layout.align as int)->0;
        let ghost mid = self@;
        let ghost old_i = Heap::shifted(i, k);
        proof {
            assert(mid.blocks[old_i] == h.blocks[i]);
            assert(mid.blocks[k] == h.candidate(k, new_size as int, layout.align as int));
            heap::lemma_block(mid, old_i);
            heap::lemma_block(mid, k);
            if old_i < k {
                heap::lemma_apart(mid, old_i, k);
            } else {
                heap::lemma_apart(mid, k, old_i);
            }
        }
        memory::copy_bytes(self.memory, ptr - self.base, new_ptr - self.base, copy_size);
        let ghost moved = self@;
        proof {
            heap::lemma_same_shape(mid, moved);
            list::lemma_content_written(mid, self.head, moved, k);
            heap::lemma_find(moved, old_i, ptr as int);
        }
        self.dealloc(ptr, layout);
        proof {
            list::lemma_relocated(
                h,
                mid,
                moved,
                self@,
                i,
                k,
                new_size as int,
                layout.align as int,
                copy_size as int,
            );
        }
        Some(new_ptr)
    }

    /// The user byte at `addr`.
    pub fn load(&self, addr: usize) -> (byte: u8)
        requires
            self.wf(),
            self@.is_user_byte(addr as int),
        ensures
            byte == self@.memory[addr - self@.base],
    {
        proof {
            let i = choose|i: int| self@.covers(i, addr as int);
            heap::lemma_block(self@, i);
        }
        self.memory[addr - self.base]
    }

    /// Write the user byte at `addr`.
    pub fn store(&mut self, addr: usize, byte: u8)
        requires
            old(self).wf(),
            old(self)@.is_user_byte(addr as int),
        ensures
            final(self).wf(),
            final(self)@ == (Heap {
                memory: old(self)@.memory.update(addr - old(self)@.base, byte),
                ..old(self)@
            }),
    {
        let ghost h = self@;
        let ghost i = choose|i: int| h.covers(i, addr as int);
        proof {
            heap::lemma_block(h, i);
        }
        let at: usize = addr - self.base;
        self.memory[at] = byte;
        proof {
            heap::lemma_same_shape(h, self@);
            list::lemma_content_written(h, self.head, self@, i);
        }
    }

    /// Compact all allocated blocks toward the start of the buffer, eliminating fragmentation.
    /// Returns, by position, the user addresses before and after of every block that moved.
    ///
    /// A block may move without its user bytes: where the alignment is large, the padding behind
    /// the header can take up the whole gap.
    ///
    /// The list is allocated elsewhere. A caller that cannot allocate takes the steps itself: see
    /// [`Allocator::start_compaction`] and [`Allocator::compact_step`].
    pub fn optimize_space(&mut self) -> (moves: Vec<Relocation>)
        requires
            old(self).wf(),
        ensures
            final(self).wf(),
            final(self)@.blocks == old(self)@.packed(),
            final(self)@.only_blocks_written(old(self)@),
            pairs(moves@) == old(self)@.moves(),
            forall|x: int, y: int|
                0 <= x < y < moves@.len() ==> (#[trigger] moves@[x]).old < (
                #[trigger] moves@[y]).old,
            forall|j: int|
                0 <= j < old(self)@.blocks.len() ==> #[trigger] final(self)@.content(j) == old(
                    self,
                )@.content(j),
    {
        let ghost h = self@;
        let ghost n = h.blocks.len() as int;
        let ghost packed = Heap { blocks: h.packed(), ..h };
        let mut moves: Vec<Relocation> = Vec::new();
        let mut cursor = self.start_compaction();
        let mut done: bool = false;
        let ghost mut i: int = 0;
        assert(self@.blocks =~= h.packed_to(0));
        assert(pairs(moves@) =~= h.moves_to(0));
        while !done
            invariant
                self.wf(),
                h.wf(),
                n == h.blocks.len(),
                self@.base == h.base,
                self@.length() == h.length(),
                self@.blocks == h.packed_to(i),
                0 <= i <= n,
                cursor.valid(self@),
                cursor.index() == i,
                pairs(moves@) == h.moves_to(i),
                packed == (Heap { blocks: h.packed(), ..h }),
                forall|p: int|
                    0 <= p < h.length() && packed.outside_headers(p) && !packed.is_user_byte(
                        h.base + p,
                    ) ==> #[trigger] self@.memory[p] == h.memory[p],
                forall|j: int| 0 <= j < n ==> #[trigger] self@.content(j) == h.content(j),
                done ==> i == n,
            decreases n - i + (if done { 0int } else { 1int }),
        {
            let ghost before = self@;
            let ghost before_moves = moves@;
            match self.compact_step(&mut cursor) {
                Step::Done => {
                    done = true;
                },
                Step::Kept => {
                    proof {
                        heap::lemma_packed_step(h, i);
                        assert(self@.blocks =~= h.packed_to(i + 1));
                        i = i + 1;
                    }
                },
                Step::Moved(r) => {
                    moves.push(r);
                    proof {
                        heap::lemma_packed_step(h, i);
                        assert(self@.blocks =~= h.packed_to(i + 1));
                        assert forall|p: int|
                            0 <= p < h.length() && packed.outside_headers(p)
                                && !packed.is_user_byte(h.base + p) implies #[trigger]
                        self@.memory[p] == h.memory[p] by {
                            assert(self@.blocks[i] == packed.blocks[i]);
                            assert(!packed.in_header(i, p));
                            assert(!packed.in_header(i - 1, p));
                            assert(!packed.covers(i, h.base + p));
                            assert(self@.memory[p] == before.memory[p]);
                        }
                        assert(pairs(moves@) =~= pairs(before_moves).push(
                            (r.old as int, r.new as int),
                        ));
                        i = i + 1;
                    }
                },
            }
        }
        proof {
            assert forall|p: int|
                0 <= p < h.length() && self@.outside_headers(p) && !self@.is_user_byte(
                    h.base + p,
                ) implies #[trigger] self@.memory[p] == h.memory[p] by {
                assert forall|j: int| !packed.in_header(j, p) by {
                    assert(!self@.in_header(j, p));
                }
                let addr = h.base + p;
                assert forall|j: int| !packed.covers(j, addr) by {
                    assert(!self@.covers(j, addr));
                }
            }
            assert forall|x: int, y: int| 0 <= x < y < moves@.len() implies (
            #[trigger] moves@[x]).old < (#[trigger] moves@[y]).old by {
                assert(pairs(moves@)[x].0 == moves@[x].old && pairs(moves@)[y].0 == moves@[y].old);
                laws::moves_come_by_position(h, x, y);
            }
        }
        moves
    }

    /// Begin a compaction, at the first block.
    pub fn start_compaction(&self) -> (cursor: Compaction)
        requires
            self.wf(),
        ensures
            cursor.valid(self@),
            cursor.index() == 0,
    {
        Compaction { target: 0, prev: NONE, cur: self.head, index: Ghost(0) }
    }

    /// Slide the block at the cursor to the start of the gap before it, and advance the cursor. No
    /// byte is written but the block, at its new place, and the link to it.
    pub fn compact_step(&mut self, cursor: &mut Compaction) -> (step: Step)
        requires
            old(self).wf(),
            old(cursor).valid(old(self)@),
        ensures
            final(self).wf(),
            final(cursor).valid(final(self)@),
            final(self)@.base == old(self)@.base,
            final(self)@.length() == old(self)@.length(),
            ({
                let pre = old(self)@;
                let post = final(self)@;
                let i = old(cursor).index();
                if i == pre.blocks.len() {
                    &&& step is Done
                    &&& post == pre
                    &&& final(cursor).index() == i
                } else {
                    let start = pre.gap_start(i);
                    &&& final(cursor).index() == i + 1
                    &&& if start < pre.blocks[i].off {
                        &&& step matches Step::Moved(r) && r.old == pre.address(i) && r.new
                            == pre.blocks[i].at(start).address(pre.base)
                        &&& post.blocks == pre.blocks.update(i, pre.blocks[i].at(start))
                        &&& post.only_block_written(pre, i)
                        &&& forall|j: int|
                            0 <= j < pre.blocks.len() ==> #[trigger] post.content(j)
                                == pre.content(j)
                    } else {
                        &&& step is Kept
                        &&& post == pre
                    }
                }
            }),
    {
        let ghost h = self@;
        let ghost pre_head = self.head;
        let ghost i = cursor.index();
        let target: usize = cursor.target;
        let prev: usize = cursor.prev;
        let cur: usize = cursor.cur;
        if cur == NONE {
            proof {
                if i < h.blocks.len() {
                    list::lemma_read(h, pre_head, i);
                }
            }
            return Step::Done;
        }
        let ghost b = h.blocks[i];
        let ghost m = b.at(h.gap_start(i));
        proof {
            list::lemma_read(h, pre_head, i);
            heap::lemma_block(h, i);
            heap::lemma_gap(h, i);
            heap::lemma_slide(h, i);
            block::lemma_extent(m, h.base);
            if i > 0 {
                list::lemma_read(h, pre_head, i - 1);
                heap::lemma_block(h, i - 1);
            }
        }
        let hdr = self.get(cur);
        let end_if_kept: usize = self.end_of(cur, hdr);
        let end_if_moved: usize = self.end_of(target, hdr);
        if !(target < cur && end_if_moved <= end_if_kept) {
            cursor.target = end_if_kept;
            cursor.prev = cur;
            cursor.cur = hdr.next;
            cursor.index = Ghost(i + 1);
            return Step::Kept;
        }
        let old_user: usize = block::align_up(self.base + cur + HEADER, hdr.align);
        let new_user: usize = block::align_up(self.base + target + HEADER, hdr.align);
        memory::copy_bytes(self.memory, old_user - self.base, new_user - self.base, hdr.size);
        let ghost copied = self@.memory;
        proof {
            if i > 0 {
                memory::lemma_same_header(h.memory, copied, prev as int);
            }
        }
        self.set(target, hdr);
        let ghost stored = self@.memory;
        proof {
            if i > 0 {
                memory::lemma_same_header(copied, stored, prev as int);
            }
        }
        self.set_next(prev, target);
        self.blocks = Ghost(h.blocks.update(i, m));
        proof {
            if i > 0 {
                memory::lemma_same_header(stored, self@.memory, target as int);
            }
            heap::lemma_same_shape(Heap { blocks: self@.blocks, ..h }, self@);
            list::lemma_slid(h, pre_head, self@, self.head, i);
        }
        cursor.target = end_if_moved;
        cursor.prev = target;
        cursor.cur = hdr.next;
        cursor.index = Ghost(i + 1);
        Step::Moved(Relocation { old: old_user, new: new_user })
    }
}

/// The buffer of an allocator holds, at the offset of each live block, its size, its alignment and
/// the offset of the next live block, or [`NONE`] behind the last one.
pub proof fn headers_lie_in_the_buffer(a: Allocator, i: int)
    requires
        a.wf(),
        0 <= i < a@.blocks.len(),
    ensures
        ({
            let header = memory::header_at(a@.memory, a@.blocks[i].off);
            &&& header.size == a@.blocks[i].size
            &&& header.align == a@.blocks[i].align
            &&& header.next == if i + 1 < a@.blocks.len() {
                a@.blocks[i + 1].off
            } else {
                usize::MAX as int
            }
        }),
{
    list::lemma_read(a@, a.head, i);
    if i + 1 < a@.blocks.len() {
        list::lemma_read(a@, a.head, i + 1);
    }
}

/// A request that cannot be placed would overlap a live block wherever it lay.
proof fn lemma_no_room(h: Heap, size: int, align: int)
    requires
        h.wf(),
        0 <= size,
        power2::is_pow2(align),
        h.placement(size, align) is None,
    ensures
        forall|off: int|
            0 <= off && off % (WORD as int) == 0 && #[trigger] (Block { off, size, align }).end(
                h.base,
            ) <= h.memory.len() ==> exists|i: int|
                {
                    &&& 0 <= i < h.blocks.len()
                    &&& off < (#[trigger] h.blocks[i]).end(h.base)
                    &&& h.blocks[i].off < (Block { off, size, align }).end(h.base)
                },
{
    assert forall|off: int|
        0 <= off && off % (WORD as int) == 0 && #[trigger] (Block { off, size, align }).end(h.base)
            <= h.memory.len() implies exists|i: int|
        {
            &&& 0 <= i < h.blocks.len()
            &&& off < (#[trigger] h.blocks[i]).end(h.base)
            &&& h.blocks[i].off < (Block { off, size, align }).end(h.base)
        } by {
        laws::request_fails_only_without_room(h, size, align, off);
    }
}

/// A block at `ptr` with room for `size` bytes behind it is the one that resizes.
proof fn lemma_grows_in_place(h: Heap, ptr: int, size: int)
    requires
        h.wf(),
    ensures
        forall|i: int|
            {
                &&& 0 <= i < h.blocks.len()
                &&& (#[trigger] h.blocks[i]).address(h.base) == ptr
                &&& (Block { off: h.blocks[i].off, size, align: h.blocks[i].align }).end(h.base)
                    <= if i + 1 < h.blocks.len() {
                    h.blocks[i + 1].off
                } else {
                    h.memory.len() as int
                }
            } ==> h.find(ptr) == Some(i) && h.resizes(i, size),
{
    assert forall|i: int|
        0 <= i < h.blocks.len() && (#[trigger] h.blocks[i]).address(h.base)
            == ptr implies h.find(ptr) == Some(i) by {
        laws::every_live_block_is_found(h, i);
    }
}

/// What a relocation of block `i` to the best gap leaves at the two addresses.
proof fn lemma_carried_over(pre: Heap, post: Heap, i: int, old_size: int, size: int, align: int)
    requires
        pre.wf(),
        0 <= i < pre.blocks.len(),
        0 <= old_size <= pre.blocks[i].size,
        0 <= size,
        power2::is_pow2(align),
        align <= usize::MAX,
        pre.placement(size, align) matches Some(k) && post.blocks == pre.relocated(
            i,
            k,
            size,
            align,
        ) && post.bytes_moved(
            pre,
            pre.placed(k, size, align),
            pre.address(i),
            pre.candidate(k, size, align).address(pre.base),
            if old_size < size {
                old_size
            } else {
                size
            },
        ),
    ensures
        ({
            let k = pre.placement(size, align)->0;
            let from = pre.blocks[i].address(pre.base);
            let to = pre.candidate(k, size, align).address(pre.base);
            &&& post.find(to) matches Some(x) && post.blocks[x].size == size
            &&& post.find(from) is None
            &&& forall|p: int|
                to <= pre.base + p < to + old_size && pre.base + p < to + size
                    ==> #[trigger] post.memory[p] == pre.memory[p - to + from]
        }),
{
    let k = pre.placement(size, align)->0;
    let from = pre.blocks[i].address(pre.base);
    let to = pre.candidate(k, size, align).address(pre.base);
    let n = if old_size < size {
        old_size
    } else {
        size
    };
    laws::relocated_bytes_arrive(pre, post, i, k, size, align, n, 0);
    assert forall|p: int|
        to <= pre.base + p < to + old_size && pre.base + p < to + size implies #[trigger]
    post.memory[p] == pre.memory[p - to + from] by {
        laws::relocated_bytes_arrive(pre, post, i, k, size, align, n, pre.base + p - to);
    }
}

/// Among the gaps before gap `k`, gap `best` is the first with the least waste.
spec fn best_so_far(h: Heap, k: int, best: int, size: int, align: int) -> bool {
    &&& best < k
    &&& h.fits(best, size, align)
    &&& forall|j: int|
        j < k && #[trigger] h.fits(j, size, align) ==> h.waste(best, size, align) <= h.waste(
            j,
            size,
            align,
        )
    &&& forall|j: int|
        j < best && #[trigger] h.fits(j, size, align) ==> h.waste(best, size, align) < h.waste(
            j,
            size,
            align,
        )
}

} // verus!
