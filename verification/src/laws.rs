//! What holds of the allocator as a whole.

use crate::block;
use crate::block::{Block, HEADER, WORD};
use crate::heap;
use crate::heap::Heap;
use crate::rounding;
use vstd::arithmetic::power2;
use vstd::prelude::*;

verus! {

/// A buffer gives the largest word-aligned region inside it: the region starts at the first word
/// boundary and reaches to the end of the buffer. Where the buffer has no word boundary, the region
/// is empty.
pub proof fn fresh_heap_is_largest(address: int, data: Seq<u8>, boundary: int)
    requires
        0 <= address,
        address + data.len() <= usize::MAX,
    ensures
        ({
            let h = Heap::fresh(address, data);
            &&& h.wf()
            &&& h.blocks.len() == 0
            &&& boundary % (WORD as int) == 0 && address <= boundary <= address + data.len() ==> {
                &&& h.base % (WORD as int) == 0
                &&& address <= h.base <= boundary
                &&& h.base + h.length() == address + data.len()
            }
        }),
{
    rounding::lemma_round_up(address, WORD as int);
    if boundary % (WORD as int) == 0 && address <= boundary {
        rounding::lemma_round_up_least(address, WORD as int, boundary);
    }
}

/// Every header lies on a word boundary.
pub proof fn headers_are_word_aligned(h: Heap, i: int)
    requires
        h.wf(),
        0 <= i < h.blocks.len(),
    ensures
        (h.base + h.blocks[i].off) % (WORD as int) == 0,
        h.blocks[i].off + HEADER <= h.length(),
{
    heap::lemma_block(h, i);
    rounding::lemma_multiples(h.base, h.blocks[i].off, WORD as int);
}

/// The user bytes of a live block lie inside the buffer, behind the header, at a multiple of the
/// alignment. Their address is never null.
pub proof fn live_bytes_lie_in_the_buffer(h: Heap, i: int)
    requires
        h.wf(),
        0 <= i < h.blocks.len(),
    ensures
        h.base + h.blocks[i].off + HEADER <= h.address(i),
        h.address(i) + h.blocks[i].size <= h.base + h.length(),
        h.address(i) % h.blocks[i].align == 0,
        0 < h.address(i),
        h.content(i).len() == h.blocks[i].size,
{
    heap::lemma_block(h, i);
}

/// No byte belongs to two live blocks, nor to a live block and a header.
pub proof fn live_bytes_are_disjoint(h: Heap, i: int, j: int, addr: int)
    requires
        h.wf(),
        h.covers(i, addr),
    ensures
        h.covers(j, addr) ==> i == j,
        h.outside_headers(addr - h.base),
{
    heap::lemma_user_byte_outside_headers(h, i, addr - h.base);
    if h.covers(j, addr) {
        if i < j {
            heap::lemma_apart(h, i, j);
            heap::lemma_block(h, j);
        } else if j < i {
            heap::lemma_apart(h, j, i);
            heap::lemma_block(h, i);
        }
    }
}

/// A request is placed exactly when some gap fits it, and then in the first of the gaps with the
/// least waste.
pub proof fn placement_is_best_fit(h: Heap, size: int, align: int)
    ensures
        h.placement(size, align) is Some <==> exists|k: int| h.fits(k, size, align),
        h.placement(size, align) matches Some(k) ==> h.is_best(k, size, align),
{
    if exists|k: int| h.fits(k, size, align) {
        let k = choose|k: int| h.fits(k, size, align);
        let best = best_among(h, size, align, h.blocks.len() as int + 1, k);
        assert(h.is_best(best, size, align));
    }
}

/// Among the first `n` gaps, of which `k` fits, one is the first with the least waste.
proof fn best_among(h: Heap, size: int, align: int, n: int, k: int) -> (best: int)
    requires
        k < n,
        h.fits(k, size, align),
    ensures
        best < n,
        h.fits(best, size, align),
        forall|j: int|
            j < n && #[trigger] h.fits(j, size, align) ==> h.waste(best, size, align) <= h.waste(
                j,
                size,
                align,
            ),
        forall|j: int|
            j < best && #[trigger] h.fits(j, size, align) ==> h.waste(best, size, align) < h.waste(
                j,
                size,
                align,
            ),
    decreases n,
{
    let last = n - 1;
    if exists|j: int| j < last && #[trigger] h.fits(j, size, align) {
        let j = choose|j: int| j < last && #[trigger] h.fits(j, size, align);
        let best = best_among(h, size, align, last, j);
        if h.fits(last, size, align) && h.waste(last, size, align) < h.waste(best, size, align) {
            last
        } else {
            best
        }
    } else {
        k
    }
}

/// A request for more bytes than the buffer has neither resizes a block nor fits a gap.
pub proof fn oversized_requests_fail(h: Heap, ptr: int, size: int, align: int)
    requires
        h.wf(),
        power2::is_pow2(align),
        h.length() < size,
    ensures
        h.placement(size, align) is None,
        h.find(ptr) matches Some(i) ==> h.is_at(i, ptr) && !h.resizes(i, size),
{
    heap::lemma_oversized(h, size, align);
    if h.find(ptr) is Some {
        let i = h.find(ptr)->0;
        assert(h.is_at(i, ptr));
        heap::lemma_gap(h, i + 1);
        heap::lemma_align_positive(h.blocks[i].align);
        block::lemma_extent(Block { size, ..h.blocks[i] }, h.base);
    }
}

/// An empty heap takes a request exactly when a block at its start ends inside the buffer.
pub proof fn empty_heap_fits(h: Heap, size: int, align: int)
    requires
        h.blocks.len() == 0,
    ensures
        h.placement(size, align) is Some <==> (Block { off: 0, size, align }).end(h.base)
            <= h.length(),
{
    assert(h.candidate(0, size, align) == Block { off: 0, size, align });
    if h.candidate(0, size, align).end(h.base) <= h.length() {
        assert(h.fits(0, size, align));
    }
}

/// A heap without a byte takes no request.
pub proof fn zero_length_never_fits(h: Heap, size: int, align: int)
    requires
        h.wf(),
        h.length() == 0,
        0 <= size,
        power2::is_pow2(align),
    ensures
        h.placement(size, align) is None,
{
    assert forall|k: int| !h.fits(k, size, align) by {
        if h.fits(k, size, align) {
            heap::lemma_gap(h, k);
            heap::lemma_align_positive(align);
            block::lemma_extent(h.candidate(k, size, align), h.base);
        }
    }
}

/// Freeing undoes allocating: the new block is the one at the address that was handed out, and
/// without it the blocks are those from before.
pub proof fn dealloc_undoes_allocate(h: Heap, k: int, size: int, align: int)
    requires
        h.wf(),
        h.fits(k, size, align),
        0 <= size,
        power2::is_pow2(align),
        align <= usize::MAX,
    ensures
        ({
            let after = Heap { blocks: h.placed(k, size, align), ..h };
            &&& after.wf()
            &&& after.find(h.candidate(k, size, align).address(h.base)) == Some(k)
            &&& after.blocks.remove(k) == h.blocks
        }),
{
    let after = Heap { blocks: h.placed(k, size, align), ..h };
    heap::lemma_place(h, k, size, align);
    assert(after.blocks[k] == h.candidate(k, size, align));
    heap::lemma_find(after, k, h.candidate(k, size, align).address(h.base));
    assert(after.blocks.remove(k) =~= h.blocks);
}

/// Freeing needs no coalescing: the gaps on both sides of the block become one, and the others
/// stay as they are.
pub proof fn freeing_merges_gaps(h: Heap, i: int, k: int)
    requires
        h.wf(),
        0 <= i < h.blocks.len(),
        0 <= k < h.blocks.len(),
    ensures
        ({
            let after = Heap { blocks: h.blocks.remove(i), ..h };
            &&& after.gap_start(k) == h.gap_start(
                if k <= i {
                    k
                } else {
                    k + 1
                },
            )
            &&& after.gap_end(k) == h.gap_end(
                if k < i {
                    k
                } else {
                    k + 1
                },
            )
        }),
{
}

/// Freeing a block never makes a request fail that could be placed before.
pub proof fn freeing_keeps_requests_placeable(h: Heap, i: int, size: int, align: int)
    requires
        h.wf(),
        0 <= i < h.blocks.len(),
        0 <= size,
        power2::is_pow2(align),
        h.placement(size, align) is Some,
    ensures
        (Heap { blocks: h.blocks.remove(i), ..h }).placement(size, align) is Some,
{
    let after = Heap { blocks: h.blocks.remove(i), ..h };
    let k = choose|k: int| h.fits(k, size, align);
    assert(h.fits(k, size, align));
    let c = if k <= i {
        k
    } else {
        k - 1
    };
    freeing_merges_gaps(h, i, c);
    if k == i + 1 {
        lemma_earlier_gap_start(h, k, i, size, align);
        heap::lemma_block(h, i);
        heap::lemma_gap(h, i + 1);
    } else if k == i {
        heap::lemma_block(h, i);
        heap::lemma_gap(h, i + 1);
    }
    assert(after.fits(c, size, align));
}

/// A request ends no later at the start of an earlier gap.
proof fn lemma_earlier_gap_start(h: Heap, k: int, e: int, size: int, align: int)
    requires
        h.wf(),
        0 <= e < k <= h.blocks.len(),
        power2::is_pow2(align),
    ensures
        h.candidate(e, size, align).end(h.base) <= h.candidate(k, size, align).end(h.base),
{
    heap::lemma_gap(h, e);
    heap::lemma_gap(h, k);
    heap::lemma_block(h, k - 1);
    heap::lemma_block(h, e);
    if e < k - 1 {
        heap::lemma_apart(h, e, k - 1);
    }
    heap::lemma_align_positive(align);
    block::lemma_moved_left(h.candidate(k, size, align), h.base, h.gap_start(e));
}

/// The space of a freed block can be had again: the same request can be placed.
pub proof fn freed_space_is_reusable(h: Heap, i: int)
    requires
        h.wf(),
        0 <= i < h.blocks.len(),
    ensures
        (Heap { blocks: h.blocks.remove(i), ..h }).placement(h.blocks[i].size, h.blocks[i].align)
            is Some,
{
    let b = h.blocks[i];
    let after = Heap { blocks: h.blocks.remove(i), ..h };
    heap::lemma_slide(h, i);
    heap::lemma_gap(h, i + 1);
    freeing_merges_gaps(h, i, i);
    assert(after.candidate(i, b.size, b.align) == b.at(h.gap_start(i)));
    assert(after.fits(i, b.size, b.align));
}

/// When the last block is freed the whole buffer is available again: the heap takes what the fresh
/// heap took.
pub proof fn full_free_reclaims_everything(h: Heap, fresh: Heap, size: int, align: int)
    requires
        h.blocks.len() == 0,
        fresh.blocks.len() == 0,
        h.base == fresh.base,
        h.length() == fresh.length(),
    ensures
        h.placement(size, align) is Some <==> fresh.placement(size, align) is Some,
{
    empty_heap_fits(h, size, align);
    empty_heap_fits(fresh, size, align);
}

/// A block that survives an operation which writes nothing but headers keeps its user bytes.
pub proof fn surviving_blocks_keep_their_bytes(pre: Heap, post: Heap, i: int, j: int)
    requires
        pre.wf(),
        post.wf(),
        post.only_headers_written(pre),
        0 <= i < pre.blocks.len(),
        0 <= j < post.blocks.len(),
        post.blocks[j] == pre.blocks[i],
    ensures
        post.content(j) == pre.content(i),
{
    assert forall|t: int| 0 <= t < pre.blocks[i].size implies post.content(j)[t] == pre.content(
        i,
    )[t] by {
        heap::lemma_block(post, j);
        heap::lemma_user_byte_outside_headers(post, j, post.address(j) - post.base + t);
    }
    heap::lemma_block(post, j);
    assert(post.content(j) =~= pre.content(i));
}

/// Shrinking a block always works where it is.
pub proof fn shrinking_stays_in_place(h: Heap, i: int, size: int)
    requires
        h.wf(),
        0 <= i < h.blocks.len(),
        0 <= size <= h.blocks[i].size,
    ensures
        h.resizes(i, size),
{
    heap::lemma_block(h, i);
    heap::lemma_gap(h, i + 1);
    block::lemma_smaller(h.blocks[i], h.base, size);
}

/// A block that was resized where it is keeps the bytes that both sizes have.
pub proof fn resizing_in_place_keeps_bytes(pre: Heap, post: Heap, i: int, size: int, n: int)
    requires
        pre.wf(),
        post.wf(),
        0 <= i < pre.blocks.len(),
        post.blocks == pre.resized(i, size),
        post.only_headers_written(pre),
        0 <= n <= size,
        n <= pre.blocks[i].size,
    ensures
        post.address(i) == pre.address(i),
        post.bytes_at(post.address(i), n) == pre.bytes_at(pre.address(i), n),
{
    heap::lemma_block(post, i);
    let a = post.bytes_at(post.address(i), n);
    let b = pre.bytes_at(pre.address(i), n);
    assert forall|t: int| 0 <= t < n implies a[t] == b[t] by {
        heap::lemma_user_byte_outside_headers(post, i, post.address(i) - post.base + t);
    }
    assert(a =~= b);
}

/// A relocation leaves the user bytes of every other block alone.
pub proof fn relocation_keeps_other_blocks(
    pre: Heap,
    post: Heap,
    i: int,
    k: int,
    size: int,
    align: int,
    n: int,
    j: int,
)
    requires
        pre.wf(),
        0 <= i < pre.blocks.len(),
        0 <= j < pre.blocks.len(),
        i != j,
        0 <= n <= size,
        power2::is_pow2(align),
        align <= usize::MAX,
        pre.fits(k, size, align),
        post.blocks == pre.relocated(i, k, size, align),
        post.bytes_moved(
            pre,
            pre.placed(k, size, align),
            pre.address(i),
            pre.candidate(k, size, align).address(pre.base),
            n,
        ),
    ensures
        ({
            let s = Heap::shifted(j, k);
            let x = if s < Heap::shifted(i, k) {
                s
            } else {
                s - 1
            };
            &&& 0 <= x < post.blocks.len()
            &&& post.blocks[x] == pre.blocks[j]
            &&& post.content(x) == pre.content(j)
        }),
{
    let mid = Heap { blocks: pre.placed(k, size, align), ..pre };
    heap::lemma_place(pre, k, size, align);
    let s = Heap::shifted(j, k);
    let x = if s < Heap::shifted(i, k) {
        s
    } else {
        s - 1
    };
    assert(mid.blocks[s] == pre.blocks[j]);
    assert(mid.blocks[k] == pre.candidate(k, size, align));
    heap::lemma_block(mid, s);
    heap::lemma_block(mid, k);
    if s < k {
        heap::lemma_apart(mid, s, k);
    } else {
        heap::lemma_apart(mid, k, s);
    }
    assert forall|t: int| 0 <= t < pre.blocks[j].size implies post.content(x)[t] == pre.content(
        j,
    )[t] by {
        heap::lemma_user_byte_outside_headers(mid, s, mid.address(s) - mid.base + t);
    }
    assert(post.content(x) =~= pre.content(j));
}

/// Writing a user byte of one block leaves the user bytes of every other block alone, and the
/// written block differs in that byte only.
pub proof fn stores_stay_in_their_block(h: Heap, i: int, j: int, addr: int, byte: u8)
    requires
        h.wf(),
        h.covers(i, addr),
        0 <= j < h.blocks.len(),
    ensures
        ({
            let after = Heap { memory: h.memory.update(addr - h.base, byte), ..h };
            &&& j != i ==> after.content(j) == h.content(j)
            &&& after.content(i) == h.content(i).update(addr - h.address(i), byte)
        }),
{
    let after = Heap { memory: h.memory.update(addr - h.base, byte), ..h };
    heap::lemma_block(h, i);
    heap::lemma_block(h, j);
    if i < j {
        heap::lemma_apart(h, i, j);
    } else if j < i {
        heap::lemma_apart(h, j, i);
    }
    if j != i {
        assert(after.content(j) =~= h.content(j));
    }
    assert(after.content(i) =~= h.content(i).update(addr - h.address(i), byte));
}

/// Packing the first `i` blocks keeps the heap well formed.
proof fn lemma_packed_to_wf(h: Heap, i: int)
    requires
        h.wf(),
        0 <= i <= h.blocks.len(),
    ensures
        (Heap { blocks: h.packed_to(i), ..h }).wf(),
    decreases i,
{
    if i == 0 {
        assert(h.packed_to(0) =~= h.blocks);
    } else {
        lemma_packed_to_wf(h, i - 1);
        heap::lemma_packed_step(h, i - 1);
        heap::lemma_slide(Heap { blocks: h.packed_to(i - 1), ..h }, i - 1);
    }
}

/// Compaction eliminates fragmentation: the blocks keep their order, sizes and alignments, and
/// there is no gap but the one behind the last block.
pub proof fn compaction_leaves_no_gap(h: Heap, k: int)
    requires
        h.wf(),
        0 <= k < h.blocks.len(),
    ensures
        ({
            let packed = Heap { blocks: h.packed(), ..h };
            &&& packed.wf()
            &&& packed.blocks.len() == h.blocks.len()
            &&& packed.blocks[k].size == h.blocks[k].size
            &&& packed.blocks[k].align == h.blocks[k].align
            &&& packed.gap_start(k) == packed.gap_end(k)
        }),
{
    lemma_packed_to_wf(h, h.blocks.len() as int);
}

/// Compaction moves no block to the right, neither its header nor its user bytes.
pub proof fn compaction_never_moves_right(h: Heap, i: int)
    requires
        h.wf(),
        0 <= i < h.blocks.len(),
    ensures
        ({
            let packed = Heap { blocks: h.packed(), ..h };
            &&& packed.blocks[i].off <= h.blocks[i].off
            &&& packed.address(i) <= h.address(i)
            &&& packed.blocks[i].end(h.base) <= h.blocks[i].end(h.base)
        }),
{
    heap::lemma_packed_start(h, i);
    heap::lemma_gap(h, i);
    heap::lemma_block(h, i);
    block::lemma_moved_left(h.blocks[i], h.base, h.packed_start(i));
}

/// Compaction never shrinks the gap behind the last block.
pub proof fn compaction_never_shrinks_the_last_gap(h: Heap)
    requires
        h.wf(),
    ensures
        ({
            let packed = Heap { blocks: h.packed(), ..h };
            let n = h.blocks.len() as int;
            &&& packed.gap_end(n) == h.gap_end(n)
            &&& packed.gap_start(n) <= h.gap_start(n)
        }),
{
    if h.blocks.len() > 0 {
        compaction_never_moves_right(h, h.blocks.len() - 1);
    }
}

/// A compacted heap stays as it is under another compaction.
pub proof fn compaction_is_idempotent(h: Heap)
    requires
        h.wf(),
    ensures
        ({
            let packed = Heap { blocks: h.packed(), ..h };
            &&& packed.packed() == packed.blocks
            &&& packed.moves() == Seq::<(int, int)>::empty()
        }),
{
    let packed = Heap { blocks: h.packed(), ..h };
    let n = h.blocks.len() as int;
    lemma_packed_twice(h, n);
    assert forall|i: int| 0 <= i < n implies packed.packed()[i] == packed.blocks[i] by {
        lemma_packed_twice(h, i);
    }
    assert(packed.packed() =~= packed.blocks);
}

/// In a packed heap the first `i` blocks start where packing puts them, and none of them moves.
proof fn lemma_packed_twice(h: Heap, i: int)
    requires
        h.wf(),
        0 <= i <= h.blocks.len(),
    ensures
        (Heap { blocks: h.packed(), ..h }).packed_start(i) == h.packed_start(i),
        (Heap { blocks: h.packed(), ..h }).moves_to(i) == Seq::<(int, int)>::empty(),
    decreases i,
{
    if i > 0 {
        lemma_packed_twice(h, i - 1);
    }
}

/// Every block that compaction moves is reported, with the address of its user bytes before and
/// after: so is every block whose user bytes have a new address.
pub proof fn compaction_reports_every_move(h: Heap, i: int)
    requires
        h.wf(),
        0 <= i < h.blocks.len(),
    ensures
        ({
            let packed = Heap { blocks: h.packed(), ..h };
            &&& packed.blocks[i].off < h.blocks[i].off ==> h.moves().contains(
                (h.address(i), packed.address(i)),
            )
            &&& packed.address(i) != h.address(i) ==> packed.blocks[i].off < h.blocks[i].off
        }),
{
    let packed = Heap { blocks: h.packed(), ..h };
    heap::lemma_packed_start(h, i);
    heap::lemma_gap(h, i);
    if packed.blocks[i].off < h.blocks[i].off {
        let pair = (h.address(i), packed.address(i));
        assert(h.moves_to(i + 1).last() == pair);
        assert(h.moves_to(i + 1).contains(pair)) by {
            assert(h.moves_to(i + 1)[h.moves_to(i + 1).len() - 1] == pair);
        }
        lemma_moves_kept(h, i + 1, h.blocks.len() as int, pair);
    } else {
        assert(packed.blocks[i] == h.blocks[i]);
    }
}

/// What was reported of the first `i` blocks stays reported.
proof fn lemma_moves_kept(h: Heap, i: int, n: int, pair: (int, int))
    requires
        0 <= i <= n,
        h.moves_to(i).contains(pair),
    ensures
        h.moves_to(n).contains(pair),
    decreases n,
{
    if i < n {
        lemma_moves_kept(h, i, n - 1, pair);
        let before = h.moves_to(n - 1);
        let t = choose|t: int| 0 <= t < before.len() && before[t] == pair;
        assert(h.moves_to(n)[t] == pair);
    }
}

/// Nothing but moves of blocks is reported.
pub proof fn compaction_reports_only_moves(h: Heap, pair: (int, int))
    requires
        h.wf(),
        h.moves().contains(pair),
    ensures
        ({
            let packed = Heap { blocks: h.packed(), ..h };
            exists|i: int|
                0 <= i < h.blocks.len() && packed.blocks[i].off < h.blocks[i].off && pair == (
                    #[trigger] h.address(i),
                    packed.address(i),
                )
        }),
{
    lemma_reported_moves(h, h.blocks.len() as int, pair);
}

/// What is reported of the first `n` blocks are moves of blocks.
proof fn lemma_reported_moves(h: Heap, n: int, pair: (int, int))
    requires
        0 <= n <= h.blocks.len(),
        h.moves_to(n).contains(pair),
    ensures
        ({
            let packed = Heap { blocks: h.packed(), ..h };
            exists|i: int|
                0 <= i < h.blocks.len() && packed.blocks[i].off < h.blocks[i].off && pair == (
                    #[trigger] h.address(i),
                    packed.address(i),
                )
        }),
    decreases n,
{
    let packed = Heap { blocks: h.packed(), ..h };
    let all = h.moves_to(n);
    let t = choose|t: int| 0 <= t < all.len() && all[t] == pair;
    let i = n - 1;
    if n > 0 {
        if packed.blocks[i].off < h.blocks[i].off && t == all.len() - 1 {
            assert(pair == (h.address(i), packed.address(i)));
        } else {
            assert(h.moves_to(i)[t] == pair);
            lemma_reported_moves(h, i, pair);
        }
    }
}

/// Free bytes in the gaps before gap `k`.
pub open spec fn free_before(h: Heap, k: int) -> int
    decreases k,
{
    if k <= 0 {
        0
    } else {
        free_before(h, k - 1) + (h.gap_end(k - 1) - h.gap_start(k - 1))
    }
}

/// Where no block asks for more than word alignment, compaction gathers all free bytes behind the
/// last block: the gap there is as large as all gaps were together.
pub proof fn compaction_gathers_all_free_bytes(h: Heap)
    requires
        h.wf(),
        forall|i: int| 0 <= i < h.blocks.len() ==> (#[trigger] h.blocks[i]).align <= WORD,
    ensures
        ({
            let packed = Heap { blocks: h.packed(), ..h };
            let n = h.blocks.len() as int;
            packed.gap_end(n) - packed.gap_start(n) == free_before(h, n + 1)
        }),
{
    let n = h.blocks.len() as int;
    lemma_free_bytes(h, n);
    lemma_packed_to_wf(h, n);
    if n > 0 {
        assert(h.packed()[n - 1] == h.blocks[n - 1].at(h.packed_start(n - 1)));
    }
}

/// Where no block asks for more than word alignment, compaction keeps every such request
/// placeable.
pub proof fn compaction_keeps_requests_placeable(h: Heap, size: int, align: int)
    requires
        h.wf(),
        forall|i: int| 0 <= i < h.blocks.len() ==> (#[trigger] h.blocks[i]).align <= WORD,
        0 <= size,
        power2::is_pow2(align),
        align <= WORD,
        h.placement(size, align) is Some,
    ensures
        (Heap { blocks: h.packed(), ..h }).placement(size, align) is Some,
{
    let packed = Heap { blocks: h.packed(), ..h };
    let n = h.blocks.len() as int;
    let k = choose|k: int| h.fits(k, size, align);
    assert(h.fits(k, size, align));
    let c = h.candidate(k, size, align);
    heap::lemma_gap(h, k);
    heap::lemma_align_positive(align);
    block::lemma_extent(c, h.base);
    lemma_word_aligned_body(c, h.base);
    lemma_packed_to_wf(h, n);
    heap::lemma_gap(packed, n);
    lemma_word_aligned_body(packed.candidate(n, size, align), h.base);
    compaction_gathers_all_free_bytes(h);
    lemma_gap_counts(h, k, n + 1);
    assert(packed.fits(n, size, align));
}

/// The free bytes before a gap are at least those of each gap among them.
proof fn lemma_gap_counts(h: Heap, k: int, n: int)
    requires
        h.wf(),
        0 <= k < n <= h.blocks.len() + 1,
    ensures
        h.gap_end(k) - h.gap_start(k) <= free_before(h, n),
    decreases n,
{
    heap::lemma_gap(h, n - 1);
    if k < n - 1 {
        lemma_gap_counts(h, k, n - 1);
    } else {
        lemma_free_before_nonnegative(h, k);
    }
}

/// There is no negative number of free bytes.
proof fn lemma_free_before_nonnegative(h: Heap, k: int)
    requires
        h.wf(),
        0 <= k <= h.blocks.len() + 1,
    ensures
        0 <= free_before(h, k),
    decreases k,
{
    if k > 0 {
        heap::lemma_gap(h, k - 1);
        lemma_free_before_nonnegative(h, k - 1);
    }
}

/// With word alignment, a block starts as far to the left as there are free bytes before it.
proof fn lemma_free_bytes(h: Heap, i: int)
    requires
        h.wf(),
        0 <= i <= h.blocks.len(),
        forall|j: int| 0 <= j < h.blocks.len() ==> (#[trigger] h.blocks[j]).align <= WORD,
    ensures
        h.packed_start(i) + free_before(h, i) == h.gap_start(i),
    decreases i,
{
    if i > 0 {
        let b = h.blocks[i - 1];
        lemma_free_bytes(h, i - 1);
        heap::lemma_packed_start(h, i - 1);
        heap::lemma_block(h, i - 1);
        lemma_word_aligned_body(b, h.base);
        lemma_word_aligned_body(b.at(h.packed_start(i - 1)), h.base);
    }
}

/// A block that asks for no more than word alignment has no padding.
proof fn lemma_word_aligned_body(b: Block, base: int)
    requires
        base % (WORD as int) == 0,
        b.off % (WORD as int) == 0,
        power2::is_pow2(b.align),
        b.align <= WORD,
    ensures
        b.address(base) == b.raw(base),
        b.body(base) == rounding::round_up(b.size, WORD as int),
{
    let w = WORD as int;
    let raw = b.raw(base);
    block::lemma_word();
    rounding::lemma_multiples(base, b.off, w);
    rounding::lemma_multiples(base + b.off, HEADER as int, w);
    assert(raw % b.align == 0) by {
        reveal_with_fuel(power2::is_pow2, 5);
        assert(w == 4 || w == 8);
        assert(b.align == 1 || b.align == 2 || b.align == 4 || b.align == w);
        assert(raw % 4 == 0) by {
            if w == 8 {
                assert(raw % 8 == 0);
            }
        }
        assert(raw % 2 == 0 && raw % 1 == 0);
    }
    heap::lemma_align_positive(b.align);
    rounding::lemma_round_up_unique(raw, b.align, raw);
}

// ---- live blocks and their addresses ----
/// Every live block can be named by the address of its user bytes, whatever lies before it.
pub proof fn every_live_block_is_found(h: Heap, i: int)
    requires
        h.wf(),
        0 <= i < h.blocks.len(),
    ensures
        h.find(h.blocks[i].address(h.base)) == Some(i),
{
    heap::lemma_find(h, i, h.blocks[i].address(h.base));
}

/// An address names a block only where the user bytes of that block start.
pub proof fn only_live_blocks_are_found(h: Heap, ptr: int, i: int)
    ensures
        h.find(ptr) == Some(i) ==> 0 <= i < h.blocks.len() && h.blocks[i].address(h.base) == ptr,
        h.find(ptr) is None && 0 <= i < h.blocks.len() ==> h.blocks[i].address(h.base) != ptr,
{
    if exists|j: int| h.is_at(j, ptr) {
        let j = choose|j: int| h.is_at(j, ptr);
        assert(h.is_at(j, ptr));
    } else {
        assert(!h.is_at(i, ptr));
    }
}

/// The address of a freed block names no block, so it cannot be freed twice.
pub proof fn freed_address_is_not_found(h: Heap, i: int)
    requires
        h.wf(),
        0 <= i < h.blocks.len(),
    ensures
        (Heap { blocks: h.blocks.remove(i), ..h }).find(h.blocks[i].address(h.base)) is None,
{
    let after = Heap { blocks: h.blocks.remove(i), ..h };
    let ptr = h.blocks[i].address(h.base);
    assert forall|j: int| !after.is_at(j, ptr) by {
        if 0 <= j < i {
            heap::lemma_apart(h, j, i);
        } else if i <= j < after.blocks.len() {
            heap::lemma_apart(h, i, j + 1);
        }
    }
}

// ---- where a request goes ----
/// A request fails only where there is no room for it: wherever on a word boundary inside the
/// buffer its block would lie, it would overlap a live block.
pub proof fn request_fails_only_without_room(h: Heap, size: int, align: int, off: int)
    requires
        h.wf(),
        0 <= size,
        power2::is_pow2(align),
        h.placement(size, align) is None,
        0 <= off,
        off % (WORD as int) == 0,
        (Block { off, size, align }).end(h.base) <= h.memory.len(),
    ensures
        exists|i: int|
            {
                &&& 0 <= i < h.blocks.len()
                &&& off < (#[trigger] h.blocks[i]).end(h.base)
                &&& h.blocks[i].off < (Block { off, size, align }).end(h.base)
            },
{
    let b = Block { off, size, align };
    if forall|i: int|
        0 <= i < h.blocks.len() ==> (#[trigger] h.blocks[i]).end(h.base) <= off || b.end(h.base)
            <= h.blocks[i].off {
        let k = gap_around(h, b, 0);
        heap::lemma_align_positive(align);
        block::lemma_extent(b, h.base);
        heap::lemma_gap(h, k);
        block::lemma_moved_left(b, h.base, h.gap_start(k));
        assert(h.candidate(k, size, align) == b.at(h.gap_start(k)));
        assert(h.fits(k, size, align));
    }
}

/// The gap, from gap `k` on, in which a block lies that overlaps no live block.
proof fn gap_around(h: Heap, b: Block, k: int) -> (g: int)
    requires
        0 <= k <= h.blocks.len(),
        0 <= b.off,
        b.end(h.base) <= h.length(),
        h.gap_start(k) <= b.off,
        forall|i: int|
            0 <= i < h.blocks.len() ==> (#[trigger] h.blocks[i]).end(h.base) <= b.off || b.end(
                h.base,
            ) <= h.blocks[i].off,
    ensures
        0 <= g <= h.blocks.len(),
        h.gap_start(g) <= b.off,
        b.end(h.base) <= h.gap_end(g),
    decreases h.blocks.len() - k,
{
    if k == h.blocks.len() || b.end(h.base) <= h.blocks[k].off {
        k
    } else {
        gap_around(h, b, k + 1)
    }
}

/// A request is placed where it overlaps nothing: at the start of the buffer or right behind a
/// live block, inside the buffer, before the next live block. It becomes a block of the size and
/// alignment that were asked for, and the other blocks stay as they are.
pub proof fn placed_block_takes_free_bytes(h: Heap, size: int, align: int, j: int)
    requires
        h.wf(),
        0 <= size,
        power2::is_pow2(align),
        h.placement(size, align) is Some,
    ensures
        ({
            let k = h.placement(size, align)->0;
            let after = h.placed(k, size, align);
            &&& 0 <= k <= h.blocks.len()
            &&& after.len() == h.blocks.len() + 1
            &&& after[k] == h.candidate(k, size, align)
            &&& after[k].off == if k == 0 {
                0
            } else {
                h.blocks[k - 1].end(h.base)
            }
            &&& after[k].size == size
            &&& after[k].align == align
            &&& after[k].end(h.base) <= h.memory.len()
            &&& 0 <= j < k ==> after[j] == h.blocks[j] && h.blocks[j].end(h.base) <= after[k].off
            &&& k <= j < h.blocks.len() ==> after[j + 1] == h.blocks[j] && after[k].end(h.base)
                <= h.blocks[j].off
        }),
{
    placement_is_best_fit(h, size, align);
    let k = h.placement(size, align)->0;
    heap::lemma_gap(h, k);
    if 0 <= j < k - 1 {
        heap::lemma_block(h, k - 1);
        assert(h.blocks[j].end(h.base) <= h.blocks[k - 1].off);
    }
    if k < j < h.blocks.len() {
        heap::lemma_block(h, k);
        assert(h.blocks[k].end(h.base) <= h.blocks[j].off);
    }
}

/// Best fit, in bytes: of all gaps that have room for a request, the one where it is placed is left
/// with the fewest bytes, and with fewer than every such gap before it.
pub proof fn chosen_gap_leaves_the_fewest_bytes(h: Heap, size: int, align: int, j: int)
    requires
        h.placement(size, align) is Some,
        0 <= j <= h.blocks.len(),
    ensures
        ({
            let k = h.placement(size, align)->0;
            let start = |g: int|
                if g == 0 {
                    0
                } else {
                    h.blocks[g - 1].end(h.base)
                };
            let stop = |g: int|
                if g == h.blocks.len() {
                    h.memory.len() as int
                } else {
                    h.blocks[g].off
                };
            let left = |g: int| stop(g) - (Block { off: start(g), size, align }).end(h.base);
            &&& 0 <= k <= h.blocks.len()
            &&& 0 <= left(k)
            &&& 0 <= left(j) ==> left(k) <= left(j)
            &&& 0 <= left(j) && j < k ==> left(k) < left(j)
        }),
{
    placement_is_best_fit(h, size, align);
    let k = h.placement(size, align)->0;
    assert(h.fits(k, size, align));
    if h.candidate(j, size, align).end(h.base) <= h.gap_end(j) {
        assert(h.fits(j, size, align));
    }
}

/// A request is placed as soon as one gap has room for it.
pub proof fn one_gap_with_room_is_enough(h: Heap, size: int, align: int, j: int)
    requires
        0 <= j <= h.blocks.len(),
        (Block {
            off: if j == 0 {
                0
            } else {
                h.blocks[j - 1].end(h.base)
            },
            size,
            align,
        }).end(h.base) <= if j == h.blocks.len() {
            h.memory.len() as int
        } else {
            h.blocks[j].off
        },
    ensures
        h.placement(size, align) is Some,
{
    assert(h.fits(j, size, align));
}

// ---- resizing and relocating ----
/// A live block takes a new size where it is exactly when it then ends before the next block, or
/// before the end of the buffer where it is the last one.
pub proof fn room_behind_a_block_is_enough_to_grow(h: Heap, i: int, size: int)
    requires
        0 <= i < h.blocks.len(),
    ensures
        h.resizes(i, size) <==> (Block {
            off: h.blocks[i].off,
            size,
            align: h.blocks[i].align,
        }).end(h.base) <= if i + 1 < h.blocks.len() {
            h.blocks[i + 1].off
        } else {
            h.memory.len() as int
        },
{
}

/// A block that is resized where it is keeps its address and its alignment, has the new size, and
/// no other block changes.
pub proof fn resized_block_keeps_its_address(h: Heap, i: int, size: int, j: int)
    requires
        0 <= i < h.blocks.len(),
        0 <= j < h.blocks.len(),
    ensures
        h.resized(i, size).len() == h.blocks.len(),
        h.resized(i, size)[i].off == h.blocks[i].off,
        h.resized(i, size)[i].size == size,
        h.resized(i, size)[i].align == h.blocks[i].align,
        h.resized(i, size)[i].address(h.base) == h.blocks[i].address(h.base),
        j != i ==> h.resized(i, size)[j] == h.blocks[j],
{
}

/// A relocation puts one block in the place of another: without the two, the blocks before and
/// after are the same, in the same order.
pub proof fn relocation_replaces_one_block(h: Heap, i: int, k: int, size: int, align: int)
    requires
        0 <= i < h.blocks.len(),
        0 <= k <= h.blocks.len(),
    ensures
        ({
            let after = h.relocated(i, k, size, align);
            let x = if i < k {
                k - 1
            } else {
                k
            };
            &&& after.len() == h.blocks.len()
            &&& after[x].off == if k == 0 {
                0
            } else {
                h.blocks[k - 1].end(h.base)
            }
            &&& after[x].size == size
            &&& after[x].align == align
            &&& after.remove(x) == h.blocks.remove(i)
        }),
{
    let after = h.relocated(i, k, size, align);
    let x = if i < k {
        k - 1
    } else {
        k
    };
    assert(after.remove(x) =~= h.blocks.remove(i));
}

/// After a relocation the new address names a block of the new size, the old address names none,
/// and every byte that was to be carried over is at the new address what it was at the old one.
pub proof fn relocated_bytes_arrive(
    pre: Heap,
    post: Heap,
    i: int,
    k: int,
    size: int,
    align: int,
    n: int,
    t: int,
)
    requires
        pre.wf(),
        0 <= i < pre.blocks.len(),
        0 <= n <= size,
        n <= pre.blocks[i].size,
        power2::is_pow2(align),
        align <= usize::MAX,
        pre.placement(size, align) == Some(k),
        post.blocks == pre.relocated(i, k, size, align),
        post.bytes_moved(
            pre,
            pre.placed(k, size, align),
            pre.blocks[i].address(pre.base),
            pre.candidate(k, size, align).address(pre.base),
            n,
        ),
    ensures
        ({
            let from = pre.blocks[i].address(pre.base);
            let to = pre.candidate(k, size, align).address(pre.base);
            let x = if i < k {
                k - 1
            } else {
                k
            };
            &&& post.base == pre.base
            &&& post.memory.len() == pre.memory.len()
            &&& post.find(to) == Some(x)
            &&& post.blocks[x].size == size
            &&& post.blocks[x].align == align
            &&& post.find(from) is None
            &&& 0 <= t < n ==> post.memory[to - pre.base + t] == pre.memory[from - pre.base + t]
        }),
{
    placement_is_best_fit(pre, size, align);
    let c = pre.candidate(k, size, align);
    let from = pre.blocks[i].address(pre.base);
    let to = c.address(pre.base);
    let mid = Heap { blocks: pre.placed(k, size, align), ..pre };
    let s = Heap::shifted(i, k);
    let x = if i < k {
        k - 1
    } else {
        k
    };
    heap::lemma_place(pre, k, size, align);
    assert(mid.blocks[k] == c);
    assert(mid.blocks[s] == pre.blocks[i]);
    heap::lemma_block(mid, k);
    heap::lemma_block(mid, s);
    heap::lemma_free(mid, s);
    heap::lemma_same_shape(Heap { blocks: post.blocks, ..pre }, post);
    assert(post.blocks[x] == c);
    every_live_block_is_found(post, x);
    freed_address_is_not_found(mid, s);
    assert forall|j: int| !post.is_at(j, from) by {
        let freed = Heap { blocks: mid.blocks.remove(s), ..mid };
        only_live_blocks_are_found(freed, from, j);
    }
    if 0 <= t < n {
        assert(post.bytes_at(to, n)[t] == pre.bytes_at(from, n)[t]);
    }
}

/// A relocation leaves every user byte of every other block what it was, at its address.
pub proof fn relocation_keeps_every_other_byte(
    pre: Heap,
    post: Heap,
    i: int,
    k: int,
    size: int,
    align: int,
    n: int,
    j: int,
    t: int,
)
    requires
        pre.wf(),
        0 <= i < pre.blocks.len(),
        0 <= j < pre.blocks.len(),
        i != j,
        0 <= n <= size,
        power2::is_pow2(align),
        align <= usize::MAX,
        pre.placement(size, align) == Some(k),
        post.blocks == pre.relocated(i, k, size, align),
        post.bytes_moved(
            pre,
            pre.placed(k, size, align),
            pre.blocks[i].address(pre.base),
            pre.candidate(k, size, align).address(pre.base),
            n,
        ),
        0 <= t < pre.blocks[j].size,
    ensures
        post.blocks.contains(pre.blocks[j]),
        ({
            let p = pre.blocks[j].address(pre.base) - pre.base + t;
            0 <= p < post.memory.len() && post.memory[p] == pre.memory[p]
        }),
{
    placement_is_best_fit(pre, size, align);
    relocation_keeps_other_blocks(pre, post, i, k, size, align, n, j);
    let s = Heap::shifted(j, k);
    let x = if s < Heap::shifted(i, k) {
        s
    } else {
        s - 1
    };
    assert(post.blocks[x] == pre.blocks[j]);
    heap::lemma_block(pre, j);
    assert(post.content(x)[t] == pre.content(j)[t]);
}

/// An operation that writes nothing but headers leaves every user byte of every block that is live
/// afterwards what it was.
pub proof fn header_writes_keep_every_user_byte(pre: Heap, post: Heap, j: int, t: int)
    requires
        post.wf(),
        post.only_headers_written(pre),
        0 <= j < post.blocks.len(),
        0 <= t < post.blocks[j].size,
    ensures
        ({
            let p = post.blocks[j].address(post.base) - post.base + t;
            0 <= p < post.memory.len() && post.memory[p] == pre.memory[p]
        }),
{
    heap::lemma_block(post, j);
    heap::lemma_user_byte_outside_headers(post, j, post.address(j) - post.base + t);
}

// ---- what compaction does to the blocks and reports of it ----
/// Compaction puts the first block at the start of the buffer and every other one right behind the
/// block before it.
pub proof fn compaction_packs_to_the_left(h: Heap, i: int)
    requires
        0 <= i < h.blocks.len(),
    ensures
        h.packed().len() == h.blocks.len(),
        h.packed()[i].off == if i == 0 {
            0
        } else {
            h.packed()[i - 1].end(h.base)
        },
        h.packed()[i].size == h.blocks[i].size,
        h.packed()[i].align == h.blocks[i].align,
{
    reveal_with_fuel(Heap::packed_start, 2);
}

/// Moves are reported by position, each once: both addresses rise from one move to the next, and no
/// address rises by a move. So no move ends where a later one begins.
pub proof fn moves_come_by_position(h: Heap, x: int, y: int)
    requires
        h.wf(),
        0 <= x < h.moves().len(),
        0 <= y < h.moves().len(),
    ensures
        h.moves()[x].1 <= h.moves()[x].0,
        x < y ==> h.moves()[x].0 < h.moves()[y].0,
        x < y ==> h.moves()[x].1 < h.moves()[y].1,
        x < y ==> h.moves()[x].1 != h.moves()[y].0,
{
    let n = h.blocks.len() as int;
    lemma_move_below(h, n, x);
    lemma_move_below(h, n, y);
    if x < y {
        lemma_moves_rise(h, n, x, y);
    }
}

/// A move among those of the first `n` blocks is that of one of them, and does not go right.
proof fn lemma_move_below(h: Heap, n: int, x: int) -> (i: int)
    requires
        h.wf(),
        0 <= n <= h.blocks.len(),
        0 <= x < h.moves_to(n).len(),
    ensures
        0 <= i < n,
        h.moves_to(n)[x] == (h.address(i), h.packed()[i].address(h.base)),
        h.moves_to(n)[x].1 <= h.moves_to(n)[x].0,
    decreases n,
{
    if h.moves_to(n).len() > h.moves_to(n - 1).len() && x == h.moves_to(n).len() - 1 {
        compaction_never_moves_right(h, n - 1);
        n - 1
    } else {
        lemma_move_below(h, n - 1, x)
    }
}

/// Both addresses rise from one move to the next.
proof fn lemma_moves_rise(h: Heap, n: int, x: int, y: int)
    requires
        h.wf(),
        0 <= n <= h.blocks.len(),
        0 <= x < y < h.moves_to(n).len(),
    ensures
        h.moves_to(n)[x].0 < h.moves_to(n)[y].0,
        h.moves_to(n)[x].1 < h.moves_to(n)[y].1,
    decreases n,
{
    let packed = Heap { blocks: h.packed(), ..h };
    if h.moves_to(n).len() > h.moves_to(n - 1).len() && y == h.moves_to(n).len() - 1 {
        let i = lemma_move_below(h, n - 1, x);
        heap::lemma_apart(h, i, n - 1);
        lemma_packed_to_wf(h, h.blocks.len() as int);
        heap::lemma_apart(packed, i, n - 1);
    } else {
        lemma_moves_rise(h, n - 1, x, y);
    }
}

/// Where `ptr` leads when the moves are applied to it one after the other.
pub open spec fn followed(moves: Seq<(int, int)>, ptr: int) -> int
    decreases moves.len(),
{
    if moves.len() == 0 {
        ptr
    } else {
        let q = followed(moves.drop_last(), ptr);
        if q == moves.last().0 {
            moves.last().1
        } else {
            q
        }
    }
}

/// A caller that applies the reported moves to a pointer, in the order in which they are reported,
/// has the address of the same block after the compaction.
pub proof fn pointers_follow_the_moves(h: Heap, i: int)
    requires
        h.wf(),
        0 <= i < h.blocks.len(),
    ensures
        followed(h.moves(), h.blocks[i].address(h.base)) == h.packed()[i].address(h.base),
        (Heap { blocks: h.packed(), ..h }).find(
            followed(h.moves(), h.blocks[i].address(h.base)),
        ) == Some(i),
{
    lemma_followed(h, h.blocks.len() as int, i);
    lemma_packed_to_wf(h, h.blocks.len() as int);
    every_live_block_is_found(Heap { blocks: h.packed(), ..h }, i);
}

/// The moves of the first `n` blocks lead to the new addresses of these blocks, and to no other.
proof fn lemma_followed(h: Heap, n: int, i: int)
    requires
        h.wf(),
        0 <= n <= h.blocks.len(),
        0 <= i < h.blocks.len(),
    ensures
        followed(h.moves_to(n), h.address(i)) == if i < n {
            h.packed()[i].address(h.base)
        } else {
            h.address(i)
        },
    decreases n,
{
    if n > 0 {
        let m = n - 1;
        lemma_followed(h, m, i);
        compaction_never_moves_right(h, i);
        if i < m {
            heap::lemma_apart(h, i, m);
        } else if m < i {
            heap::lemma_apart(h, m, i);
        }
        heap::lemma_packed_start(h, m);
        heap::lemma_gap(h, m);
        if h.packed_start(m) < h.blocks[m].off {
            assert(h.moves_to(n).drop_last() =~= h.moves_to(m));
        } else {
            assert(h.packed()[m] == h.blocks[m]);
        }
    }
}

} // verus!
