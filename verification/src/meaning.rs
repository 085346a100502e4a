//! What the terms of the contracts mean: each law here ties one to offsets, sizes, alignments and
//! bytes.

use crate::allocator;
use crate::allocator::Relocation;
use crate::block;
use crate::block::{Block, HEADER, NONE, WORD};
use crate::heap;
use crate::heap::Heap;
use crate::layout::Layout;
use crate::memory;
use crate::rounding;
use vstd::arithmetic::div_mod;
use vstd::arithmetic::power;
use vstd::arithmetic::power2;
use vstd::prelude::*;

verus! {

/// A word has the bits of a `usize`, a header takes three words, and the end mark is no offset.
pub proof fn words_and_headers()
    ensures
        8 * WORD == usize::BITS,
        HEADER == 3 * WORD,
        NONE == usize::MAX,
{
}

/// Rounding up gives the least multiple that is not below the value.
pub proof fn rounding_gives_the_least_multiple(v: int, align: int, m: int)
    requires
        0 < align,
    ensures
        rounding::round_up(v, align) % align == 0,
        v <= rounding::round_up(v, align),
        m % align == 0 && v <= m ==> rounding::round_up(v, align) <= m,
{
    rounding::lemma_round_up(v, align);
    if m % align == 0 && v <= m {
        rounding::lemma_round_up_least(v, align, m);
    }
}

/// The user address of a block is the first multiple of the alignment behind its header.
pub proof fn user_address_is_the_first_aligned_one(b: Block, base: int, x: int)
    requires
        0 < b.align,
    ensures
        b.address(base) % b.align == 0,
        base + b.off + 3 * WORD <= b.address(base),
        x % b.align == 0 && base + b.off + 3 * WORD <= x ==> b.address(base) <= x,
{
    rounding_gives_the_least_multiple(b.raw(base), b.align, x);
}

/// Behind its header a block takes its padding and its user bytes, rounded up to whole words, and
/// no more.
pub proof fn block_takes_whole_words(b: Block, base: int, n: int)
    ensures
        b.end(base) == b.off + 3 * WORD + b.body(base),
        b.body(base) % (WORD as int) == 0,
        b.size + (b.address(base) - (base + b.off + 3 * WORD)) <= b.body(base),
        n % (WORD as int) == 0 && b.size + (b.address(base) - (base + b.off + 3 * WORD)) <= n
            ==> b.body(base) <= n,
{
    rounding_gives_the_least_multiple(
        b.size + (b.address(base) - b.raw(base)),
        WORD as int,
        n,
    );
}

/// In a word-aligned buffer a block on a word boundary ends at the first word boundary behind its
/// user bytes.
pub proof fn block_ends_at_the_first_boundary(b: Block, base: int, e: int)
    requires
        0 < b.align,
        base % (WORD as int) == 0,
        b.off % (WORD as int) == 0,
    ensures
        b.end(base) % (WORD as int) == 0,
        b.address(base) + b.size <= base + b.end(base),
        e % (WORD as int) == 0 && b.address(base) + b.size <= base + e ==> b.end(base) <= e,
{
    block::lemma_end(b, base);
    if e % (WORD as int) == 0 {
        rounding::lemma_multiples(base, e, WORD as int);
    }
    rounding_gives_the_least_multiple(b.address(base) + b.size, WORD as int, base + e);
}

/// A moved block is the same request at another offset.
pub proof fn moved_block_is_the_same_request(b: Block, off: int)
    ensures
        b.at(off).off == off,
        b.at(off).size == b.size,
        b.at(off).align == b.align,
{
}

/// A layout is valid exactly when its alignment is a power of two.
pub proof fn layout_is_valid_by_its_alignment(layout: Layout)
    ensures
        layout.wf() <==> power2::is_pow2(layout.align as int),
{
}

/// A fresh heap has no block. Its region is the part of the buffer behind the first word boundary,
/// byte for byte; where the buffer has no word boundary, the region is empty.
pub proof fn fresh_heap_is_the_rest_of_the_buffer(address: int, data: Seq<u8>, boundary: int, p: int)
    requires
        0 <= address,
        address + data.len() <= usize::MAX,
    ensures
        ({
            let h = Heap::fresh(address, data);
            &&& h.blocks.len() == 0
            &&& address <= boundary <= address + data.len() && boundary % (WORD as int) == 0 ==> {
                &&& h.base % (WORD as int) == 0
                &&& address <= h.base <= boundary
                &&& h.base + h.memory.len() == address + data.len()
            }
            &&& (forall|b: int|
                address <= b <= address + data.len() ==> #[trigger] (b % (WORD as int)) != 0)
                ==> h.memory.len() == 0 && h.base == address
            &&& 0 <= p < h.memory.len() ==> h.memory[p] == data[p + (h.base - address)]
        }),
{
    let w = WORD as int;
    let first = rounding::round_up(address, w);
    rounding_gives_the_least_multiple(address, w, boundary);
    assert(first % w == 0);
}

/// The length of a heap is that of its memory. Gap `k` reaches from the end of block `k - 1`, or
/// the start of the buffer, to the start of block `k`, or the end of the buffer.
pub proof fn gaps_lie_between_the_blocks(h: Heap, k: int)
    requires
        0 <= k <= h.blocks.len(),
    ensures
        h.length() == h.memory.len(),
        h.gap_start(k) == if k == 0 {
            0
        } else {
            h.blocks[k - 1].end(h.base)
        },
        h.gap_end(k) == if k == h.blocks.len() {
            h.memory.len() as int
        } else {
            h.blocks[k].off
        },
{
}

/// A request at the start of gap `k` fits exactly when it ends before the gap does, and its waste
/// is what is then left of the gap, in bytes.
pub proof fn request_fits_when_it_ends_inside_the_gap(h: Heap, k: int, size: int, align: int)
    requires
        0 <= k <= h.blocks.len(),
    ensures
        ({
            let start = if k == 0 {
                0
            } else {
                h.blocks[k - 1].end(h.base)
            };
            let stop = if k == h.blocks.len() {
                h.memory.len() as int
            } else {
                h.blocks[k].off
            };
            let b = Block { off: start, size, align };
            &&& h.candidate(k, size, align) == b
            &&& h.fits(k, size, align) <==> b.end(h.base) <= stop
            &&& h.waste(k, size, align) == stop - b.end(h.base)
        }),
{
}

/// The content of a block is its `size` bytes from its user address on.
pub proof fn content_is_the_user_bytes(h: Heap, i: int, t: int)
    requires
        h.wf(),
        0 <= i < h.blocks.len(),
        0 <= t < h.blocks[i].size,
    ensures
        h.address(i) == h.blocks[i].address(h.base),
        h.content(i).len() == h.blocks[i].size,
        0 <= h.blocks[i].address(h.base) - h.base + t < h.memory.len(),
        h.content(i)[t] == h.memory[h.blocks[i].address(h.base) - h.base + t],
{
    heap::lemma_block(h, i);
}

/// A user byte is a byte between the user address of a block and its size beyond that: each of
/// them, and no other.
pub proof fn user_bytes_are_those_of_the_blocks(h: Heap, addr: int)
    ensures
        h.is_user_byte(addr) <==> exists|i: int|
            #![trigger h.blocks[i]]
            0 <= i < h.blocks.len() && h.blocks[i].address(h.base) <= addr < h.blocks[i].address(
                h.base,
            ) + h.blocks[i].size,
        forall|i: int|
            0 <= i < h.blocks.len() ==> (#[trigger] h.covers(i, addr) <==> h.blocks[i].address(
                h.base,
            ) <= addr < h.blocks[i].address(h.base) + h.blocks[i].size),
{
    if exists|i: int|
        #![trigger h.blocks[i]]
        0 <= i < h.blocks.len() && h.blocks[i].address(h.base) <= addr < h.blocks[i].address(
            h.base,
        ) + h.blocks[i].size {
        let i = choose|i: int|
            #![trigger h.blocks[i]]
            0 <= i < h.blocks.len() && h.blocks[i].address(h.base) <= addr < h.blocks[i].address(
                h.base,
            ) + h.blocks[i].size;
        assert(h.covers(i, addr));
    }
}

/// Writing nothing but headers leaves the base, the length and every byte as it was that lies in
/// none of the three-word headers.
pub proof fn bytes_outside_headers_are_kept(pre: Heap, post: Heap, p: int)
    requires
        post.only_headers_written(pre),
        0 <= p < post.memory.len(),
        forall|i: int|
            0 <= i < post.blocks.len() ==> !((#[trigger] post.blocks[i]).off <= p
                < post.blocks[i].off + 3 * WORD),
    ensures
        post.base == pre.base,
        post.memory.len() == pre.memory.len(),
        post.memory[p] == pre.memory[p],
{
    assert(post.outside_headers(p));
}

/// Moving bytes gives each of the `n` bytes at the new address the value that it had at the old
/// one, and leaves every other byte as it was that lies in none of the headers.
pub proof fn moved_bytes_arrive(
    pre: Heap,
    post: Heap,
    blocks: Seq<Block>,
    from: int,
    to: int,
    n: int,
    t: int,
    p: int,
)
    requires
        post.bytes_moved(pre, blocks, from, to, n),
        pre.base <= from,
        from + n <= pre.base + pre.memory.len(),
        pre.base <= to,
        to + n <= pre.base + pre.memory.len(),
    ensures
        post.base == pre.base,
        post.memory.len() == pre.memory.len(),
        0 <= t < n ==> post.memory[to - pre.base + t] == pre.memory[from - pre.base + t],
        0 <= p < post.memory.len() && !(to <= pre.base + p < to + n) && (forall|i: int|
            0 <= i < blocks.len() ==> !((#[trigger] blocks[i]).off <= p < blocks[i].off + 3
                * WORD)) ==> post.memory[p] == pre.memory[p],
{
    if 0 <= t < n {
        assert(post.bytes_at(to, n)[t] == pre.bytes_at(from, n)[t]);
    }
    if 0 <= p < post.memory.len() && !(to <= pre.base + p < to + n) && (forall|i: int|
        0 <= i < blocks.len() ==> !((#[trigger] blocks[i]).off <= p < blocks[i].off + 3 * WORD)) {
        assert((Heap { blocks, ..pre }).outside_headers(p));
    }
}

/// Sliding block `i` writes the user bytes of the block, its header and the header before it, and
/// no other byte.
pub proof fn bytes_outside_the_slid_block_are_kept(pre: Heap, post: Heap, i: int, p: int)
    requires
        post.only_block_written(pre, i),
        0 <= i < post.blocks.len(),
        0 <= p < post.memory.len(),
        !(post.blocks[i].off <= p < post.blocks[i].off + 3 * WORD),
        i > 0 ==> !(post.blocks[i - 1].off <= p < post.blocks[i - 1].off + 3 * WORD),
        !(post.blocks[i].address(post.base) <= post.base + p < post.blocks[i].address(post.base)
            + post.blocks[i].size),
    ensures
        post.base == pre.base,
        post.memory.len() == pre.memory.len(),
        post.memory[p] == pre.memory[p],
{
}

/// Writing nothing but blocks leaves every byte as it was that lies in no header and belongs to no
/// user.
pub proof fn free_bytes_are_kept(pre: Heap, post: Heap, p: int)
    requires
        post.only_blocks_written(pre),
        0 <= p < post.memory.len(),
        forall|i: int|
            0 <= i < post.blocks.len() ==> {
                &&& !((#[trigger] post.blocks[i]).off <= p < post.blocks[i].off + 3 * WORD)
                &&& !(post.blocks[i].address(post.base) <= post.base + p
                    < post.blocks[i].address(post.base) + post.blocks[i].size)
            },
    ensures
        post.base == pre.base,
        post.memory.len() == pre.memory.len(),
        post.memory[p] == pre.memory[p],
{
    assert(post.outside_headers(p));
    user_bytes_are_those_of_the_blocks(post, post.base + p);
}

/// The pairs of a list of moves are its addresses, in its order.
pub proof fn pairs_are_the_addresses(moves: Seq<Relocation>, x: int)
    ensures
        allocator::pairs(moves).len() == moves.len(),
        0 <= x < moves.len() ==> allocator::pairs(moves)[x] == (
            moves[x].old as int,
            moves[x].new as int,
        ),
{
}

/// Copying changes the `n` bytes at `to` and no other.
pub proof fn copying_changes_only_its_target(m: Seq<u8>, from: int, to: int, n: int, p: int)
    requires
        0 <= from,
        from + n <= m.len(),
        0 <= to,
        to + n <= m.len(),
    ensures
        memory::copied(m, from, to, n).len() == m.len(),
        0 <= p < n ==> memory::copied(m, from, to, n)[to + p] == m[from + p],
        0 <= p < m.len() && (p < to || to + n <= p) ==> memory::copied(m, from, to, n)[p] == m[p],
{
}

/// Memories with the same bytes in a range agree on each byte of it.
pub proof fn same_bytes_agree(m1: Seq<u8>, m2: Seq<u8>, lo: int, hi: int, p: int)
    ensures
        memory::same_bytes(m1, m2, lo, hi) && lo <= p < hi ==> m1[p] == m2[p],
{
}

/// A word is stored lowest byte first: byte `i` of it counts 256 to the power `i`.
pub proof fn words_are_stored_lowest_byte_first(m: Seq<u8>, off: int, i: nat)
    requires
        0 <= off,
        off + WORD <= m.len(),
        i < WORD,
    ensures
        0 <= memory::word_at(m, off) <= usize::MAX,
        (memory::word_at(m, off) / power::pow(256, i)) % 256 == m[off + i],
{
    let s = m.subrange(off, off + WORD);
    lemma_byte_of_value(s, i);
    memory::lemma_word_at_fits(m, off);
}

/// Byte `i` of the number that `s` spells is `s[i]`.
proof fn lemma_byte_of_value(s: Seq<u8>, i: nat)
    requires
        i < s.len(),
    ensures
        (memory::le_value(s) / power::pow(256, i)) % 256 == s[i as int],
    decreases i,
{
    let rest = s.drop_first();
    let v = memory::le_value(s);
    assert(v == s[0] + 256 * memory::le_value(rest));
    memory::lemma_le_value_nonnegative(s);
    if i == 0 {
        power::lemma_pow0(256);
    } else {
        let j = (i - 1) as nat;
        lemma_byte_of_value(rest, j);
        power::lemma_pow_positive(256, j);
        power::lemma_pow_adds(256, 1, j);
        power::lemma_pow1(256);
        div_mod::lemma_div_denominator(v, 256, power::pow(256, j));
        assert(v / 256 == memory::le_value(rest));
    }
}

/// A header is the three words at its offset: size, alignment and link.
pub proof fn headers_are_three_words(m: Seq<u8>, off: int)
    requires
        0 <= off,
        off + 3 * WORD <= m.len(),
    ensures
        memory::header_at(m, off).size == memory::word_at(m, off),
        memory::header_at(m, off).align == memory::word_at(m, off + WORD),
        memory::header_at(m, off).next == memory::word_at(m, off + 2 * WORD),
{
    reveal(memory::header_at);
    memory::lemma_word_at_fits(m, off);
    memory::lemma_word_at_fits(m, off + WORD);
    memory::lemma_word_at_fits(m, off + 2 * WORD);
}

} // verus!
