//! Blocks: the extent that an allocation occupies, and the arithmetic that computes it.

use crate::rounding;
use vstd::arithmetic::div_mod;
use vstd::arithmetic::power2;
use vstd::prelude::*;

verus! {

/// The end-of-list mark in a `next` link. No block can start there.
pub const NONE: usize = usize::MAX;

/// Bytes in a machine word. Headers, and with them all block offsets, are multiples of it.
pub const WORD: usize = usize::BITS as usize / 8;

/// Bytes that a [`BlockHeader`] takes at the start of its block: three words.
pub const HEADER: usize = 3 * WORD;

/// Inline header stored at the start of each allocated block.
#[derive(Clone, Copy)]
pub struct BlockHeader {
    /// Bytes that the user asked for.
    pub size: usize,
    /// Alignment that the user asked for.
    pub align: usize,
    /// Offset of the next allocated block, or [`NONE`].
    pub next: usize,
}

/// A block, as contracts see it: where its header starts, relative to the base of the buffer,
/// and what was asked for.
pub struct Block {
    pub off: int,
    pub size: int,
    pub align: int,
}

impl Block {
    /// The first address after the header.
    pub open spec fn raw(self, base: int) -> int {
        base + self.off + HEADER
    }

    /// The address that the user holds: the first multiple of `align` after the header.
    pub open spec fn address(self, base: int) -> int {
        rounding::round_up(self.raw(base), self.align)
    }

    /// Bytes that follow the header: alignment padding and user bytes, in whole words.
    pub open spec fn body(self, base: int) -> int {
        rounding::round_up(self.size + (self.address(base) - self.raw(base)), WORD as int)
    }

    /// The offset just behind the block.
    pub open spec fn end(self, base: int) -> int {
        self.off + HEADER + self.body(base)
    }

    /// The same request with its header at `off`.
    pub open spec fn at(self, off: int) -> Block {
        Block { off, ..self }
    }
}

/// `WORD` is positive and small.
pub proof fn lemma_word()
    ensures
        4 <= WORD <= 8,
        HEADER == 3 * WORD,
        HEADER as int % (WORD as int) == 0,
        0int % (WORD as int) == 0,
{
    div_mod::lemma_small_mod(0, WORD as nat);
    div_mod::lemma_mod_multiples_basic(3, WORD as int);
}

/// The user bytes lie between the header and the end of the block, and start at a multiple of
/// the alignment.
pub proof fn lemma_extent(b: Block, base: int)
    requires
        0 < b.align,
        0 <= b.size,
    ensures
        b.address(base) % b.align == 0,
        base + b.off + HEADER <= b.address(base) < base + b.off + HEADER + b.align,
        b.address(base) + b.size <= base + b.end(base),
{
    rounding::lemma_round_up(b.raw(base), b.align);
    rounding::lemma_round_up(b.size + (b.address(base) - b.raw(base)), WORD as int);
}

/// In a word-aligned buffer, a block on a word boundary ends at the first word boundary behind
/// its user bytes.
pub proof fn lemma_end(b: Block, base: int)
    requires
        0 < b.align,
        base % (WORD as int) == 0,
        b.off % (WORD as int) == 0,
    ensures
        base + b.end(base) == rounding::round_up(b.address(base) + b.size, WORD as int),
        b.end(base) % (WORD as int) == 0,
{
    let w = WORD as int;
    let raw = b.raw(base);
    lemma_word();
    rounding::lemma_multiples(base, b.off, w);
    rounding::lemma_multiples(base + b.off, HEADER as int, w);
    rounding::lemma_round_up_shift(b.size + (b.address(base) - raw), raw, w);
    rounding::lemma_round_up(b.address(base) + b.size, w);
    rounding::lemma_multiples(base + b.end(base), base, w);
}

/// Moving a block left, from one word boundary to another, moves neither its user bytes nor its
/// end to the right.
pub proof fn lemma_moved_left(b: Block, base: int, off: int)
    requires
        0 < b.align,
        base % (WORD as int) == 0,
        b.off % (WORD as int) == 0,
        off % (WORD as int) == 0,
        off <= b.off,
    ensures
        b.at(off).address(base) <= b.address(base),
        b.at(off).end(base) <= b.end(base),
{
    let moved = b.at(off);
    rounding::lemma_round_up_monotone(moved.raw(base), b.raw(base), b.align);
    lemma_end(b, base);
    lemma_end(moved, base);
    rounding::lemma_round_up_monotone(
        moved.address(base) + b.size,
        b.address(base) + b.size,
        WORD as int,
    );
}

/// A block of fewer bytes at the same place does not end later.
pub proof fn lemma_smaller(b: Block, base: int, size: int)
    requires
        0 < b.align,
        size <= b.size,
    ensures
        (Block { size, ..b }).end(base) <= b.end(base),
{
    let padding = b.address(base) - b.raw(base);
    rounding::lemma_round_up_monotone(size + padding, b.size + padding, WORD as int);
}

/// `v` rounded up to a multiple of `align`, or `None` when the result does not fit the address
/// space.
#[inline]
pub fn checked_align_up(v: usize, align: usize) -> (r: Option<usize>)
    requires
        power2::is_pow2(align as int),
    ensures
        r is Some <==> rounding::round_up(v as int, align as int) <= usize::MAX,
        r matches Some(aligned) ==> aligned == rounding::round_up(v as int, align as int),
{
    proof {
        rounding::lemma_round_up_fits(v, align);
    }
    let sum: usize = v.checked_add(align - 1)?;
    proof {
        reveal(rounding::round_up);
        rounding::lemma_mask(sum, align);
    }
    Some(sum & !(align - 1))
}

/// `v` rounded up to a multiple of `align`, where the result is known to fit.
#[inline]
pub fn align_up(v: usize, align: usize) -> (aligned: usize)
    requires
        power2::is_pow2(align as int),
        rounding::round_up(v as int, align as int) <= usize::MAX,
    ensures
        aligned == rounding::round_up(v as int, align as int),
{
    proof {
        reveal(rounding::round_up);
        rounding::lemma_round_up_fits(v, align);
        rounding::lemma_mask((v + align - 1) as usize, align);
    }
    (v + (align - 1)) & !(align - 1)
}

/// How many body bytes a block at `off` occupies, given the user's `size` and `align` and the
/// base address of the buffer.
///
/// For blocks that [`checked_body_len`] has vetted, at their own offset or a smaller one.
#[inline]
pub fn body_len(base: usize, off: usize, size: usize, align: usize) -> (body: usize)
    requires
        power2::is_pow2(align as int),
        (Block { off: off as int, size: size as int, align: align as int }).address(base as int)
            <= usize::MAX,
        (Block { off: off as int, size: size as int, align: align as int }).body(base as int)
            <= usize::MAX,
    ensures
        body == (Block { off: off as int, size: size as int, align: align as int }).body(
            base as int,
        ),
        body >= size,
{
    let ghost b = Block { off: off as int, size: size as int, align: align as int };
    proof {
        rounding::lemma_round_up_fits(0, align);
        lemma_extent(b, base as int);
    }
    let raw: usize = base + off + HEADER;
    let aligned: usize = align_up(raw, align);
    let padding: usize = aligned - raw;
    proof {
        lemma_word_is_pow2();
        rounding::lemma_round_up(size + padding, WORD as int);
    }
    align_up(size + padding, WORD)
}

/// [`body_len`] for unvetted requests: `None` when the user address or the body length does not
/// fit the address space, which a fit check must treat as "does not fit".
#[inline]
pub fn checked_body_len(base: usize, off: usize, size: usize, align: usize) -> (r: Option<usize>)
    requires
        power2::is_pow2(align as int),
    ensures
        ({
            let b = Block { off: off as int, size: size as int, align: align as int };
            &&& r is Some <==> b.address(base as int) <= usize::MAX && b.body(base as int)
                <= usize::MAX
            &&& r matches Some(body) ==> body == b.body(base as int)
        }),
{
    let ghost b = Block { off: off as int, size: size as int, align: align as int };
    proof {
        rounding::lemma_round_up_fits(0, align);
        lemma_word_is_pow2();
        lemma_extent(b, base as int);
        rounding::lemma_round_up(
            b.size + (b.address(base as int) - b.raw(base as int)),
            WORD as int,
        );
    }
    let start: usize = base.checked_add(off)?;
    let raw: usize = start.checked_add(HEADER)?;
    let padding: usize = checked_align_up(raw, align)? - raw;
    let bytes: usize = size.checked_add(padding)?;
    checked_align_up(bytes, WORD)
}

/// A word is a power of two.
pub proof fn lemma_word_is_pow2()
    ensures
        power2::is_pow2(WORD as int),
{
    reveal_with_fuel(power2::is_pow2, 4);
}

} // verus!
