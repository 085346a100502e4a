//! Words, headers and runs of bytes in the buffer.

use crate::block::{BlockHeader, HEADER, WORD};
use vstd::arithmetic::power;
use vstd::prelude::*;

verus! {

/// The number that `s` spells, lowest byte first.
pub open spec fn le_value(s: Seq<u8>) -> int
    decreases s.len(),
{
    if s.len() == 0 {
        0
    } else {
        s[0] + 256 * le_value(s.drop_first())
    }
}

/// The `n` lowest bytes of `v`, lowest byte first.
pub open spec fn le_bytes(v: int, n: nat) -> Seq<u8>
    decreases n,
{
    if n == 0 {
        Seq::empty()
    } else {
        seq![(v % 256) as u8] + le_bytes(v / 256, (n - 1) as nat)
    }
}

/// The word stored at `off`.
pub open spec fn word_at(m: Seq<u8>, off: int) -> int {
    le_value(m.subrange(off, off + WORD))
}

/// The header stored at `off`: its three words, in the order of its fields.
#[verifier::opaque]
pub open spec fn header_at(m: Seq<u8>, off: int) -> BlockHeader {
    BlockHeader {
        size: word_at(m, off) as usize,
        align: word_at(m, off + WORD) as usize,
        next: word_at(m, off + 2 * WORD) as usize,
    }
}

/// The contents after `n` bytes from `from` were copied to `to`.
pub open spec fn copied(m: Seq<u8>, from: int, to: int, n: int) -> Seq<u8> {
    Seq::new(m.len(), |p: int| if to <= p < to + n { m[from + p - to] } else { m[p] })
}

/// Two memories hold the same bytes in `lo .. hi`.
pub open spec fn same_bytes(m1: Seq<u8>, m2: Seq<u8>, lo: int, hi: int) -> bool {
    forall|p: int| lo <= p < hi ==> #[trigger] m1[p] == m2[p]
}

/// `s.len()` bytes spell a number below `256` to that power.
proof fn lemma_le_value_bound(s: Seq<u8>)
    ensures
        0 <= le_value(s) < power::pow(256, s.len()),
    decreases s.len(),
{
    reveal(power::pow);
    if s.len() > 0 {
        lemma_le_value_bound(s.drop_first());
    }
}

/// The bytes of a number spell it.
proof fn lemma_le_round_trip(v: int, n: nat)
    requires
        0 <= v < power::pow(256, n),
    ensures
        le_bytes(v, n).len() == n,
        le_value(le_bytes(v, n)) == v,
    decreases n,
{
    reveal(power::pow);
    if n > 0 {
        lemma_le_round_trip(v / 256, (n - 1) as nat);
        assert(le_bytes(v, n).drop_first() =~= le_bytes(v / 256, (n - 1) as nat));
    }
}

/// `n` bytes come from [`le_bytes`].
proof fn lemma_le_bytes_len(v: int, n: nat)
    ensures
        le_bytes(v, n).len() == n,
    decreases n,
{
    if n > 0 {
        lemma_le_bytes_len(v / 256, (n - 1) as nat);
    }
}

/// A word spells exactly the numbers that a `usize` holds.
proof fn lemma_word_range()
    ensures
        power::pow(256, WORD as nat) == usize::MAX + 1,
{
    vstd::layout::unsigned_int_max_values();
    assert(vstd::layout::size_of::<usize>() == WORD as nat);
}

/// A number that bytes spell is not negative.
pub proof fn lemma_le_value_nonnegative(s: Seq<u8>)
    ensures
        0 <= le_value(s),
{
    lemma_le_value_bound(s);
}

/// A stored word is a `usize`.
pub proof fn lemma_word_at_fits(m: Seq<u8>, off: int)
    requires
        0 <= off,
        off + WORD <= m.len(),
    ensures
        0 <= word_at(m, off) <= usize::MAX,
{
    lemma_word_range();
    lemma_le_value_bound(m.subrange(off, off + WORD));
}

/// Equal header bytes hold equal headers.
pub proof fn lemma_same_header(m1: Seq<u8>, m2: Seq<u8>, off: int)
    requires
        0 <= off,
        off + HEADER <= m1.len(),
        off + HEADER <= m2.len(),
        same_bytes(m1, m2, off, off + HEADER),
    ensures
        header_at(m1, off) == header_at(m2, off),
{
    reveal(header_at);
    let w = WORD as int;
    assert(m1.subrange(off, off + w) =~= m2.subrange(off, off + w));
    assert(m1.subrange(off + w, off + w + w) =~= m2.subrange(off + w, off + w + w));
    assert(m1.subrange(off + 2 * w, off + 2 * w + w) =~= m2.subrange(
        off + 2 * w,
        off + 2 * w + w,
    ));
}

/// The word at `off`.
pub fn read_word(m: &[u8], off: usize) -> (v: usize)
    requires
        off + WORD <= m@.len(),
    ensures
        v == word_at(m@, off as int),
{
    let mut v: usize = 0;
    let mut i: usize = WORD;
    let ghost stop = off + WORD;
    assert(m@.len() == m.len());
    assert(m@.subrange(stop, stop).len() == 0);
    while i > 0
        invariant
            i <= WORD,
            stop == off + WORD,
            stop <= m@.len() <= usize::MAX,
            v == le_value(m@.subrange(off + i, stop)),
        decreases i,
    {
        i = i - 1;
        let ghost s = m@.subrange(off + i, stop);
        proof {
            lemma_word_range();
            lemma_le_value_bound(s);
            if s.len() < WORD {
                power::lemma_pow_strictly_increases(256, s.len(), WORD as nat);
            }
            assert(s.drop_first() =~= m@.subrange(off + i + 1, stop));
            assert(s[0] == m@[off + i]);
        }
        v = v * 256 + m[off + i] as usize;
    }
    v
}

/// Store `v` as the word at `off`.
pub fn write_word(m: &mut [u8], off: usize, v: usize)
    requires
        off + WORD <= old(m)@.len(),
    ensures
        final(m)@.len() == old(m)@.len(),
        word_at(final(m)@, off as int) == v,
        same_bytes(final(m)@, old(m)@, 0, off as int),
        same_bytes(final(m)@, old(m)@, off + WORD, old(m)@.len() as int),
{
    assert(m@.len() == m.len());
    let mut rest: usize = v;
    let mut i: usize = 0;
    let ghost all = le_bytes(v as int, WORD as nat);
    proof {
        lemma_word_range();
        lemma_le_round_trip(v as int, WORD as nat);
        assert(m@.subrange(off as int, off as int) + all =~= all);
    }
    while i < WORD
        invariant
            i <= WORD,
            off + WORD <= m@.len() <= usize::MAX,
            m@.len() == old(m)@.len(),
            all.len() == WORD,
            m@.subrange(off as int, off + i) + le_bytes(rest as int, (WORD - i) as nat) == all,
            same_bytes(m@, old(m)@, 0, off as int),
            same_bytes(m@, old(m)@, off + WORD, old(m)@.len() as int),
        decreases WORD - i,
    {
        let ghost before = m@;
        let ghost left = (WORD - i) as nat;
        proof {
            lemma_le_bytes_len(rest as int / 256, (left - 1) as nat);
        }
        m[off + i] = (rest % 256) as u8;
        assert(m@.subrange(off as int, off + i + 1) =~= before.subrange(off as int, off + i).push(
            (rest as int % 256) as u8,
        ));
        assert(m@.subrange(off as int, off + i + 1) + le_bytes(
            rest as int / 256,
            (left - 1) as nat,
        ) =~= all);
        rest = rest / 256;
        i = i + 1;
    }
    assert(m@.subrange(off as int, off + WORD) =~= all);
}

/// The header at `off`.
pub fn read_header(m: &[u8], off: usize) -> (h: BlockHeader)
    requires
        off + HEADER <= m@.len(),
    ensures
        h == header_at(m@, off as int),
{
    reveal(header_at);
    assert(m@.len() == m.len());
    let size: usize = read_word(m, off);
    let align: usize = read_word(m, off + WORD);
    let next: usize = read_word(m, off + 2 * WORD);
    BlockHeader { size, align, next }
}

/// Store `h` at `off`. No byte outside the header changes.
pub fn write_header(m: &mut [u8], off: usize, h: BlockHeader)
    requires
        off + HEADER <= old(m)@.len(),
    ensures
        final(m)@.len() == old(m)@.len(),
        header_at(final(m)@, off as int) == h,
        same_bytes(final(m)@, old(m)@, 0, off as int),
        same_bytes(final(m)@, old(m)@, off + HEADER, old(m)@.len() as int),
{
    let ghost w = WORD as int;
    assert(m@.len() == m.len());
    write_word(m, off, h.size);
    let ghost m1 = m@;
    write_word(m, off + WORD, h.align);
    let ghost m2 = m@;
    write_word(m, off + 2 * WORD, h.next);
    proof {
        reveal(header_at);
        assert(m@.subrange(off as int, off + w) =~= m1.subrange(off as int, off + w));
        assert(m@.subrange(off + w, off + w + w) =~= m2.subrange(off + w, off + w + w));
    }
}

/// Copy `n` bytes from `from` to `to`. The runs may overlap when the copy goes left.
pub fn copy_bytes(m: &mut [u8], from: usize, to: usize, n: usize)
    requires
        from + n <= old(m)@.len(),
        to + n <= old(m)@.len(),
        to <= from || from + n <= to,
    ensures
        final(m)@ == copied(old(m)@, from as int, to as int, n as int),
{
    assert(m@.len() == m.len());
    let mut i: usize = 0;
    while i < n
        invariant
            i <= n,
            from + n <= m@.len() <= usize::MAX,
            to + n <= m@.len(),
            to <= from || from + n <= to,
            m@.len() == old(m)@.len(),
            m@ == copied(old(m)@, from as int, to as int, i as int),
        decreases n - i,
    {
        m[to + i] = m[from + i];
        i = i + 1;
        assert(m@ =~= copied(old(m)@, from as int, to as int, i as int));
    }
    assert(m@ =~= copied(old(m)@, from as int, to as int, n as int));
}

} // verus!
