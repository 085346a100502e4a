//! What a user asks for.

use vstd::arithmetic::power2;
use vstd::prelude::*;

verus! {

/// A request for `size` bytes at a multiple of `align`, a power of two.
#[derive(Clone, Copy)]
pub struct Layout {
    pub size: usize,
    pub align: usize,
}

impl Layout {
    /// The alignment is a power of two.
    pub open spec fn wf(self) -> bool {
        power2::is_pow2(self.align as int)
    }

    /// A layout, unless `align` is no power of two or `size`, rounded up to a multiple of `align`,
    /// is more than an object can have.
    pub fn from_size_align(size: usize, align: usize) -> (r: Option<Layout>)
        ensures
            r is Some <==> power2::is_pow2(align as int) && size + align - 1 <= isize::MAX,
            r matches Some(layout) ==> layout == (Layout { size, align }) && layout.wf(),
    {
        proof {
            if align > 0 {
                lemma_single_bit(align);
            } else {
                reveal(power2::is_pow2);
            }
        }
        if align == 0 || align & (align - 1) != 0 {
            return None;
        }
        let max: usize = isize::MAX as usize;
        if align - 1 <= max && size <= max - (align - 1) {
            Some(Layout { size, align })
        } else {
            None
        }
    }
}

/// The powers of two are the numbers with a single bit.
proof fn lemma_single_bit(v: usize)
    requires
        0 < v,
    ensures
        v & ((v - 1) as usize) == 0 <==> power2::is_pow2(v as int),
    decreases v,
{
    reveal(power2::is_pow2);
    let less: usize = (v - 1) as usize;
    if v == 1 {
        assert(1usize & 0usize == 0) by (bit_vector);
    } else if v % 2 == 0 {
        let half: usize = v / 2;
        let half_less: usize = (half - 1) as usize;
        lemma_single_bit(half);
        assert(v & less == 0 <==> half & half_less == 0) by (bit_vector)
            requires
                v == 2 * half,
                less == 2 * half_less + 1,
        ;
    } else {
        assert(v & less != 0) by (bit_vector)
            requires
                v % 2 == 1,
                v > 1,
                v == less + 1,
        ;
    }
}

} // verus!
