//! Rounding addresses and sizes up to a multiple of an alignment.

use vstd::arithmetic::div_mod;
use vstd::arithmetic::power;
use vstd::arithmetic::power2;
use vstd::prelude::*;

verus! {

/// The smallest multiple of `align` that is not below `v`.
#[verifier::opaque]
pub open spec fn round_up(v: int, align: int) -> int {
    ((v + align - 1) / align) * align
}

/// What [`round_up`] yields: a multiple of `align`, at least `v`, and less than `align` above it.
pub proof fn lemma_round_up(v: int, align: int)
    requires
        0 < align,
    ensures
        round_up(v, align) % align == 0,
        v <= round_up(v, align) < v + align,
{
    reveal(round_up);
    let w = v + align - 1;
    div_mod::lemma_fundamental_div_mod(w, align);
    div_mod::lemma_mod_bound(w, align);
    div_mod::lemma_mod_multiples_basic(w / align, align);
    assert(align * (w / align) == (w / align) * align) by (nonlinear_arith);
}

/// Two multiples of `align` less than `align` apart are equal.
proof fn lemma_close_multiples(a: int, b: int, align: int)
    requires
        0 < align,
        a % align == 0,
        b % align == 0,
        -align < a - b < align,
    ensures
        a == b,
{
    let x = a / align;
    let y = b / align;
    div_mod::lemma_fundamental_div_mod(a, align);
    div_mod::lemma_fundamental_div_mod(b, align);
    assert(x == y) by (nonlinear_arith)
        requires
            0 < align,
            -align < align * x - align * y < align,
    ;
}

/// [`round_up`] is the only multiple of `align` in `v .. v + align`.
pub proof fn lemma_round_up_unique(v: int, align: int, r: int)
    requires
        0 < align,
        r % align == 0,
        v <= r < v + align,
    ensures
        r == round_up(v, align),
{
    lemma_round_up(v, align);
    lemma_close_multiples(r, round_up(v, align), align);
}

/// A multiple of `align` that is at least `v` is at least `round_up(v, align)`.
pub proof fn lemma_round_up_least(v: int, align: int, r: int)
    requires
        0 < align,
        r % align == 0,
        v <= r,
    ensures
        round_up(v, align) <= r,
{
    lemma_round_up(v, align);
    let u = round_up(v, align);
    if r < u {
        lemma_close_multiples(r, u, align);
    }
}

/// Rounding up keeps the order.
pub proof fn lemma_round_up_monotone(v: int, w: int, align: int)
    requires
        0 < align,
        v <= w,
    ensures
        round_up(v, align) <= round_up(w, align),
{
    lemma_round_up(w, align);
    lemma_round_up_least(v, align, round_up(w, align));
}

/// The sum and the difference of two multiples of `align` are multiples of `align`.
pub proof fn lemma_multiples(a: int, b: int, align: int)
    requires
        0 < align,
        a % align == 0,
        b % align == 0,
    ensures
        (a + b) % align == 0,
        (a - b) % align == 0,
{
    div_mod::lemma_small_mod(0, align as nat);
    div_mod::lemma_add_mod_noop(a, b, align);
    div_mod::lemma_sub_mod_noop(a, b, align);
}

/// Rounding up commutes with adding a multiple of `align`.
pub proof fn lemma_round_up_shift(v: int, t: int, align: int)
    requires
        0 < align,
        t % align == 0,
    ensures
        round_up(v + t, align) == round_up(v, align) + t,
{
    lemma_round_up(v, align);
    lemma_multiples(round_up(v, align), t, align);
    lemma_round_up_unique(v + t, align, round_up(v, align) + t);
}

/// A power of two that a `usize` can hold divides the size of the address space.
proof fn lemma_divides_address_space(align: usize)
    requires
        power2::is_pow2(align as int),
    ensures
        0 < align,
        (usize::MAX + 1) % (align as int) == 0,
{
    vstd::layout::unsigned_int_max_values();
    power2::is_pow2_equiv(align as int);
    let i = choose|i: nat| power::pow(2, i) == align as int;
    let bits = usize::BITS as nat;
    power::lemma_pow_positive(2, i);
    power::lemma_pow_positive(2, bits);
    if i >= bits {
        power::lemma_pow_increases(2, bits, i);
    }
    let rest = (bits - i) as nat;
    power::lemma_pow_adds(2, i, rest);
    assert(i + rest == bits);
    assert(usize::MAX + 1 == power::pow(2, rest) * (align as int)) by {
        assert(power::pow(2, i) * power::pow(2, rest) == power::pow(2, rest) * power::pow(2, i))
            by (nonlinear_arith);
    }
    div_mod::lemma_mod_multiples_basic(power::pow(2, rest), align as int);
}

/// Adding `align - 1` leaves the address space exactly when the rounded value does.
pub proof fn lemma_round_up_fits(v: usize, align: usize)
    requires
        power2::is_pow2(align as int),
    ensures
        0 < align,
        v + align - 1 <= usize::MAX <==> round_up(v as int, align as int) <= usize::MAX,
{
    lemma_divides_address_space(align);
    let a = align as int;
    let top = usize::MAX + 1;
    let u = round_up(v as int, a);
    lemma_round_up(v as int, a);
    if u <= usize::MAX && v + a - 1 > usize::MAX {
        lemma_close_multiples(u, top, a);
    }
}

/// Clearing the low bits of `x` rounds it down to a multiple of a power of two.
pub proof fn lemma_mask(x: usize, align: usize)
    requires
        power2::is_pow2(align as int),
    ensures
        0 < align,
        x & !((align - 1) as usize) == (x as int / align as int) * (align as int),
    decreases align,
{
    reveal(power2::is_pow2);
    if align == 1 {
        assert(x & !0usize == x) by (bit_vector);
    } else {
        let half: usize = align / 2;
        let mask: usize = (align - 1) as usize;
        let half_mask: usize = (half - 1) as usize;
        lemma_mask(x / 2, half);
        assert(x & !mask == 2 * ((x / 2) & !half_mask)) by (bit_vector)
            requires
                mask == 2 * half_mask + 1,
        ;
        div_mod::lemma_div_denominator(x as int, 2, half as int);
        let q = x as int / align as int;
        assert(2 * (q * half) == q * (2 * half)) by (nonlinear_arith);
    }
}

} // verus!
