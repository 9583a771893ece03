//! Rounding an address up to a power-of-two alignment.

use vstd::arithmetic::div_mod::lemma_fundamental_div_mod;
use vstd::arithmetic::power2::{lemma_pow2_pos, pow2};
use vstd::bits::{lemma_usize_low_bits_mask_is_mod, lemma_usize_pow2_no_overflow, low_bits_mask};
use vstd::prelude::*;

verus! {

/// `a` is a power of two that a `usize` can hold.
pub open spec fn is_power_of_two(a: usize) -> bool {
    exists|k: nat| k < usize::BITS && pow2(k) == a
}

/// The least multiple of `align` that is at least `addr`.
pub open spec fn align_up_spec(addr: int, align: int) -> int {
    ((addr + align - 1) / align) * align
}

proof fn lemma_all_ones(x: usize)
    by (bit_vector)
    ensures
        x <= !0usize,
{
}

/// For a power of two `a`, masking off the bits below `a` keeps the
/// multiple of `a` at or below `y`, and the top of the address space is one
/// below a multiple of `a`.
proof fn lemma_mask(y: usize, a: usize)
    requires
        is_power_of_two(a),
    ensures
        a > 0,
        y & !((a - 1) as usize) == (y / a) * a,
        (usize::MAX as int + 1) % (a as int) == 0,
{
    let k = choose|k: nat| k < usize::BITS && pow2(k) == a;
    lemma_pow2_pos(k);
    lemma_usize_pow2_no_overflow(k);
    let m: usize = (a - 1) as usize;
    assert(low_bits_mask(k) as usize == m);
    lemma_usize_low_bits_mask_is_mod(y, k);
    lemma_usize_low_bits_mask_is_mod(usize::MAX, k);
    assert(y & !m == y - (y & m)) by (bit_vector);
    lemma_all_ones(usize::MAX);
    assert((!0usize) & m == m) by (bit_vector);
    lemma_fundamental_div_mod(y as int, a as int);
    lemma_fundamental_div_mod(usize::MAX as int, a as int);
    assert((usize::MAX as int + 1) == (usize::MAX as int / a as int) * a + a);
    assert((usize::MAX as int + 1) % (a as int) == 0) by (nonlinear_arith)
        requires
            (usize::MAX as int + 1) == (usize::MAX as int / a as int) * a + a,
            a > 0,
    {
        vstd::arithmetic::div_mod::lemma_mod_multiples_basic(
            usize::MAX as int / a as int + 1,
            a as int,
        );
    }
}

/// A power of two is positive.
pub proof fn lemma_power_of_two_positive(a: usize)
    requires
        is_power_of_two(a),
    ensures
        a > 0,
{
    lemma_mask(0, a);
}

/// Rounds `addr` up to the next multiple of `align`; `None` where that
/// multiple does not fit in a `usize`.
pub fn align_up(addr: usize, align: usize) -> (r: Option<usize>)
    requires
        is_power_of_two(align),
    ensures
        match r {
            Some(v) => v as int == align_up_spec(addr as int, align as int),
            None => align_up_spec(addr as int, align as int) > usize::MAX,
        },
{
    proof {
        lemma_mask(0, align);
    }
    let mask: usize = align - 1;
    match addr.checked_add(mask) {
        Some(y) => {
            proof {
                lemma_mask(y, align);
            }
            Some(y & !mask)
        },
        None => {
            proof {
                let t = usize::MAX as int + 1;
                let a = align as int;
                let n = addr as int + a - 1;
                assert((n / a) * a >= t) by (nonlinear_arith)
                    requires
                        t % a == 0,
                        a > 0,
                        n >= t,
                {
                    vstd::arithmetic::div_mod::lemma_fundamental_div_mod(t, a);
                    vstd::arithmetic::div_mod::lemma_div_is_ordered(t, n, a);
                }
            }
            None
        },
    }
}

} // verus!
