//! Facts about powers of two and bit masks used by the ring's index arithmetic.

use vstd::prelude::*;
use vstd::arithmetic::power2::{pow2, lemma_pow2_unfold, lemma_pow2_strictly_increases, lemma2_to64, lemma_pow2_adds};
use vstd::arithmetic::div_mod::{lemma_add_mod_noop, lemma_small_mod, lemma_mod_sub_multiples_vanish, lemma_mod_multiples_vanish};
use vstd::bits::lemma_u32_low_bits_mask_is_mod;

verus! {

/// `n` is a power of two: 1, 2, 4, 8, ...
pub open spec fn is_pow2(n: nat) -> bool
    decreases n,
{
    if n <= 1 {
        n == 1
    } else {
        n % 2 == 0 && is_pow2(n / 2)
    }
}

/// `x & (x - 1)` clears the lowest set bit, so it is zero exactly for powers of two.
pub proof fn lemma_clear_lowest_bit(x: u64)
    requires
        x >= 1,
    ensures
        (x & (x - 1) as u64 == 0) == is_pow2(x as nat),
    decreases x,
{
    if x == 1 {
        assert(1u64 & 0u64 == 0) by (bit_vector);
    } else if x % 2 == 1 {
        assert(x & 1 == 1 && x > 1 ==> x & (x - 1) as u64 != 0) by (bit_vector);
        assert(x % 2 == 1 ==> x & 1 == 1) by (bit_vector);
    } else {
        let h: u64 = x >> 1;
        assert(x % 2 == 0 && x >= 2 ==> ((x & (x - 1) as u64 == 0) == ((x >> 1) & ((x >> 1) - 1) as u64
            == 0))) by (bit_vector);
        assert(x >> 1 == x / 2) by (bit_vector);
        assert(h >= 1);
        lemma_clear_lowest_bit(h);
    }
}

/// The exponent of a power of two.
pub open spec fn log2(n: nat) -> nat
    decreases n,
{
    if n <= 1 {
        0
    } else {
        1 + log2(n / 2)
    }
}

pub proof fn lemma_pow2_log2(n: nat)
    requires
        is_pow2(n),
    ensures
        pow2(log2(n)) == n,
    decreases n,
{
    if n <= 1 {
        lemma2_to64();
    } else {
        lemma_pow2_log2(n / 2);
        lemma_pow2_unfold(log2(n));
    }
}

/// Doubling a power of two gives a power of two.
pub proof fn lemma_pow2_double(n: nat)
    requires
        is_pow2(n),
    ensures
        is_pow2(2 * n),
{
    assert((2 * n) / 2 == n);
}

/// With a power-of-two modulus `m + 1`, masking by `m` is the remainder.
pub proof fn lemma_mask_is_mod(x: u32, m: u32)
    requires
        m < 0x8000_0000,
        is_pow2((m + 1) as nat),
    ensures
        x & m == x % (m + 1) as u32,
{
    let e = log2((m + 1) as nat);
    lemma_pow2_log2((m + 1) as nat);
    if e >= 32 {
        lemma_pow2_strictly_increases(31, e);
        lemma2_to64();
    }
    lemma_u32_low_bits_mask_is_mod(x, e);
}

/// The slot of position `h + d`, for an offset `d` below the modulus `c`, is
/// `h % c + d`, taken once around when it passes the end.
pub proof fn lemma_offset_slot(h: int, d: int, c: int)
    requires
        0 <= h,
        0 <= d < c,
    ensures
        (h + d) % c == if h % c + d < c {
            h % c + d
        } else {
            h % c + d - c
        },
{
    lemma_add_mod_noop(h, d, c);
    lemma_small_mod(d as nat, c as nat);
    let s = h % c + d;
    if s < c {
        lemma_small_mod(s as nat, c as nat);
    } else {
        lemma_mod_sub_multiples_vanish(s, c);
        lemma_small_mod((s - c) as nat, c as nat);
    }
}

/// A power of two no larger than `2^31` divides `2^32`, so whole turns of a
/// 32-bit counter do not move its slot.
pub proof fn lemma_wrap_mod(a: int, k: int, c: nat)
    requires
        is_pow2(c),
        c <= 0x8000_0000,
    ensures
        (a + k * 0x1_0000_0000) % (c as int) == a % (c as int),
{
    let e = log2(c);
    lemma_pow2_log2(c);
    if e > 32 {
        lemma_pow2_strictly_increases(31, e);
        lemma2_to64();
    }
    lemma_pow2_adds(e, (32 - e) as nat);
    lemma2_to64();
    let q = pow2((32 - e) as nat) as int;
    assert(k * 0x1_0000_0000 == (c as int) * (k * q)) by (nonlinear_arith)
        requires
            0x1_0000_0000 == (c as int) * q,
    ;
    lemma_mod_multiples_vanish(k * q, a, c as int);
}

} // verus!
