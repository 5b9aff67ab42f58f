//! Leading-zero counting over the 128-bit identifier space.
//!
//! The XOR metric turns "how long a high-order prefix do two identifiers
//! share" into "how many leading zeros does their distance have", so the
//! routing table's bucket arithmetic rests on the facts proved here.

use vstd::arithmetic::power2::{
    lemma2_to64, lemma2_to64_rest, lemma_pow2_adds, lemma_pow2_pos, lemma_pow2_unfold, pow2,
};
use vstd::prelude::*;

verus! {

/// Number of leading zero bits in the 128-bit representation of `i`:
/// 128 for zero, one fewer for each further significant bit.
pub open spec fn lz128(i: u128) -> int
    decreases i,
{
    if i == 0 {
        128
    } else {
        lz128(i / 2) - 1
    }
}

/// `lz128` never exceeds the identifier width.
pub proof fn lemma_lz128_le(i: u128)
    ensures
        lz128(i) <= 128,
    decreases i,
{
    if i > 0 {
        lemma_lz128_le(i / 2);
    }
}

/// A value lies below `pow2(n)` exactly when it has at least `128 - n`
/// leading zeros.
pub proof fn lemma_lz128_iff_below(i: u128, n: nat)
    requires
        n <= 128,
    ensures
        i < pow2(n) <==> lz128(i) >= 128 - n,
    decreases n,
{
    if n == 0 {
        lemma2_to64();
        if i > 0 {
            lemma_lz128_le(i / 2);
        }
    } else {
        lemma_lz128_iff_below(i / 2, (n - 1) as nat);
        lemma_pow2_unfold(n);
        lemma_pow2_pos((n - 1) as nat);
        vstd::arithmetic::div_mod::lemma_fundamental_div_mod(i as int, 2);
    }
}

/// Range facts for `lz128`: it lies between 0 and 128, and reaches 128
/// only on zero.
pub proof fn lemma_lz128_bounds(i: u128)
    ensures
        0 <= lz128(i) <= 128,
        i == 0 <==> lz128(i) == 128,
{
    lemma_lz128_le(i);
    lemma_lz128_iff_below(i, 128);
    assert(i < pow2(128)) by {
        lemma_pow2_adds(64, 64);
        lemma2_to64();
    };
    if i > 0 {
        lemma_lz128_le(i / 2);
    }
}

/// Halving a 128-bit value always leaves at least one leading zero.
proof fn lemma_lz128_half_pos(i: u128)
    ensures
        lz128(i / 2) >= 1,
{
    lemma_lz128_iff_below(i / 2, 127);
    assert(i / 2 < pow2(127)) by {
        lemma_pow2_adds(64, 63);
        lemma2_to64();
        lemma2_to64_rest();
    };
}

/// Counts the leading zero bits of `i`; mirrors the definition of `lz128`.
pub fn leading_zeros_u128(i: u128) -> (r: u32)
    ensures
        r as int == lz128(i),
    decreases i,
{
    if i == 0 {
        128
    } else {
        proof {
            lemma_lz128_half_pos(i);
            lemma_lz128_le(i / 2);
        }
        leading_zeros_u128(i / 2) - 1
    }
}

} // verus!
