use vstd::prelude::*;
use vstd::arithmetic::power2::{lemma_pow2_unfold, pow2};
use vstd::std_specs::bits::{axiom_u64_leading_zeros, u64_leading_zeros};

verus! {

/// The number of binary digits of `x`: 0 for 0, and otherwise one more than
/// the position of the highest set bit.
pub open spec fn bit_length(x: nat) -> nat
    decreases x,
{
    if x == 0 {
        0
    } else {
        1 + bit_length(x / 2)
    }
}

/// A positive `x` lies between the two powers of two that its bit length names.
pub proof fn lemma_bit_length_bounds(x: nat)
    requires
        x > 0,
    ensures
        bit_length(x) >= 1,
        pow2((bit_length(x) - 1) as nat) <= x < pow2(bit_length(x)),
    decreases x,
{
    if x == 1 {
        assert(bit_length(0) == 0);
        assert(bit_length(1) == 1);
        assert(pow2(0) == 1 && pow2(1) == 2) by {
            lemma_pow2_unfold(1);
            vstd::arithmetic::power2::lemma2_to64();
        }
    } else {
        lemma_bit_length_bounds(x / 2);
        let b = bit_length(x / 2);
        lemma_pow2_unfold(b);
        lemma_pow2_unfold(b + 1);
    }
}

/// The bit length is the only `b` with `2^(b-1) <= x < 2^b`.
pub proof fn lemma_bit_length_unique(x: nat, b: nat)
    requires
        b >= 1,
        pow2((b - 1) as nat) <= x < pow2(b),
    ensures
        bit_length(x) == b,
    decreases b,
{
    vstd::arithmetic::power2::lemma2_to64();
    if b == 1 {
        assert(x == 1);
        assert(bit_length(0) == 0);
    } else {
        lemma_pow2_unfold(b);
        lemma_pow2_unfold((b - 1) as nat);
        lemma_bit_length_unique(x / 2, (b - 1) as nat);
    }
}

/// `leading_zeros` counts the digits that the bit length leaves of the 64.
pub proof fn lemma_leading_zeros_bit_length(x: u64)
    ensures
        u64_leading_zeros(x) == 64 - bit_length(x as nat),
    decreases x,
{
    reveal(u64_leading_zeros);
    if x != 0 {
        lemma_leading_zeros_bit_length(x / 2);
    }
}

/// One more than the position of the highest set bit of `x`, and 0 for 0.
pub fn get_msb_pos(x: u64) -> (r: u64)
    ensures
        r == bit_length(x as nat),
        r <= 64,
{
    proof {
        lemma_leading_zeros_bit_length(x);
        axiom_u64_leading_zeros(x);
    }
    64 - x.leading_zeros() as u64
}

} // verus!
