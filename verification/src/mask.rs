//! The bit mask that covers an inclusive index range.

use vstd::arithmetic::power2::{lemma2_to64, lemma_pow2_strictly_increases, lemma_pow2_unfold, pow2};
use vstd::prelude::*;

verus! {

/// Number of bits in the binary representation of `n`: zero for zero, and
/// otherwise the position of the highest set bit, counted from one.
pub open spec fn bit_width(n: nat) -> nat
    decreases n,
{
    if n == 0 {
        0
    } else {
        1 + bit_width(n / 2)
    }
}

/// The mask of `width` low bits, as a number: `2^width - 1`.
pub open spec fn low_mask(width: nat) -> int {
    pow2(width) - 1
}

/// `bit_width(n)` is the least `w` with `n < 2^w`.
pub proof fn lemma_bit_width_bounds(n: nat)
    ensures
        n < pow2(bit_width(n)),
        n > 0 ==> pow2((bit_width(n) - 1) as nat) <= n,
        (bit_width(n) == 0) == (n == 0),
    decreases n,
{
    lemma2_to64();
    if n > 0 {
        lemma_bit_width_bounds(n / 2);
        lemma_pow2_unfold(bit_width(n));
        if n / 2 > 0 {
            lemma_pow2_unfold(bit_width(n / 2));
        }
    }
}

/// No width below `bit_width(n)` has room for `n`.
pub proof fn lemma_bit_width_least(n: nat, w: nat)
    requires
        n < pow2(w),
    ensures
        bit_width(n) <= w,
{
    lemma_bit_width_bounds(n);
    if n > 0 && w < bit_width(n) {
        let below = (bit_width(n) - 1) as nat;
        if w < below {
            lemma_pow2_strictly_increases(w, below);
        }
    }
}

/// A byte needs at most eight bits.
pub proof fn lemma_bit_width_of_byte(n: u8)
    ensures
        bit_width(n as nat) <= 8,
{
    lemma2_to64();
    lemma_bit_width_least(n as nat, 8);
}

/// Computes the smallest all-ones mask that covers `[0, max_index]`, and the
/// number of bits in it.
pub fn get_mask(max_index: u8) -> (res: (u8, usize))
    ensures
        res.1 == bit_width(max_index as nat),
        res.0 == low_mask(res.1 as nat),
        res.1 <= 8,
        res.0 >= max_index,
        (res.1 == 0) == (max_index == 0),
        max_index < pow2(res.1 as nat),
        max_index > 0 ==> pow2((res.1 - 1) as nat) <= max_index,
{
    let mut mask: u8 = 0b_0000_0000;
    let mut count: usize = 0;
    proof {
        lemma2_to64();
        lemma_bit_width_bounds(max_index as nat);
        lemma_bit_width_of_byte(max_index);
    }
    if max_index == 0 {
        return (mask, count);
    }
    let mut current: u8 = max_index;
    loop
        invariant_except_break
            current > 0,
            count < 8,
            count + bit_width(current as nat) == bit_width(max_index as nat),
            mask == low_mask(count as nat),
        ensures
            count == bit_width(max_index as nat),
            mask == low_mask(count as nat),
        decreases current,
    {
        proof {
            lemma2_to64();
            lemma_pow2_unfold((count + 1) as nat);
            if count < 7 {
                lemma_pow2_strictly_increases(count as nat, 7);
            }
            lemma_bit_width_of_byte(max_index);
            assert(bit_width(current as nat) == 1 + bit_width((current / 2) as nat));
            assert(bit_width(0) == 0);
            assert(mask < 128 ==> ((mask << 1) | 0x01) == 2 * mask + 1) by (bit_vector);
            assert(current >> 1 == current / 2) by (bit_vector);
        }
        mask = mask << 1;
        mask |= 0x01;
        count += 1;

        current = current >> 1;
        proof {
            assert(current & 0b_1111_1111 == current) by (bit_vector);
        }
        if current & 0b_1111_1111 == 0 {
            break;
        }
    }
    (mask, count)
}

} // verus!
