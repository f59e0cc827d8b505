//! Rejection sampling of one index from one byte.

use crate::mask::low_mask;
use vstd::arithmetic::div_mod::{lemma_div_denominator, lemma_div_is_ordered_by_denominator};
use vstd::arithmetic::power2::{lemma2_to64, lemma_pow2_adds, lemma_pow2_pos, pow2};
use vstd::bits::{low_bits_mask, lemma_u8_low_bits_mask_is_mod, lemma_u8_pow2_no_overflow, lemma_u8_shr_is_div};
use vstd::prelude::*;

verus! {

/// Number of chunks that are examined in one byte: the whole chunks of
/// `width` bits that fit into eight bits. Widths of eight bits and more take
/// the byte as one chunk, and a width of zero stands for the one-element
/// range, which needs no bits at all.
pub open spec fn rounds(width: nat) -> nat {
    if width == 0 || width >= 8 {
        1
    } else {
        8nat / width
    }
}

/// The chunk looked at in `round`: the byte shifted right by `round * width`
/// bits, under `mask`.
pub open spec fn chunk(byte: u8, mask: u8, width: nat, round: nat) -> u8 {
    ((byte as nat / pow2(round * width)) as u8) & mask
}

/// The first round at or after `from` whose chunk lies in `[0, max_index]`.
pub open spec fn first_round(byte: u8, max_index: u8, mask: u8, width: nat, from: nat) -> Option<
    nat,
>
    decreases rounds(width) - from,
{
    if from >= rounds(width) {
        None
    } else if chunk(byte, mask, width, from) <= max_index {
        Some(from)
    } else {
        first_round(byte, max_index, mask, width, from + 1)
    }
}

/// The index drawn from `byte`, if the byte holds one.
///
/// A width of zero yields index 0 from every byte. A width of eight or more
/// takes the byte itself, if it is in range. Any other width takes the chunk
/// of the first accepting round, scanning from the low bits upward.
pub open spec fn sample(byte: u8, max_index: u8, mask: u8, width: nat) -> Option<u8> {
    if width == 0 {
        Some(0u8)
    } else if width >= 8 {
        if byte <= max_index {
            Some(byte)
        } else {
            None
        }
    } else {
        match first_round(byte, max_index, mask, width, 0) {
            Some(round) => Some(chunk(byte, mask, width, round)),
            None => None,
        }
    }
}

/// The pair that reports a draw: whether an index was found, and the index,
/// which is zero where none was.
pub open spec fn sample_pair(drawn: Option<u8>) -> (bool, u8) {
    match drawn {
        Some(value) => (true, value),
        None => (false, 0u8),
    }
}

/// `first_round` returns the least accepting round at or after `from`, and
/// `None` exactly when no round from there on accepts.
pub proof fn lemma_first_round_is_least(byte: u8, max_index: u8, mask: u8, width: nat, from: nat)
    ensures
        match first_round(byte, max_index, mask, width, from) {
            Some(round) => {
                &&& from <= round < rounds(width)
                &&& chunk(byte, mask, width, round) <= max_index
                &&& forall|q: nat|
                    from <= q < round ==> #[trigger] chunk(byte, mask, width, q) > max_index
            },
            None => forall|q: nat|
                from <= q < rounds(width) ==> #[trigger] chunk(byte, mask, width, q) > max_index,
        },
    decreases rounds(width) - from,
{
    if from < rounds(width) && chunk(byte, mask, width, from) > max_index {
        lemma_first_round_is_least(byte, max_index, mask, width, from + 1);
    }
}

/// Every index that is drawn lies in `[0, max_index]`.
pub proof fn lemma_sample_in_range(byte: u8, max_index: u8, mask: u8, width: nat)
    ensures
        sample(byte, max_index, mask, width) matches Some(value) ==> value <= max_index,
{
    lemma_first_round_is_least(byte, max_index, mask, width, 0);
}

/// Under the mask of `width` low bits, the chunk of a round is the number
/// that the byte's `width` bits from bit `round * width` upward spell.
pub proof fn lemma_chunk_is_low_bits(byte: u8, width: nat, round: nat)
    requires
        width <= 8,
    ensures
        chunk(byte, low_mask(width) as u8, width, round) == (byte as nat / pow2(round * width))
            % pow2(width),
{
    let quotient = byte as nat / pow2(round * width);
    lemma2_to64();
    lemma_pow2_pos(round * width);
    lemma_pow2_pos(width);
    lemma_div_is_ordered_by_denominator(byte as int, 1, pow2(round * width) as int);
    assert(quotient <= byte);
    let shifted = quotient as u8;
    if width < 8 {
        lemma_u8_pow2_no_overflow(width);
        lemma_u8_low_bits_mask_is_mod(shifted, width);
        assert(low_mask(width) as u8 == low_bits_mask(width) as u8);
    } else {
        assert(shifted & 0xff == shifted) by (bit_vector);
        assert(quotient % 256 == quotient);
    }
}

/// Draws the next index from a single byte.
///
/// Returns whether the byte held an index in `[0, max_index]`, and that
/// index; the value is zero where none was found.
pub fn next_from_single_char(byte: u8, max_index: u8, mask: u8, mask_size: usize) -> (res: (
    bool,
    u8,
))
    ensures
        res == sample_pair(sample(byte, max_index, mask, mask_size as nat)),
        res.0 ==> res.1 <= max_index,
        !res.0 ==> res.1 == 0,
{
    if mask_size == 0 {
        return (true, 0);
    }
    if mask_size >= 8 {
        if byte <= max_index {
            return (true, byte);
        }
        return (false, 0);
    }
    let ghost width = mask_size as nat;
    let total: usize = 8 / mask_size;
    let mut current: u8 = byte;
    let mut found = false;
    let mut value: u8 = 0;
    let mut round: usize = 0;

    proof {
        assert(pow2(0) == 1) by {
            lemma2_to64();
        }
        assert(0 * width == 0);
    }
    while round < total
        invariant
            0 < mask_size < 8,
            width == mask_size as nat,
            total == rounds(width),
            round <= total,
            current as nat == byte as nat / pow2(round as nat * width),
            !found ==> value == 0,
            !found ==> first_round(byte, max_index, mask, width, 0) == first_round(
                byte,
                max_index,
                mask,
                width,
                round as nat,
            ),
            found ==> first_round(byte, max_index, mask, width, 0) is Some,
            found ==> value == chunk(
                byte,
                mask,
                width,
                first_round(byte, max_index, mask, width, 0)->0,
            ),
        decreases total - round,
    {
        let tmp = current & mask;
        if !found && tmp <= max_index {
            found = true;
            value = tmp;
        }
        proof {
            let done = round as nat * width;
            lemma_u8_shr_is_div(current, mask_size as u8);
            lemma_pow2_pos(done);
            lemma_pow2_pos(width);
            lemma_pow2_adds(done, width);
            lemma_div_denominator(byte as int, pow2(done) as int, pow2(width) as int);
            assert((round + 1) as nat * width == done + width) by (nonlinear_arith)
                requires
                    done == round as nat * width,
            ;
            assert(current >> mask_size == current >> (mask_size as u8));
        }
        current = current >> mask_size;
        round += 1;
    }
    proof {
        lemma_sample_in_range(byte, max_index, mask, width);
    }
    (found, value)
}

} // verus!
