//! Scanning a 32-byte digest word for the next index.

use crate::sample::{lemma_sample_in_range, next_from_single_char, sample};
use vstd::prelude::*;

verus! {

/// Why no index could be taken from a word.
#[derive(Debug, Clone, Copy, PartialEq, Eq)]
pub enum CharacterGenerationError {
    /// No byte from the offset to the end of the word holds an index.
    ConsumedFullWordError,
}

/// The position of the first byte at or after `from` that holds an index.
pub open spec fn first_hit(word: Seq<u8>, from: nat, max_index: u8, mask: u8, width: nat) -> Option<
    nat,
>
    decreases word.len() - from,
{
    if from >= word.len() {
        None
    } else if sample(word[from as int], max_index, mask, width) is Some {
        Some(from)
    } else {
        first_hit(word, from + 1, max_index, mask, width)
    }
}

/// The result of scanning `word` from `offset`: the offset just behind the
/// first byte that holds an index, and that index.
pub open spec fn scan(word: Seq<u8>, offset: nat, max_index: u8, mask: u8, width: nat) -> Option<
    (nat, u8),
> {
    match first_hit(word, offset, max_index, mask, width) {
        Some(at) => Some((at + 1, sample(word[at as int], max_index, mask, width)->0)),
        None => None,
    }
}

/// `first_hit` returns the least position at or after `from` whose byte
/// holds an index, and `None` exactly when no byte from there on holds one.
pub proof fn lemma_first_hit_is_least(word: Seq<u8>, from: nat, max_index: u8, mask: u8, width: nat)
    ensures
        match first_hit(word, from, max_index, mask, width) {
            Some(at) => {
                &&& from <= at < word.len()
                &&& sample(word[at as int], max_index, mask, width) is Some
                &&& forall|i: int|
                    from <= i < at ==> sample(#[trigger] word[i], max_index, mask, width) is None
            },
            None => forall|i: int|
                from <= i < word.len() ==> sample(#[trigger] word[i], max_index, mask, width)
                    is None,
        },
    decreases word.len() - from,
{
    if from < word.len() && sample(word[from as int], max_index, mask, width) is None {
        lemma_first_hit_is_least(word, from + 1, max_index, mask, width);
    }
}

/// A successful scan moves the offset forward, stays inside the word and
/// yields an index in `[0, max_index]`.
pub proof fn lemma_scan_bounds(word: Seq<u8>, offset: nat, max_index: u8, mask: u8, width: nat)
    ensures
        scan(word, offset, max_index, mask, width) matches Some((next, value)) ==> offset < next
            <= word.len() && value <= max_index,
{
    lemma_first_hit_is_least(word, offset, max_index, mask, width);
    if let Some(at) = first_hit(word, offset, max_index, mask, width) {
        lemma_sample_in_range(word[at as int], max_index, mask, width);
    }
}

/// A scan that starts at or behind the end of the word finds nothing,
/// whatever the word holds.
pub proof fn lemma_scan_at_end(word: Seq<u8>, offset: nat, max_index: u8, mask: u8, width: nat)
    requires
        offset >= word.len(),
    ensures
        scan(word, offset, max_index, mask, width) is None,
{
}

/// Takes the next index from `word`, looking at the bytes from `offset` on.
///
/// Returns the offset at which the next scan resumes together with the
/// index, or an error where the rest of the word holds none.
pub fn next_from_word(
    word: &[u8; 32],
    offset: usize,
    max_index: u8,
    mask: u8,
    mask_size: usize,
) -> (res: Result<(usize, u8), CharacterGenerationError>)
    ensures
        res is Ok <==> scan(word@, offset as nat, max_index, mask, mask_size as nat) is Some,
        res matches Ok((next, value)) ==> scan(
            word@,
            offset as nat,
            max_index,
            mask,
            mask_size as nat,
        ) == Some((next as nat, value)),
        offset >= 32 ==> res is Err,
        res matches Ok((next, value)) ==> offset < next <= 32 && value <= max_index,
{
    let ghost width = mask_size as nat;
    let mut next_offset: usize = 0;
    let mut next_character: u8 = 0;
    let mut found = false;
    let mut i: usize = offset;
    while i < word.len()
        invariant
            width == mask_size as nat,
            word@.len() == 32,
            offset <= i,
            !found ==> first_hit(word@, offset as nat, max_index, mask, width) == first_hit(
                word@,
                i as nat,
                max_index,
                mask,
                width,
            ),
            found ==> scan(word@, offset as nat, max_index, mask, width) == Some(
                (next_offset as nat, next_character),
            ),
        decreases word.len() - i,
    {
        let (found_at, value_at) = next_from_single_char(word[i], max_index, mask, mask_size);
        if !found && found_at {
            next_offset = i + 1;
            next_character = value_at;
            found = true;
        }
        i += 1;
    }
    proof {
        lemma_scan_bounds(word@, offset as nat, max_index, mask, width);
    }
    if found {
        return Ok((next_offset, next_character));
    }
    Err(CharacterGenerationError::ConsumedFullWordError)
}

} // verus!
