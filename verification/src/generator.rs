//! The index stream of a seed, and the generator that writes it out.

use crate::digest::{digest_word, generate_word};
use crate::mask::{bit_width, get_mask, low_mask};
use crate::sample::{lemma_sample_in_range, sample};
use crate::scan::{next_from_word, scan};
use vstd::prelude::*;

verus! {

/// The indices that `word` holds from byte `from` on: the index of each byte
/// that holds one, in the order of the bytes.
pub open spec fn word_indices(word: Seq<u8>, from: nat, max_index: u8, mask: u8, width: nat) -> Seq<
    u8,
>
    decreases word.len() - from,
{
    if from >= word.len() {
        Seq::empty()
    } else {
        let rest = word_indices(word, from + 1, max_index, mask, width);
        match sample(word[from as int], max_index, mask, width) {
            Some(value) => seq![value] + rest,
            None => rest,
        }
    }
}

/// The indices that the first `words` digest words of `seed` hold, word
/// after word.
pub open spec fn stream_upto(seed: Seq<u8>, words: nat, max_index: u8, mask: u8, width: nat) -> Seq<
    u8,
>
    decreases words,
{
    if words == 0 {
        Seq::empty()
    } else {
        stream_upto(seed, (words - 1) as nat, max_index, mask, width) + word_indices(
            digest_word(seed, (words - 1) as nat),
            0,
            max_index,
            mask,
            width,
        )
    }
}

/// The mask that belongs to `max_index`, as a byte.
pub open spec fn mask_for(max_index: u8) -> u8 {
    low_mask(bit_width(max_index as nat)) as u8
}

/// How many digest words can be produced for a seed of `seed_len` bytes
/// before the hashed input outgrows what a `usize` can count.
pub open spec fn word_limit(seed_len: nat) -> nat {
    (usize::MAX - seed_len) as nat
}

/// A scan takes the head of what the word holds from the offset on, and
/// resumes before the rest; it fails exactly where nothing is left.
pub proof fn lemma_scan_takes_head(word: Seq<u8>, offset: nat, max_index: u8, mask: u8, width: nat)
    ensures
        match scan(word, offset, max_index, mask, width) {
            Some((next, value)) => word_indices(word, offset, max_index, mask, width) == seq![
                value,
            ] + word_indices(word, next, max_index, mask, width),
            None => word_indices(word, offset, max_index, mask, width) == Seq::<u8>::empty(),
        },
    decreases word.len() - offset,
{
    if offset < word.len() && sample(word[offset as int], max_index, mask, width) is None {
        lemma_scan_takes_head(word, offset + 1, max_index, mask, width);
    }
}

/// Every index that a word holds lies in `[0, max_index]`.
pub proof fn lemma_word_indices_in_range(
    word: Seq<u8>,
    from: nat,
    max_index: u8,
    mask: u8,
    width: nat,
)
    ensures
        forall|i: int|
            0 <= i < word_indices(word, from, max_index, mask, width).len() ==> #[trigger] word_indices(
                word,
                from,
                max_index,
                mask,
                width,
            )[i] <= max_index,
    decreases word.len() - from,
{
    if from < word.len() {
        lemma_word_indices_in_range(word, from + 1, max_index, mask, width);
        lemma_sample_in_range(word[from as int], max_index, mask, width);
        let held = word_indices(word, from, max_index, mask, width);
        let rest = word_indices(word, from + 1, max_index, mask, width);
        assert forall|i: int| 0 <= i < held.len() implies held[i] <= max_index by {
            if sample(word[from as int], max_index, mask, width) is Some && i > 0 {
                assert(held[i] == rest[i - 1]);
            }
        }
    }
}

/// Every index of the stream lies in `[0, max_index]`.
pub proof fn lemma_stream_in_range(seed: Seq<u8>, words: nat, max_index: u8, mask: u8, width: nat)
    ensures
        forall|i: int|
            0 <= i < stream_upto(seed, words, max_index, mask, width).len() ==> #[trigger] stream_upto(
                seed,
                words,
                max_index,
                mask,
                width,
            )[i] <= max_index,
    decreases words,
{
    if words > 0 {
        lemma_stream_in_range(seed, (words - 1) as nat, max_index, mask, width);
        lemma_word_indices_in_range(
            digest_word(seed, (words - 1) as nat),
            0,
            max_index,
            mask,
            width,
        );
        let whole = stream_upto(seed, words, max_index, mask, width);
        let front = stream_upto(seed, (words - 1) as nat, max_index, mask, width);
        let back = word_indices(digest_word(seed, (words - 1) as nat), 0, max_index, mask, width);
        assert forall|i: int| 0 <= i < whole.len() implies whole[i] <= max_index by {
            if i >= front.len() {
                assert(whole[i] == back[i - front.len()]);
            } else {
                assert(whole[i] == front[i]);
            }
        }
    }
}

/// The stream of fewer words is the beginning of the stream of more words.
pub proof fn lemma_stream_extends(
    seed: Seq<u8>,
    fewer: nat,
    more: nat,
    max_index: u8,
    mask: u8,
    width: nat,
)
    requires
        fewer <= more,
    ensures
        stream_upto(seed, fewer, max_index, mask, width).is_prefix_of(
            stream_upto(seed, more, max_index, mask, width),
        ),
    decreases more - fewer,
{
    if fewer < more {
        lemma_stream_extends(seed, fewer, (more - 1) as nat, max_index, mask, width);
    }
}

/// Two generators with the same seed and the same largest index fill
/// buffers of one length alike: the same number of indices is written, the
/// same indices in the same places, and each buffer keeps its length.
pub proof fn lemma_fill_is_determined(
    first: PasswordGenerator,
    second: PasswordGenerator,
    one: Seq<u8>,
    other: Seq<u8>,
)
    requires
        first.seed() == second.seed(),
        first.max_index() == second.max_index(),
        one.len() == other.len(),
    ensures
        first.fill_count(one.len()) == second.fill_count(other.len()),
        first.filled(one).len() == one.len(),
        second.filled(other).len() == other.len(),
        forall|i: int|
            0 <= i < first.fill_count(one.len()) ==> first.filled(one)[i] == second.filled(
                other,
            )[i],
        first.fill_count(one.len()) == one.len() ==> first.filled(one) == second.filled(other),
{
    let count = first.fill_count(one.len()) as int;
    if count == one.len() {
        assert(first.filled(one) =~= second.filled(other));
    }
}

/// Every index that a generator writes lies in `[0, max_index]`.
pub proof fn lemma_filled_in_range(generator: PasswordGenerator, before: Seq<u8>)
    ensures
        forall|i: int|
            0 <= i < generator.fill_count(before.len()) ==> #[trigger] generator.filled(before)[i]
                <= generator.max_index(),
{
    lemma_stream_in_range(
        generator.seed(),
        word_limit(generator.seed().len()),
        generator.max_index(),
        mask_for(generator.max_index()),
        bit_width(generator.max_index() as nat),
    );
}

/// Generates the indices for one seed and one range `[0, max_index]`.
pub struct PasswordGenerator<'a> {
    mask: u8,
    mask_size: usize,
    max_index: u8,
    seed: &'a [u8],
}

impl<'a> PasswordGenerator<'a> {
    #[verifier::type_invariant]
    spec fn well_formed(self) -> bool {
        &&& self.mask_size == bit_width(self.max_index as nat)
        &&& self.mask == mask_for(self.max_index)
    }

    /// The seed that the indices are derived from.
    pub closed spec fn seed(self) -> Seq<u8> {
        self.seed@
    }

    /// The largest index that is generated.
    pub closed spec fn max_index(self) -> u8 {
        self.max_index
    }

    /// All the indices that this generator can give: those of the digest
    /// words that can be produced for its seed, in order.
    pub open spec fn available(self) -> Seq<u8> {
        stream_upto(
            self.seed(),
            word_limit(self.seed().len()),
            self.max_index(),
            mask_for(self.max_index()),
            bit_width(self.max_index() as nat),
        )
    }

    /// How many indices a buffer of `len` bytes receives: all that it has
    /// room for, as far as there are that many.
    pub open spec fn fill_count(self, len: nat) -> nat {
        if self.available().len() >= len {
            len
        } else {
            self.available().len()
        }
    }

    /// What a buffer holds after it was filled: the first indices of the
    /// stream, and behind them what it held before.
    pub open spec fn filled(self, before: Seq<u8>) -> Seq<u8> {
        let count = self.fill_count(before.len()) as int;
        self.available().take(count) + before.skip(count)
    }

    /// Creates the generator for `seed` and the range `[0, max_index]`.
    pub fn new(seed: &'a [u8], max_index: u8) -> (generator: PasswordGenerator<'a>)
        ensures
            generator.seed() == seed@,
            generator.max_index() == max_index,
    {
        let (mask, mask_size) = get_mask(max_index);
        PasswordGenerator { mask, mask_size, max_index, seed }
    }

    /// Writes the beginning of the index stream into `output`, as many
    /// indices as it has room for, and returns how many were written.
    ///
    /// Each call starts at the first digest word. The count is less than the
    /// length of `output` only where all the digest words that can be
    /// produced for the seed hold fewer indices than that; the rest of
    /// `output` is then left as it was.
    pub fn generate_assign(&self, output: &mut [u8]) -> (written: usize)
        ensures
            written == self.fill_count(old(output)@.len()),
            final(output)@ == self.filled(old(output)@),
            final(output)@.len() == old(output)@.len(),
            forall|i: int| 0 <= i < written ==> final(output)@[i] <= self.max_index(),
    {
        proof {
            use_type_invariant(self);
        }
        let ghost before = output@;
        let ghost width = self.mask_size as nat;
        let ghost all = self.available();
        let len = output.len();
        let limit: usize = usize::MAX - self.seed.len();
        let mut current_index: usize = 0;
        let mut nonce: usize = 0;
        proof {
            lemma_stream_in_range(self.seed@, limit as nat, self.max_index, self.mask, width);
            assert(output@ =~= all.take(0) + before.skip(0));
        }
        while current_index < len && nonce < limit
            invariant
                width == self.mask_size as nat,
                all == stream_upto(self.seed@, limit as nat, self.max_index, self.mask, width),
                limit == usize::MAX - self.seed@.len(),
                len == before.len(),
                nonce <= limit,
                current_index <= len,
                current_index <= all.len(),
                output@ == all.take(current_index as int) + before.skip(current_index as int),
                current_index < len ==> current_index == stream_upto(
                    self.seed@,
                    nonce as nat,
                    self.max_index,
                    self.mask,
                    width,
                ).len(),
            decreases limit - nonce,
        {
            let next_word = generate_word(self.seed, nonce);
            nonce += 1;
            let ghost upto = stream_upto(
                self.seed@,
                nonce as nat,
                self.max_index,
                self.mask,
                width,
            );
            proof {
                lemma_stream_extends(
                    self.seed@,
                    nonce as nat,
                    limit as nat,
                    self.max_index,
                    self.mask,
                    width,
                );
                lemma_stream_extends(
                    self.seed@,
                    (nonce - 1) as nat,
                    limit as nat,
                    self.max_index,
                    self.mask,
                    width,
                );
                assert(all.take(current_index as int) =~= stream_upto(
                    self.seed@,
                    (nonce - 1) as nat,
                    self.max_index,
                    self.mask,
                    width,
                ));
            }
            let mut current_offset: usize = 0;
            while current_index < len
                invariant
                    width == self.mask_size as nat,
                    len == before.len(),
                    next_word@.len() == 32,
                    current_offset <= 32,
                    current_index <= len,
                    current_index <= all.len(),
                    upto.is_prefix_of(all),
                    output@ == all.take(current_index as int) + before.skip(current_index as int),
                    upto == all.take(current_index as int) + word_indices(
                        next_word@,
                        current_offset as nat,
                        self.max_index,
                        self.mask,
                        width,
                    ),
                ensures
                    current_index < len ==> current_index == upto.len(),
                decreases 32 - current_offset,
            {
                proof {
                    lemma_scan_takes_head(
                        next_word@,
                        current_offset as nat,
                        self.max_index,
                        self.mask,
                        width,
                    );
                }
                match next_from_word(
                    &next_word,
                    current_offset,
                    self.max_index,
                    self.mask,
                    self.mask_size,
                ) {
                    Err(_) => {
                        proof {
                            assert(upto =~= all.take(current_index as int));
                        }
                        break ;
                    },
                    Ok((next_offset, character)) => {
                        proof {
                            let rest = word_indices(
                                next_word@,
                                next_offset as nat,
                                self.max_index,
                                self.mask,
                                width,
                            );
                            let taken = all.take(current_index as int);
                            assert(upto =~= taken.push(character) + rest);
                            assert(upto[current_index as int] == character);
                            assert(all[current_index as int] == character);
                            assert(all.take(current_index + 1) =~= taken.push(character));
                            assert(output@.update(current_index as int, character) =~= all.take(
                                current_index + 1,
                            ) + before.skip(current_index + 1));
                        }
                        output[current_index] = character;
                        current_offset = next_offset;
                        current_index += 1;
                    },
                }
            }
        }
        current_index
    }
}

} // verus!
