//! The sequence of digest words that a seed gives rise to.

use sha2::{Digest, Sha256};
use vstd::prelude::*;

verus! {

/// The SHA-256 digest of a byte string.
pub uninterp spec fn sha256(data: Seq<u8>) -> Seq<u8>;

/// The counting bytes `0, 1, 2, ..` of length `nonce`, each taken modulo 256.
pub open spec fn counting_prefix(nonce: nat) -> Seq<u8> {
    Seq::new(nonce, |i: int| (i % 256) as u8)
}

/// What is hashed for the word with number `nonce`: the seed, followed by
/// `nonce` counting bytes.
pub open spec fn digest_input(seed: Seq<u8>, nonce: nat) -> Seq<u8> {
    seed + counting_prefix(nonce)
}

/// The digest word with number `nonce` of the seed's sequence.
pub open spec fn digest_word(seed: Seq<u8>, nonce: nat) -> Seq<u8> {
    sha256(digest_input(seed, nonce))
}

/// The input of a word is the input of the word before it, with one more
/// counting byte behind it.
pub proof fn lemma_digest_input_grows(seed: Seq<u8>, nonce: nat)
    ensures
        digest_input(seed, nonce + 1) == digest_input(seed, nonce).push((nonce % 256) as u8),
        digest_input(seed, 0) == seed,
        digest_input(seed, nonce).len() == seed.len() + nonce,
{
    assert(digest_input(seed, nonce + 1) =~= digest_input(seed, nonce).push((nonce % 256) as u8));
    assert(digest_input(seed, 0) =~= seed);
}

/// Hashes `data` with `sha2::Sha256::digest` and hands the 32 bytes of the
/// digest back as an array. The digest is taken to be the function `sha256`
/// of the bytes of `data`; nothing more is claimed of it.
#[verifier::external_body]
fn sha256_digest(data: &[u8]) -> (out: [u8; 32])
    ensures
        out@ == sha256(data@),
{
    Sha256::digest(data).into()
}

/// Produces the digest word with number `nonce` for `seed`.
pub fn generate_word(seed: &[u8], nonce: usize) -> (word: [u8; 32])
    requires
        seed@.len() + nonce <= usize::MAX,
    ensures
        word@ == digest_word(seed@, nonce as nat),
{
    let mut data: Vec<u8> = Vec::new();
    data.extend_from_slice(seed);
    proof {
        lemma_digest_input_grows(seed@, 0);
    }
    let mut i: usize = 0;
    while i < nonce
        invariant
            i <= nonce,
            data@ == digest_input(seed@, i as nat),
        decreases nonce - i,
    {
        proof {
            lemma_digest_input_grows(seed@, i as nat);
        }
        let value: u8 = (i % 256) as u8;
        data.push(value);
        i += 1;
    }
    sha256_digest(data.as_slice())
}

} // verus!
