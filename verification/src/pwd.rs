//! What a password is generated for.

use crate::alphabet::Alphabets;
use vstd::prelude::*;

verus! {

/// The secret that all passwords of one owner are derived from.
pub type MasterKey = String;

/// The account that a password belongs to, and the alphabet that the
/// password is written in.
pub struct PasswordSource {
    username: String,
    domain: String,
    alphabets: Alphabets,
}

impl PasswordSource {
    /// The name of the account.
    pub closed spec fn username(self) -> Seq<char> {
        self.username@
    }

    /// The domain that the account is held at.
    pub closed spec fn domain(self) -> Seq<char> {
        self.domain@
    }

    /// The bytes of the alphabet.
    pub closed spec fn alphabet(self) -> Seq<u8> {
        self.alphabets@
    }

    /// The source for the account `username` at `domain`, with passwords
    /// over `alphabets`.
    pub fn new(username: String, domain: String, alphabets: Alphabets) -> (source: PasswordSource)
        ensures
            source.username() == username@,
            source.domain() == domain@,
            source.alphabet() == alphabets@,
    {
        PasswordSource { username, domain, alphabets }
    }
}

/// The generator of passwords that depend on nothing but their source.
pub struct DeterministicPwdGen {}

impl DeterministicPwdGen {
    /// Accepts a source and leaves it as it is. Nothing is derived from it
    /// here: the seed of a source is the caller's to form, and the indices
    /// for it come from a `PasswordGenerator`.
    pub fn gen(&self, source: &PasswordSource) {
    }
}

} // verus!
