//! Alphabets: the characters that the generated indices select from.

use vstd::prelude::*;
use vstd::slice::slice_to_vec;
use vstd::string::is_ascii_spec_bytes;

verus! {

/// A class of characters that an alphabet can be made of.
#[derive(Clone, Copy, Debug)]
pub enum AlphabetsType<'a> {
    /// The lower-case letters `a` to `z`.
    Lowers,
    /// The upper-case letters `A` to `Z`.
    Uppers,
    /// The digits `0` to `9`.
    Numbers,
    /// A few symbols that most sites accept.
    BasicSymbols,
    /// Further symbols.
    MoreSymbols,
    /// The given bytes, as they are.
    Custom(&'a [u8]),
}

/// An alphabet: the bytes of its characters, in order.
#[derive(Debug)]
pub struct Alphabets {
    bytes: Vec<u8>,
}

impl View for Alphabets {
    type V = Seq<u8>;

    closed spec fn view(&self) -> Seq<u8> {
        self.bytes@
    }
}

/// The bytes of a sequence of ASCII characters.
pub open spec fn ascii_bytes(chars: Seq<char>) -> Seq<u8> {
    Seq::new(chars.len(), |i: int| chars[i] as u8)
}

/// The bytes that a class contributes to an alphabet.
pub open spec fn class_bytes(atype: AlphabetsType) -> Seq<u8> {
    match atype {
        AlphabetsType::Lowers => ascii_bytes("abcdefghijklmnopqrstuvwxyz"@),
        AlphabetsType::Uppers => ascii_bytes("ABCDEFGHIJKLMNOPQRSTUVWXYZ"@),
        AlphabetsType::Numbers => ascii_bytes("0123456789"@),
        AlphabetsType::BasicSymbols => ascii_bytes("!@$&=_?"@),
        AlphabetsType::MoreSymbols => ascii_bytes("#$%^*()-+<>,./;:'\"[]{}|"@),
        AlphabetsType::Custom(customs) => customs@,
    }
}

/// The bytes of the first `count` classes of `classes`, one class after the
/// other.
pub open spec fn joined_classes(classes: Seq<AlphabetsType>, count: nat) -> Seq<u8>
    decreases count,
{
    if count == 0 || count > classes.len() {
        Seq::empty()
    } else {
        joined_classes(classes, (count - 1) as nat) + class_bytes(classes[count - 1])
    }
}

/// The sizes of the five fixed classes.
pub proof fn lemma_class_sizes()
    ensures
        class_bytes(AlphabetsType::Lowers).len() == 26,
        class_bytes(AlphabetsType::Uppers).len() == 26,
        class_bytes(AlphabetsType::Numbers).len() == 10,
        class_bytes(AlphabetsType::BasicSymbols).len() == 7,
        class_bytes(AlphabetsType::MoreSymbols).len() == 23,
{
    reveal_strlit("abcdefghijklmnopqrstuvwxyz");
    reveal_strlit("ABCDEFGHIJKLMNOPQRSTUVWXYZ");
    reveal_strlit("0123456789");
    reveal_strlit("!@$&=_?");
    reveal_strlit("#$%^*()-+<>,./;:'\"[]{}|");
}

/// The bytes of a string literal.
fn literal_bytes(text: &'static str) -> (bytes: Vec<u8>)
    requires
        text.is_ascii(),
    ensures
        bytes@ == ascii_bytes(text@),
{
    proof {
        is_ascii_spec_bytes(text);
    }
    slice_to_vec(text.as_bytes())
}

/// The alphabet of a single class.
pub fn from_type(atype: AlphabetsType) -> (alphabet: Alphabets)
    ensures
        alphabet@ == class_bytes(atype),
{
    proof {
        reveal_strlit("abcdefghijklmnopqrstuvwxyz");
        reveal_strlit("ABCDEFGHIJKLMNOPQRSTUVWXYZ");
        reveal_strlit("0123456789");
        reveal_strlit("!@$&=_?");
        reveal_strlit("#$%^*()-+<>,./;:'\"[]{}|");
    }
    let bytes = match atype {
        AlphabetsType::Lowers => literal_bytes("abcdefghijklmnopqrstuvwxyz"),
        AlphabetsType::Uppers => literal_bytes("ABCDEFGHIJKLMNOPQRSTUVWXYZ"),
        AlphabetsType::Numbers => literal_bytes("0123456789"),
        AlphabetsType::BasicSymbols => literal_bytes("!@$&=_?"),
        AlphabetsType::MoreSymbols => literal_bytes("#$%^*()-+<>,./;:'\"[]{}|"),
        AlphabetsType::Custom(customs) => slice_to_vec(customs),
    };
    Alphabets { bytes }
}

impl Alphabets {
    /// The alphabet made of the given classes, one after the other.
    pub fn new(alphabets: &[AlphabetsType]) -> (alphabet: Alphabets)
        ensures
            alphabet@ == joined_classes(alphabets@, alphabets@.len()),
    {
        let mut bytes: Vec<u8> = Vec::new();
        let mut i: usize = 0;
        while i < alphabets.len()
            invariant
                i <= alphabets@.len(),
                bytes@ == joined_classes(alphabets@, i as nat),
            decreases alphabets.len() - i,
        {
            let class = from_type(alphabets[i]);
            let ghost before = bytes@;
            bytes.extend_from_slice(class.bytes.as_slice());
            proof {
                assert(bytes@ =~= before + class_bytes(alphabets@[i as int]));
            }
            i += 1;
        }
        Alphabets { bytes }
    }

    /// The bytes of the alphabet.
    pub fn as_bytes(&self) -> (bytes: &[u8])
        ensures
            bytes@ == self@,
    {
        self.bytes.as_slice()
    }

    /// The largest index into the alphabet, where the alphabet is not empty
    /// and a byte can hold that index.
    pub fn max_index(&self) -> (max_index: Option<u8>)
        ensures
            max_index == if 1 <= self@.len() <= 256 {
                Some((self@.len() - 1) as u8)
            } else {
                None::<u8>
            },
    {
        let len = self.bytes.len();
        if 1 <= len && len <= 256 {
            Some((len - 1) as u8)
        } else {
            None
        }
    }
}

} // verus!
