//! Text encodings of byte strings: Base58 and Base64 behind one pair of
//! functions.

use vstd::prelude::*;
use crate::util::base58;
use crate::util::base64;

verus! {

/// A reversible way to write bytes as text.
#[derive(Clone, Copy, Debug, PartialEq, Eq, Structural)]
pub enum Encoding {
    /// Base58 with the Bitcoin alphabet, without padding.
    Base58,
    /// Base64 with the standard alphabet, with padding.
    Base64,
}

/// A text was not well formed in the encoding it was read in.
#[derive(Clone, Copy, Debug, PartialEq, Eq, Structural)]
pub struct DecodeError {
    /// The encoding that the text was read in.
    pub encoding: Encoding,
}

impl DecodeError {
    /// The words of [`DecodeError::message`].
    pub open spec fn message_text(self) -> Seq<char> {
        match self.encoding {
            Encoding::Base58 => "Unable to decode Base58 string"@,
            Encoding::Base64 => "Unable to decode Base64 string"@,
        }
    }

    /// Says in words which encoding the text failed to meet.
    pub fn message(&self) -> (text: String)
        ensures
            text@ == self.message_text(),
    {
        match self.encoding {
            Encoding::Base58 => "Unable to decode Base58 string".to_owned(),
            Encoding::Base64 => "Unable to decode Base64 string".to_owned(),
        }
    }
}

/// The text that stands for `bytes` in `encoding`.
pub open spec fn encoded(bytes: Seq<u8>, encoding: Encoding) -> Seq<char> {
    match encoding {
        Encoding::Base58 => base58::encoded(bytes),
        Encoding::Base64 => base64::encoded(bytes),
    }
}

/// The bytes that `text` stands for in `encoding`, if it is well formed there.
pub open spec fn decoded(text: Seq<char>, encoding: Encoding) -> Option<Seq<u8>> {
    match encoding {
        Encoding::Base58 => base58::decoded(text),
        Encoding::Base64 => base64::decoded(text),
    }
}

/// Whether `c` may occur in a text of `encoding`.
pub open spec fn in_alphabet(c: char, encoding: Encoding) -> bool {
    match encoding {
        Encoding::Base58 => base58::is_symbol(c),
        Encoding::Base64 => base64::is_symbol(c) || c == '=',
    }
}

/// Decoding is the inverse of encoding: the text of any byte string, read in
/// the same encoding, gives that byte string.
pub proof fn lemma_decode_encode(bytes: Seq<u8>, encoding: Encoding)
    ensures
        decoded(encoded(bytes, encoding), encoding) == Some(bytes),
{
    match encoding {
        Encoding::Base58 => base58::lemma_decode_encode(bytes),
        Encoding::Base64 => base64::lemma_decode_encode(bytes),
    }
}

/// Encoding is the inverse of decoding: a text that can be read is the text
/// that the bytes read from it are written as. No two texts stand for the
/// same bytes.
pub proof fn lemma_encode_decode(text: Seq<char>, encoding: Encoding)
    requires
        decoded(text, encoding) is Some,
    ensures
        encoded(decoded(text, encoding)->0, encoding) == text,
{
    match encoding {
        Encoding::Base58 => base58::lemma_encode_decode(text),
        Encoding::Base64 => base64::lemma_encode_decode(text),
    }
}

/// The texts that can be read are exactly the texts that are written.
pub proof fn lemma_decoded_iff_encoded(text: Seq<char>, encoding: Encoding)
    ensures
        decoded(text, encoding) is Some <==> exists|bytes: Seq<u8>|
            #[trigger] encoded(bytes, encoding) == text,
{
    if decoded(text, encoding) is Some {
        lemma_encode_decode(text, encoding);
        assert(encoded(decoded(text, encoding)->0, encoding) == text);
    }
    if exists|bytes: Seq<u8>| #[trigger] encoded(bytes, encoding) == text {
        let bytes = choose|bytes: Seq<u8>| #[trigger] encoded(bytes, encoding) == text;
        lemma_decode_encode(bytes, encoding);
    }
}

/// A text that holds a character from outside the alphabet of the encoding
/// stands for no byte string.
pub proof fn lemma_foreign_character(text: Seq<char>, encoding: Encoding, i: int)
    requires
        0 <= i < text.len(),
        !in_alphabet(text[i], encoding),
    ensures
        decoded(text, encoding) is None,
{
}

/// Writes `value` as text in `encoding`.
pub fn encode(value: &[u8], encoding: Encoding) -> (text: String)
    ensures
        text@ == encoded(value@, encoding),
{
    match encoding {
        Encoding::Base58 => base58::encode(value),
        Encoding::Base64 => base64::encode(value),
    }
}

/// Reads `encoded_value` as text in `encoding`. Fails if it holds a character
/// from outside the alphabet of `encoding`, or is not padded as `encoding`
/// asks. The length of what is read is not looked at.
pub fn decode(encoded_value: &str, encoding: Encoding) -> (result: Result<Vec<u8>, DecodeError>)
    ensures
        match result {
            Ok(bytes) => decoded(encoded_value@, encoding) == Some(bytes@),
            Err(error) => decoded(encoded_value@, encoding) is None && error == (DecodeError {
                encoding,
            }),
        },
{
    let found = match encoding {
        Encoding::Base58 => base58::decode(encoded_value),
        Encoding::Base64 => base64::decode(encoded_value),
    };
    match found {
        Some(bytes) => Ok(bytes),
        None => Err(DecodeError { encoding }),
    }
}

} // verus!
