//! The identifier of a domain object: 32 bytes, written as Base58 or Base64
//! text where text is needed.

pub mod errors;

use vstd::prelude::*;
use crate::util::string_encoding;
use crate::util::string_encoding::{DecodeError, Encoding};
use crate::util::text::same_text;
use errors::IdentifierError;

verus! {

/// An opaque value of exactly 32 bytes.
#[derive(Clone, Copy, Debug, PartialEq, Eq)]
pub struct Identifier {
    buffer: [u8; 32],
}

/// What an identifier is made from: a text in some encoding, or the bytes
/// themselves.
#[derive(Debug, PartialEq, Eq)]
pub enum IdentifierSource {
    /// The identifier as text.
    String(String),
    /// The identifier's bytes.
    Buffer(Vec<u8>),
}

impl View for Identifier {
    type V = Seq<u8>;

    /// The bytes of the identifier.
    closed spec fn view(&self) -> Seq<u8> {
        self.buffer@
    }
}

/// What making an identifier gave, with the identifier seen as its bytes.
pub open spec fn outcome(result: Result<Identifier, IdentifierError>) -> Result<
    Seq<u8>,
    IdentifierError,
> {
    match result {
        Ok(identifier) => Ok(identifier@),
        Err(error) => Err(error),
    }
}

/// The length gate: 32 bytes make an identifier, no other number does.
pub open spec fn checked(bytes: Seq<u8>) -> Result<Seq<u8>, IdentifierError> {
    if bytes.len() == 32 {
        Ok(bytes)
    } else {
        Err(IdentifierError::InvalidLength)
    }
}

/// What a text gives when read in `encoding`: it is decoded first, and what
/// was decoded then passes the length gate.
pub open spec fn parsed(text: Seq<char>, encoding: Encoding) -> Result<Seq<u8>, IdentifierError> {
    match string_encoding::decoded(text, encoding) {
        Some(bytes) => checked(bytes),
        None => Err(IdentifierError::Decode(DecodeError { encoding })),
    }
}

/// The characters of a name that may be absent.
pub open spec fn name_text(name: Option<&str>) -> Option<Seq<char>> {
    match name {
        Some(name) => Some(name@),
        None => None,
    }
}

/// The encoding that a name selects: none selects Base58, `base58` selects
/// Base58, and every other name selects Base64.
pub open spec fn named_encoding(name: Option<Seq<char>>) -> Encoding {
    match name {
        Some(name) => if name == "base58"@ {
            Encoding::Base58
        } else {
            Encoding::Base64
        },
        None => Encoding::Base58,
    }
}

/// Resolves the name of an encoding, as [`named_encoding`] says.
pub fn encoding_string_to_encoding(encoding_string: Option<&str>) -> (encoding: Encoding)
    ensures
        encoding == named_encoding(name_text(encoding_string)),
{
    match encoding_string {
        Some(name) => {
            if same_text(name, "base58") {
                Encoding::Base58
            } else {
                Encoding::Base64
            }
        },
        None => Encoding::Base58,
    }
}

impl Identifier {
    fn new(buffer: [u8; 32]) -> (identifier: Identifier)
        ensures
            identifier@ == buffer@,
    {
        Identifier { buffer }
    }

    /// Reads an identifier from text in `encoding`. The length is looked at
    /// after decoding: a text that cannot be read fails as such, whatever its
    /// length.
    pub fn from_string(encoded_value: &str, encoding: Encoding) -> (result: Result<
        Identifier,
        IdentifierError,
    >)
        ensures
            outcome(result) == parsed(encoded_value@, encoding),
    {
        match string_encoding::decode(encoded_value, encoding) {
            Ok(bytes) => Identifier::from_bytes(bytes.as_slice()),
            Err(error) => Err(IdentifierError::from(error)),
        }
    }

    /// Reads an identifier from text in the encoding that `encoding_string`
    /// names.
    pub fn from_string_with_encoding_string(
        encoded_value: &str,
        encoding_string: Option<&str>,
    ) -> (result: Result<Identifier, IdentifierError>)
        ensures
            outcome(result) == parsed(encoded_value@, named_encoding(name_text(encoding_string))),
    {
        let encoding = encoding_string_to_encoding(encoding_string);
        Identifier::from_string(encoded_value, encoding)
    }

    /// Makes an identifier from exactly 32 bytes.
    pub fn from_bytes(bytes: &[u8]) -> (result: Result<Identifier, IdentifierError>)
        ensures
            outcome(result) == checked(bytes@),
    {
        if bytes.len() != 32 {
            return Err(IdentifierError::InvalidLength);
        }
        let mut buffer = [0u8; 32];
        let mut i: usize = 0;
        while i < 32
            invariant
                i <= 32,
                bytes@.len() == 32,
                forall|k: int| 0 <= k < i ==> buffer@[k] == bytes@[k],
            decreases 32 - i,
        {
            buffer[i] = bytes[i];
            i += 1;
        }
        proof {
            assert(buffer@ =~= bytes@);
        }
        Ok(Identifier::new(buffer))
    }

    /// Makes an identifier from either kind of source; a text is read in the
    /// encoding that `encoding_string` names.
    pub fn from_source(source: &IdentifierSource, encoding_string: Option<&str>) -> (result:
        Result<Identifier, IdentifierError>)
        ensures
            outcome(result) == match *source {
                IdentifierSource::String(text) => parsed(
                    text@,
                    named_encoding(name_text(encoding_string)),
                ),
                IdentifierSource::Buffer(bytes) => checked(bytes@),
            },
    {
        match source {
            IdentifierSource::String(text) => Identifier::from_string_with_encoding_string(
                text.as_str(),
                encoding_string,
            ),
            IdentifierSource::Buffer(bytes) => Identifier::from_bytes(bytes.as_slice()),
        }
    }

    /// A copy of the 32 bytes.
    pub fn to_buffer(&self) -> (buffer: [u8; 32])
        ensures
            buffer@ == self@,
    {
        self.buffer
    }

    /// The identifier as text in `encoding`.
    pub fn to_string(&self, encoding: Encoding) -> (text: String)
        ensures
            text@ == string_encoding::encoded(self@, encoding),
    {
        string_encoding::encode(self.buffer.as_slice(), encoding)
    }

    /// The identifier as text in the encoding that `encoding_string` names.
    pub fn to_string_with_encoding_string(&self, encoding_string: Option<&str>) -> (text: String)
        ensures
            text@ == string_encoding::encoded(self@, named_encoding(name_text(encoding_string))),
    {
        let encoding = encoding_string_to_encoding(encoding_string);
        self.to_string(encoding)
    }
}

impl Identifier {
    /// Every identifier holds exactly 32 bytes.
    pub proof fn lemma_length(self)
        ensures
            self@.len() == 32,
    {
    }
}

/// Bytes to identifier and back: where `from_bytes` gave `made` for 32 bytes
/// and `to_buffer` gave `buffer` for what was made, `buffer` holds these bytes.
pub proof fn lemma_from_bytes_to_buffer(
    bytes: Seq<u8>,
    made: Result<Identifier, IdentifierError>,
    buffer: [u8; 32],
)
    requires
        bytes.len() == 32,
        outcome(made) == checked(bytes),
        made matches Ok(identifier) ==> buffer@ == identifier@,
    ensures
        made is Ok,
        buffer@ == bytes,
{
}

/// The length gate: bytes of any length but 32 make no identifier, and the
/// error says so.
pub proof fn lemma_length_gate(bytes: Seq<u8>, made: Result<Identifier, IdentifierError>)
    requires
        outcome(made) == checked(bytes),
    ensures
        made is Ok <==> bytes.len() == 32,
        bytes.len() != 32 ==> made == Err::<Identifier, IdentifierError>(
            IdentifierError::InvalidLength,
        ),
{
}

/// Identifier to text and back: the text of an identifier, read in the
/// encoding it was written in, gives the bytes of that identifier.
pub proof fn lemma_text_round_trip(identifier: Identifier, encoding: Encoding)
    ensures
        parsed(string_encoding::encoded(identifier@, encoding), encoding) == Ok::<
            Seq<u8>,
            IdentifierError,
        >(identifier@),
{
    string_encoding::lemma_decode_encode(identifier@, encoding);
}

/// A text that holds a character from outside the alphabet of the encoding
/// makes no identifier, whatever its length: reading it fails as a text that
/// could not be decoded.
pub proof fn lemma_foreign_character(text: Seq<char>, encoding: Encoding, i: int)
    requires
        0 <= i < text.len(),
        !string_encoding::in_alphabet(text[i], encoding),
    ensures
        parsed(text, encoding) == Err::<Seq<u8>, IdentifierError>(
            IdentifierError::Decode(DecodeError { encoding }),
        ),
{
    string_encoding::lemma_foreign_character(text, encoding, i);
}

/// The default policy: with no name, and with the name `base58`, a text is
/// read as Base58; with any other name it is read as Base64.
pub proof fn lemma_default_policy(text: Seq<char>, name: Seq<char>)
    ensures
        parsed(text, named_encoding(None)) == parsed(text, Encoding::Base58),
        parsed(text, named_encoding(Some("base58"@))) == parsed(text, Encoding::Base58),
        name != "base58"@ ==> parsed(text, named_encoding(Some(name))) == parsed(
            text,
            Encoding::Base64,
        ),
{
}

/// Results with the same outcome are the same result: the bytes are all
/// there is to an identifier.
pub proof fn lemma_same_outcome(
    left: Result<Identifier, IdentifierError>,
    right: Result<Identifier, IdentifierError>,
)
    requires
        outcome(left) == outcome(right),
    ensures
        left == right,
{
    if let (Ok(a), Ok(b)) = (left, right) {
        assert(a.buffer@ == b.buffer@);
        assert(a.buffer == b.buffer);
    }
}

} // verus!
