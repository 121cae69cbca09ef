//! Why an identifier could not be made.

use vstd::prelude::*;
use vstd::std_specs::convert::FromSpecImpl;
use crate::util::string_encoding::DecodeError;

verus! {

/// What was given does not make an identifier.
#[derive(Clone, Copy, Debug, PartialEq, Eq, Structural)]
pub enum IdentifierError {
    /// The bytes given, or read from a text, are not 32 bytes.
    InvalidLength,
    /// The text given could not be read in the encoding asked for.
    Decode(DecodeError),
}

impl IdentifierError {
    /// The words of [`IdentifierError::message`].
    pub open spec fn message_text(self) -> Seq<char> {
        match self {
            IdentifierError::InvalidLength => "Identifier must be 32 bytes long"@,
            IdentifierError::Decode(error) => error.message_text(),
        }
    }

    /// Says in words what was wrong.
    pub fn message(&self) -> (text: String)
        ensures
            text@ == self.message_text(),
    {
        match self {
            IdentifierError::InvalidLength => "Identifier must be 32 bytes long".to_owned(),
            IdentifierError::Decode(error) => error.message(),
        }
    }
}

impl From<DecodeError> for IdentifierError {
    fn from(error: DecodeError) -> (wrapped: IdentifierError) {
        IdentifierError::Decode(error)
    }
}

impl FromSpecImpl<DecodeError> for IdentifierError {
    open spec fn obeys_from_spec() -> bool {
        true
    }

    open spec fn from_spec(error: DecodeError) -> IdentifierError {
        IdentifierError::Decode(error)
    }
}

} // verus!
