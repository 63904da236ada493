//! The ways in which decoding a compressed stream can fail.

use vstd::prelude::*;

verus! {

/// Why a stream could not be decoded. Every decoding function of this library
/// returns one of these instead of panicking on bad input.
#[derive(Clone, Copy, Debug, PartialEq, Eq, Structural)]
pub enum DecodeError {
    /// The bits ran out where a tree node or a symbol had to start or go on.
    UnexpectedEndOfInput,
    /// The bits ran out inside the fixed-width pattern of a symbol.
    IncompleteSymbol,
    /// A dictionary token points at an entry that was never registered.
    InvalidDictionaryReference,
    /// The token stream does not have the shape the decoder needs.
    MalformedTokenStream,
}

impl DecodeError {
    /// The description of the error, as characters.
    pub open spec fn message_text(self) -> Seq<char> {
        match self {
            DecodeError::UnexpectedEndOfInput => "unexpected end of input"@,
            DecodeError::IncompleteSymbol => "incomplete symbol"@,
            DecodeError::InvalidDictionaryReference => "invalid dictionary reference"@,
            DecodeError::MalformedTokenStream => "malformed token stream"@,
        }
    }

    /// A short description of the error.
    pub fn message(&self) -> (text: &'static str)
        ensures
            text@ == self.message_text(),
    {
        match self {
            DecodeError::UnexpectedEndOfInput => "unexpected end of input",
            DecodeError::IncompleteSymbol => "incomplete symbol",
            DecodeError::InvalidDictionaryReference => "invalid dictionary reference",
            DecodeError::MalformedTokenStream => "malformed token stream",
        }
    }
}

} // verus!
