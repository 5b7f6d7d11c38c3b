//! Errors of the bencode codec.

use vstd::prelude::*;

verus! {

/// Why a bencode document failed to decode.
#[derive(Debug, Clone, Copy, PartialEq, Eq, Structural)]
pub enum BencodeError {
    /// A dictionary key was not valid UTF-8.
    Utf8,
    /// An integer field was empty, malformed, or out of range.
    IntError,
    DictionaryKeyNotString,
    UnexpectedCharacter(usize),
    UnexpectedEndOfInput,
}

impl BencodeError {
    /// A short description of the error.
    pub fn description(&self) -> (r: &'static str)
        ensures
            *self == BencodeError::Utf8 ==> r@ == "Dictionary key was not valid utf8"@,
            *self == BencodeError::IntError ==> r@ == "Malformed integer"@,
            *self == BencodeError::DictionaryKeyNotString ==> r@
                == "Dictionary key was not a string"@,
            (self matches BencodeError::UnexpectedCharacter(_)) ==> r@ == "Unexpected character"@,
            *self == BencodeError::UnexpectedEndOfInput ==> r@ == "Unexpected end of input"@,
    {
        match *self {
            BencodeError::Utf8 => "Dictionary key was not valid utf8",
            BencodeError::IntError => "Malformed integer",
            BencodeError::DictionaryKeyNotString => "Dictionary key was not a string",
            BencodeError::UnexpectedCharacter(_) => "Unexpected character",
            BencodeError::UnexpectedEndOfInput => "Unexpected end of input",
        }
    }
}

} // verus!
