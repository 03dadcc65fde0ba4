//! Errors reported by the cipher.

use vstd::prelude::*;
use vstd::string::StringExecFns;
use crate::text::{decimal_text, push_decimal};

verus! {

/// Why a decimal string could not be read as a byte.
#[derive(Debug, Clone, Copy, PartialEq, Eq, Structural)]
pub enum ParseFailure {
    /// The string holds no character.
    Empty,
    /// The string holds something other than decimal digits after an
    /// optional leading `+`.
    InvalidDigit,
    /// The number is larger than 255.
    Overflow,
}

/// What can go wrong in making or using a cipher.
#[derive(Debug, Clone, Copy, PartialEq, Eq, Structural)]
pub enum CipherError {
    /// The key does not consist of exactly four symbols.
    InvalidKey,
    /// The initialization value is not well formed.
    InvalidIV,
    /// A decimal string of the key or of the initialization value could not
    /// be read as a byte.
    ParseIntError(ParseFailure),
    /// A character occurs twice in an encoding table.
    MalformedEncoding,
    /// The initialization value is not below the given table size.
    IVOutOfBounds(u8),
    /// The key symbol at the given index is not below the given table size.
    KeyOutOfBounds(u8, u8),
}

impl ParseFailure {
    /// The message of the failure.
    pub open spec fn message_text(self) -> Seq<char> {
        match self {
            ParseFailure::Empty => "cannot parse integer from empty string"@,
            ParseFailure::InvalidDigit => "invalid digit found in string"@,
            ParseFailure::Overflow => "number too large to fit in target type"@,
        }
    }

    /// Says in words why the string denotes no byte.
    pub fn message(&self) -> (text: String)
        ensures
            text@ == self.message_text(),
    {
        match self {
            ParseFailure::Empty => String::from_str("cannot parse integer from empty string"),
            ParseFailure::InvalidDigit => String::from_str("invalid digit found in string"),
            ParseFailure::Overflow => String::from_str("number too large to fit in target type"),
        }
    }
}

impl CipherError {
    /// The message of the error.
    pub open spec fn message_text(self) -> Seq<char> {
        match self {
            CipherError::InvalidKey => "Invalid Key"@,
            CipherError::InvalidIV => "Invalid IV"@,
            CipherError::ParseIntError(failure) => failure.message_text(),
            CipherError::MalformedEncoding => "Malformed encoding: each character must be unique"@,
            CipherError::IVOutOfBounds(bound) => "IV must be within "@ + decimal_text(bound),
            CipherError::KeyOutOfBounds(chunk, bound) => "Key chunk "@ + decimal_text(chunk)
                + " out of bounds: "@ + decimal_text(bound),
        }
    }

    /// Says in words what went wrong.
    pub fn message(&self) -> (text: String)
        ensures
            text@ == self.message_text(),
    {
        match self {
            CipherError::InvalidKey => String::from_str("Invalid Key"),
            CipherError::InvalidIV => String::from_str("Invalid IV"),
            CipherError::ParseIntError(failure) => failure.message(),
            CipherError::MalformedEncoding => String::from_str(
                "Malformed encoding: each character must be unique",
            ),
            CipherError::IVOutOfBounds(bound) => {
                let mut text: String = String::from_str("IV must be within ");
                push_decimal(&mut text, *bound);
                text
            },
            CipherError::KeyOutOfBounds(chunk, bound) => {
                let mut text: String = String::from_str("Key chunk ");
                push_decimal(&mut text, *chunk);
                text.append(" out of bounds: ");
                push_decimal(&mut text, *bound);
                text
            },
        }
    }
}

} // verus!
