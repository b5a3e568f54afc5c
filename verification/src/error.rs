//! The errors of decoding and encoding.

use crate::primitives::character::error::CharacterError;
use vstd::prelude::*;

verus! {

/// Why a value could not be decoded.
#[derive(Debug, Clone, Copy, PartialEq, Eq)]
pub enum DecodeError {
    /// The buffer ends before the field does. Holds the width of the field
    /// in bits.
    Incomplete(usize),
    /// A character code outside the allowed set.
    CharacterError(CharacterError),
    /// A length prefix above the capacity of its string class.
    LengthError(usize),
    /// A message whose leading byte names no message body.
    UnknownDiscriminant(u8),
}

/// Why a value could not be encoded.
#[derive(Debug, Clone, Copy, PartialEq, Eq)]
pub enum EncodeError {
    /// A character code outside the allowed set.
    CharacterError(CharacterError),
    /// More elements than the length prefix can announce.
    LengthError(usize),
}

/// Why a string is no text: its bytes are not UTF-8.
#[derive(Debug, Clone, Copy, PartialEq, Eq)]
pub struct TextConversionError;

} // verus!
