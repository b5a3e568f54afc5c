//! The error of character validation.

use crate::primitives::numerals::{push_upper_hex, upper_hex};
use vstd::prelude::*;
use vstd::string::StringExecFns;

verus! {

/// Why a byte is no character.
#[derive(Debug, Clone, Copy, PartialEq, Eq)]
pub enum CharacterError {
    /// The byte is outside the allowed set.
    DisallowedCharCode(u8),
}

impl CharacterError {
    /// The message of the error: the code in hexadecimal, and that it is
    /// not allowed.
    pub open spec fn message(&self) -> Seq<char> {
        match self {
            CharacterError::DisallowedCharCode(char_code) => "Character code 0x"@ + upper_hex(
                *char_code as nat,
            ) + " is not allowed"@,
        }
    }

    /// The error in words.
    pub fn to_string(&self) -> (r: String)
        ensures
            r@ == self.message(),
    {
        match self {
            CharacterError::DisallowedCharCode(char_code) => {
                let mut text = String::from_str("Character code 0x");
                push_upper_hex(*char_code, &mut text);
                text.append(" is not allowed");
                text
            },
        }
    }
}

} // verus!
