//! The operations of a character.

use super::bitmap::{is_allowed, BitMap};
use super::error::CharacterError;
use super::Character;
use crate::error::{DecodeError, EncodeError};
use crate::primitives::bits::{
    appended, byte_at, decoded, encoded, read_u8, readable, rest, write_u8,
};
use std::convert::TryFrom;
use std::ops::Deref;
use vstd::prelude::*;
use vstd::std_specs::cmp::PartialEqSpecImpl;
use vstd::std_specs::convert::TryFromSpecImpl;

verus! {

impl Deref for Character {
    type Target = u8;

    fn deref(&self) -> (r: &u8)
        ensures
            *r == self.0,
    {
        &self.0
    }
}

impl AsRef<u8> for Character {
    fn as_ref(&self) -> (r: &u8)
        ensures
            *r == self.0,
    {
        &self.0
    }
}

impl PartialEq for Character {
    fn eq(&self, other: &Self) -> (r: bool)
        ensures
            r == (self.0 == other.0),
    {
        self.0 == other.0
    }

    fn ne(&self, other: &Self) -> (r: bool)
        ensures
            r == (self.0 != other.0),
    {
        self.0 != other.0
    }
}

impl PartialEqSpecImpl for Character {
    open spec fn obeys_eq_spec() -> bool {
        true
    }

    open spec fn eq_spec(&self, other: &Self) -> bool {
        self.0 == other.0
    }
}

impl TryFrom<u8> for Character {
    type Error = CharacterError;

    /// The character of code `value`, if the code is allowed.
    fn try_from(value: u8) -> (r: Result<Self, CharacterError>)
        ensures
            is_allowed(value) ==> r == Ok::<Character, CharacterError>(Character(value)),
            !is_allowed(value) ==> r == Err::<Character, CharacterError>(
                CharacterError::DisallowedCharCode(value),
            ),
    {
        if !BitMap::allowed().check(value) {
            return Err(CharacterError::DisallowedCharCode(value));
        }
        Ok(Self(value))
    }
}

impl TryFromSpecImpl<u8> for Character {
    open spec fn obeys_try_from_spec() -> bool {
        true
    }

    open spec fn try_from_spec(value: u8) -> Result<Self, CharacterError> {
        if is_allowed(value) {
            Ok(Character(value))
        } else {
            Err(CharacterError::DisallowedCharCode(value))
        }
    }
}

impl Character {
    /// Whether the byte is of the allowed set.
    pub open spec fn is_valid(&self) -> bool {
        is_allowed(self.0)
    }

    /// What reading a character at bit `offset` of `bytes` gives: the
    /// character and the offset behind it, or the reason for none.
    pub open spec fn spec_read(bytes: Seq<u8>, offset: int) -> Result<
        (Character, int),
        DecodeError,
    > {
        if !readable(bytes, offset, 8) {
            Err(DecodeError::Incomplete(8))
        } else if !is_allowed(byte_at(bytes, offset)) {
            Err(
                DecodeError::CharacterError(
                    CharacterError::DisallowedCharCode(byte_at(bytes, offset)),
                ),
            )
        } else {
            Ok((Character(byte_at(bytes, offset)), offset + 8))
        }
    }

    /// The byte that stands for the character on the wire, or the reason
    /// why it has none.
    pub open spec fn spec_write(&self) -> Result<Seq<u8>, EncodeError> {
        if is_allowed(self.0) {
            Ok(seq![self.0])
        } else {
            Err(EncodeError::CharacterError(CharacterError::DisallowedCharCode(self.0)))
        }
    }

    /// Reads one character at bit `offset` of `input`.
    pub fn read(input: &[u8], offset: usize) -> (r: Result<(Character, usize), DecodeError>)
        ensures
            decoded(r) == Self::spec_read(input@, offset as int),
            r matches Ok((c, _)) ==> c.is_valid(),
    {
        match read_u8(input, offset) {
            Ok((val, next)) => match Character::try_from(val) {
                Ok(c) => Ok((c, next)),
                Err(e) => Err(DecodeError::CharacterError(e)),
            },
            Err(e) => Err(e),
        }
    }

    /// Appends the character's byte to `output`, after testing it once more.
    /// A failed call leaves `output` as it was.
    pub fn write(&self, output: &mut Vec<u8>) -> (r: Result<(), EncodeError>)
        ensures
            appended(old(output)@, final(output)@, r, self.spec_write()),
            r is Ok <==> self.is_valid(),
    {
        if !BitMap::allowed().check(self.0) {
            return Err(EncodeError::CharacterError(CharacterError::DisallowedCharCode(self.0)));
        }
        write_u8(self.0, output);
        assert(output@ =~= old(output)@ + seq![self.0]);
        Ok(())
    }

    /// Reads one character from `input`, a buffer and a bit offset into it,
    /// and returns it with what is left of the buffer.
    pub fn from_bytes<'a>(input: (&'a [u8], usize)) -> (r: Result<
        ((&'a [u8], usize), Character),
        DecodeError,
    >)
        ensures
            match r {
                Ok(((tail, bit), value)) => {
                    &&& Self::spec_read(input.0@, input.1 as int) matches Ok((c, next))
                    &&& value == c
                    &&& value.is_valid()
                    &&& tail@ == input.0@.skip(next / 8)
                    &&& bit == next % 8
                },
                Err(e) => Self::spec_read(input.0@, input.1 as int) == Err::<
                    (Character, int),
                    DecodeError,
                >(e),
            },
    {
        match Self::read(input.0, input.1) {
            Ok((value, next)) => Ok((rest(input.0, next), value)),
            Err(e) => Err(e),
        }
    }

    /// The character as the bytes that stand for it on the wire.
    pub fn to_bytes(&self) -> (r: Result<Vec<u8>, EncodeError>)
        ensures
            encoded(r, self.spec_write()),
            r is Ok <==> self.is_valid(),
    {
        let mut output: Vec<u8> = Vec::new();
        match self.write(&mut output) {
            Ok(()) => Ok(output),
            Err(e) => Err(e),
        }
    }
}

} // verus!
