//! The six string classes, and their making from raw bytes.
//!
//! The classes differ in their capacity alone, and with it in the number
//! of low bits of the prefix that hold the count.

use crate::error::{DecodeError, EncodeError, TextConversionError};
use crate::primitives::bits::{appended, encoded};
use crate::primitives::character::bitmap::is_allowed;
use crate::primitives::character::error::CharacterError;
use crate::primitives::character::Character;
use crate::primitives::numerals::{decimal, push_decimal};
use crate::primitives::string::{
    codes_of, first_disallowed, lemma_first_disallowed_none, lemma_first_disallowed_prefix,
    lemma_first_disallowed_push, live_count, read_string, spec_count_bits, spec_read_string,
    spec_write_string, string_from_bytes, string_to_bytes, string_to_text, text_of, valid_codes,
    write_string, SizedString,
};
use std::convert::TryFrom;
use vstd::arithmetic::power2::lemma2_to64;
use vstd::prelude::*;
use vstd::std_specs::convert::TryFromSpecImpl;
use vstd::string::StringExecFns;
use vstd::utf8::{decode_utf8, valid_utf8};

verus! {

/// Why raw bytes make no string.
#[derive(Debug, Clone, Copy, PartialEq, Eq)]
pub enum StringError {
    /// One of the bytes is no character.
    CharacterError(CharacterError),
    /// There are more bytes than the class can hold.
    LengthError(usize),
}

impl StringError {
    /// The message of the error: that of the character, or the length that
    /// was too much.
    pub open spec fn message(&self) -> Seq<char> {
        match self {
            StringError::CharacterError(e) => e.message(),
            StringError::LengthError(length) => "Trying initialize too long string ("@ + decimal(
                *length as nat,
            ) + ")"@,
        }
    }

    /// The error in words.
    pub fn to_string(&self) -> (r: String)
        ensures
            r@ == self.message(),
    {
        match self {
            StringError::CharacterError(e) => e.to_string(),
            StringError::LengthError(length) => {
                let mut text = String::from_str("Trying initialize too long string (");
                push_decimal(*length, &mut text);
                text.append(")");
                text
            },
        }
    }
}

/// The codes that make a string of capacity `max`, or the reason why
/// `raw` makes none: too many bytes, else the first byte that is no
/// character.
pub open spec fn spec_from_raw(raw: Seq<u8>, max: u8) -> Result<Seq<u8>, StringError> {
    if raw.len() > max {
        Err(StringError::LengthError(raw.len() as usize))
    } else {
        match first_disallowed(raw) {
            Some(code) => Err(
                StringError::CharacterError(CharacterError::DisallowedCharCode(code)),
            ),
            None => Ok(raw),
        }
    }
}

/// Raw bytes make a string exactly when they are valid for its class.
pub proof fn lemma_from_raw_accepts(raw: Seq<u8>, max: u8)
    ensures
        spec_from_raw(raw, max) is Ok <==> valid_codes(raw, max),
{
    lemma_first_disallowed_none(raw);
}

/// Rejection: raw bytes with a byte outside the allowed set make no string.
pub proof fn lemma_from_raw_rejects(raw: Seq<u8>, max: u8, index: int)
    requires
        0 <= index < raw.len(),
        !is_allowed(raw[index]),
    ensures
        spec_from_raw(raw, max) is Err,
{
    lemma_first_disallowed_none(raw);
}

/// The characters of the codes `value`, for a string of capacity `max`.
/// Fails when there are more than `max`, else at the first that is not
/// allowed.
pub fn characters_from_raw(value: Vec<u8>, max: u8) -> (r: Result<Vec<Character>, StringError>)
    ensures
        match r {
            Ok(data) => spec_from_raw(value@, max) == Ok::<Seq<u8>, StringError>(codes_of(data@))
                && valid_codes(codes_of(data@), max),
            Err(e) => spec_from_raw(value@, max) == Err::<Seq<u8>, StringError>(e),
        },
{
    if value.len() > max as usize {
        return Err(StringError::LengthError(value.len()));
    }
    let mut data: Vec<Character> = Vec::with_capacity(value.len());
    let mut i: usize = 0;
    assert(value@.take(0) =~= Seq::<u8>::empty());
    while i < value.len()
        invariant
            i <= value@.len() <= max,
            data@.len() == i,
            codes_of(data@) == value@.take(i as int),
            first_disallowed(value@.take(i as int)) is None,
            forall|k: int| 0 <= k < data@.len() ==> is_allowed(#[trigger] data@[k].0),
        decreases value@.len() - i,
    {
        proof {
            lemma_first_disallowed_push(value@.take(i as int), value@[i as int]);
            assert(value@.take(i + 1) =~= value@.take(i as int).push(value@[i as int]));
        }
        match Character::try_from(value[i]) {
            Ok(c) => {
                assert(codes_of(data@.push(c)) =~= value@.take(i + 1));
                data.push(c);
            },
            Err(e) => {
                proof {
                    lemma_first_disallowed_prefix(value@, i + 1);
                }
                return Err(StringError::CharacterError(e));
            },
        }
        i += 1;
    }
    assert(value@.take(i as int) =~= value@);
    Ok(data)
}

/// A string of up to 7 characters, counted in the 3 low bits of its
/// prefix.
///
/// `count` is the length as it was last read or brought up to date; it is
/// not written to the wire. Encoding counts the characters of `data` anew.
#[derive(Debug, PartialEq)]
pub struct String8 {
    pub count: u8,
    pub data: Vec<Character>,
}

impl View for String8 {
    type V = Seq<u8>;

    /// The codes of the characters.
    open spec fn view(&self) -> Seq<u8> {
        codes_of(self.data@)
    }
}

impl String8 {
    /// The capacity of the class.
    pub const MAX: usize = 7;

    /// The number of bits of the prefix that hold the count.
    pub const BITS: usize = 3;

    /// Whether the stored count is the number of characters.
    pub open spec fn is_synced(&self) -> bool {
        self.count == self.data@.len()
    }

    /// Whether the string is within capacity and made of allowed characters.
    pub open spec fn is_valid(&self) -> bool {
        valid_codes(self@, 7)
    }

    /// What reading a string of this class at bit `offset` of `bytes` gives.
    pub open spec fn spec_read(bytes: Seq<u8>, offset: int) -> Result<(Seq<u8>, int), DecodeError> {
        spec_read_string(bytes, offset, 3, 7)
    }

    /// The bytes that stand on the wire for a string of this class with the
    /// characters `codes`.
    pub open spec fn spec_write(codes: Seq<u8>) -> Result<Seq<u8>, EncodeError> {
        spec_write_string(codes, 3, 7)
    }

    /// Reads a string at bit `offset` of `input`.
    pub fn read(input: &[u8], offset: usize) -> (r: Result<(Self, usize), DecodeError>)
        ensures
            match r {
                Ok((value, next)) => Self::spec_read(input@, offset as int) == Ok::<
                    (Seq<u8>, int),
                    DecodeError,
                >((value@, next as int)) && value.is_synced() && value.is_valid(),
                Err(e) => Self::spec_read(input@, offset as int) == Err::<
                    (Seq<u8>, int),
                    DecodeError,
                >(e),
            },
    {
        let (count, data, next) = read_string(input, offset, 3, 7)?;
        Ok((Self { count, data }, next))
    }

    /// Appends the string to `output`, with the number of characters that
    /// `data` holds now, whatever `count` says. A failed call leaves
    /// `output` as it was.
    pub fn write(&self, output: &mut Vec<u8>) -> (r: Result<(), EncodeError>)
        ensures
            appended(old(output)@, final(output)@, r, Self::spec_write(self@)),
            r is Ok <==> self.is_valid(),
            r is Ok ==> final(output)@[old(output)@.len() as int] == self.data@.len(),
    {
        proof {
            lemma2_to64();
        }
        write_string(&self.data, 3, 7, output)
    }

    /// Reads a string from `input`, a buffer and a bit offset into it, and
    /// returns it with what is left of the buffer.
    pub fn from_bytes<'a>(input: (&'a [u8], usize)) -> (r: Result<
        ((&'a [u8], usize), Self),
        DecodeError,
    >)
        ensures
            match r {
                Ok(((tail, bit), value)) => {
                    &&& Self::spec_read(input.0@, input.1 as int) matches Ok((codes, next))
                    &&& value@ == codes
                    &&& value.is_synced()
                    &&& value.is_valid()
                    &&& tail@ == input.0@.skip(next / 8)
                    &&& bit == next % 8
                },
                Err(e) => Self::spec_read(input.0@, input.1 as int) == Err::<
                    (Seq<u8>, int),
                    DecodeError,
                >(e),
            },
    {
        let (tail, count, data) = string_from_bytes(input, 3, 7)?;
        Ok((tail, Self { count, data }))
    }

    /// The string as the bytes that stand for it on the wire. The first
    /// says how many characters `data` holds now, whatever `count` says.
    pub fn to_bytes(&self) -> (r: Result<Vec<u8>, EncodeError>)
        ensures
            encoded(r, Self::spec_write(self@)),
            r is Ok <==> self.is_valid(),
            r matches Ok(bytes) ==> bytes@.len() == self.data@.len() + 1 && bytes@[0]
                == self.data@.len(),
    {
        proof {
            lemma2_to64();
        }
        string_to_bytes(&self.data, 3, 7)
    }

    /// The string as text. Strings of allowed characters always have one.
    pub fn to_string(&self) -> (r: Result<String, TextConversionError>)
        ensures
            r is Ok <==> valid_utf8(self@),
            r matches Ok(text) ==> text@ == decode_utf8(self@),
            self.is_valid() ==> (r matches Ok(text) && text@ == text_of(self@)),
    {
        string_to_text(&self.data)
    }

    /// Brings the stored count up to date with the characters, whether or
    /// not the class can hold them. Fails, and changes nothing, when there
    /// are more than a byte can count.
    pub fn update(&mut self) -> (r: Result<(), EncodeError>)
        ensures
            final(self).data == old(self).data,
            old(self).data@.len() <= 255 ==> r is Ok && final(self).is_synced(),
            old(self).data@.len() > 255 ==> r == Err::<(), EncodeError>(
                EncodeError::LengthError(old(self).data@.len() as usize),
            ) && final(self).count == old(self).count,
    {
        self.count = live_count(&self.data)?;
        Ok(())
    }
}

impl TryFrom<Vec<u8>> for String8 {
    type Error = StringError;

    /// The string of the characters `value`. Fails when there are more
    /// than the class can hold, else at the first that is not allowed.
    fn try_from(value: Vec<u8>) -> (r: Result<Self, StringError>)
        ensures
            match r {
                Ok(string) => spec_from_raw(value@, 7) == Ok::<Seq<u8>, StringError>(string@)
                    && string.is_synced() && string.is_valid(),
                Err(e) => spec_from_raw(value@, 7) == Err::<Seq<u8>, StringError>(e),
            },
    {
        let data = characters_from_raw(value, 7)?;
        Ok(Self { count: data.len() as u8, data })
    }
}

/// A string holds a vector, which no specification can build: `try_from`
/// states what it returns in its own contract, over `spec_from_raw`.
impl TryFromSpecImpl<Vec<u8>> for String8 {
    open spec fn obeys_try_from_spec() -> bool {
        false
    }

    open spec fn try_from_spec(value: Vec<u8>) -> Result<Self, StringError> {
        arbitrary()
    }
}

impl TryFrom<String8> for String {
    type Error = TextConversionError;

    /// The string as text. Strings of allowed characters always have one.
    fn try_from(value: String8) -> (r: Result<String, TextConversionError>)
        ensures
            r is Ok <==> valid_utf8(value@),
            r matches Ok(text) ==> text@ == decode_utf8(value@),
            valid_codes(value@, 7) ==> (r matches Ok(text) && text@ == text_of(value@)),
    {
        value.to_string()
    }
}

/// `try_from` states what it returns in its own contract, over the codes
/// of the string.
impl TryFromSpecImpl<String8> for String {
    open spec fn obeys_try_from_spec() -> bool {
        false
    }

    open spec fn try_from_spec(value: String8) -> Result<String, TextConversionError> {
        arbitrary()
    }
}

/// A string of up to 15 characters, counted in the 4 low bits of its
/// prefix.
///
/// `count` is the length as it was last read or brought up to date; it is
/// not written to the wire. Encoding counts the characters of `data` anew.
#[derive(Debug, PartialEq)]
pub struct String16 {
    pub count: u8,
    pub data: Vec<Character>,
}

impl View for String16 {
    type V = Seq<u8>;

    /// The codes of the characters.
    open spec fn view(&self) -> Seq<u8> {
        codes_of(self.data@)
    }
}

impl String16 {
    /// The capacity of the class.
    pub const MAX: usize = 15;

    /// The number of bits of the prefix that hold the count.
    pub const BITS: usize = 4;

    /// Whether the stored count is the number of characters.
    pub open spec fn is_synced(&self) -> bool {
        self.count == self.data@.len()
    }

    /// Whether the string is within capacity and made of allowed characters.
    pub open spec fn is_valid(&self) -> bool {
        valid_codes(self@, 15)
    }

    /// What reading a string of this class at bit `offset` of `bytes` gives.
    pub open spec fn spec_read(bytes: Seq<u8>, offset: int) -> Result<(Seq<u8>, int), DecodeError> {
        spec_read_string(bytes, offset, 4, 15)
    }

    /// The bytes that stand on the wire for a string of this class with the
    /// characters `codes`.
    pub open spec fn spec_write(codes: Seq<u8>) -> Result<Seq<u8>, EncodeError> {
        spec_write_string(codes, 4, 15)
    }

    /// Reads a string at bit `offset` of `input`.
    pub fn read(input: &[u8], offset: usize) -> (r: Result<(Self, usize), DecodeError>)
        ensures
            match r {
                Ok((value, next)) => Self::spec_read(input@, offset as int) == Ok::<
                    (Seq<u8>, int),
                    DecodeError,
                >((value@, next as int)) && value.is_synced() && value.is_valid(),
                Err(e) => Self::spec_read(input@, offset as int) == Err::<
                    (Seq<u8>, int),
                    DecodeError,
                >(e),
            },
    {
        let (count, data, next) = read_string(input, offset, 4, 15)?;
        Ok((Self { count, data }, next))
    }

    /// Appends the string to `output`, with the number of characters that
    /// `data` holds now, whatever `count` says. A failed call leaves
    /// `output` as it was.
    pub fn write(&self, output: &mut Vec<u8>) -> (r: Result<(), EncodeError>)
        ensures
            appended(old(output)@, final(output)@, r, Self::spec_write(self@)),
            r is Ok <==> self.is_valid(),
            r is Ok ==> final(output)@[old(output)@.len() as int] == self.data@.len(),
    {
        proof {
            lemma2_to64();
        }
        write_string(&self.data, 4, 15, output)
    }

    /// Reads a string from `input`, a buffer and a bit offset into it, and
    /// returns it with what is left of the buffer.
    pub fn from_bytes<'a>(input: (&'a [u8], usize)) -> (r: Result<
        ((&'a [u8], usize), Self),
        DecodeError,
    >)
        ensures
            match r {
                Ok(((tail, bit), value)) => {
                    &&& Self::spec_read(input.0@, input.1 as int) matches Ok((codes, next))
                    &&& value@ == codes
                    &&& value.is_synced()
                    &&& value.is_valid()
                    &&& tail@ == input.0@.skip(next / 8)
                    &&& bit == next % 8
                },
                Err(e) => Self::spec_read(input.0@, input.1 as int) == Err::<
                    (Seq<u8>, int),
                    DecodeError,
                >(e),
            },
    {
        let (tail, count, data) = string_from_bytes(input, 4, 15)?;
        Ok((tail, Self { count, data }))
    }

    /// The string as the bytes that stand for it on the wire. The first
    /// says how many characters `data` holds now, whatever `count` says.
    pub fn to_bytes(&self) -> (r: Result<Vec<u8>, EncodeError>)
        ensures
            encoded(r, Self::spec_write(self@)),
            r is Ok <==> self.is_valid(),
            r matches Ok(bytes) ==> bytes@.len() == self.data@.len() + 1 && bytes@[0]
                == self.data@.len(),
    {
        proof {
            lemma2_to64();
        }
        string_to_bytes(&self.data, 4, 15)
    }

    /// The string as text. Strings of allowed characters always have one.
    pub fn to_string(&self) -> (r: Result<String, TextConversionError>)
        ensures
            r is Ok <==> valid_utf8(self@),
            r matches Ok(text) ==> text@ == decode_utf8(self@),
            self.is_valid() ==> (r matches Ok(text) && text@ == text_of(self@)),
    {
        string_to_text(&self.data)
    }

    /// Brings the stored count up to date with the characters, whether or
    /// not the class can hold them. Fails, and changes nothing, when there
    /// are more than a byte can count.
    pub fn update(&mut self) -> (r: Result<(), EncodeError>)
        ensures
            final(self).data == old(self).data,
            old(self).data@.len() <= 255 ==> r is Ok && final(self).is_synced(),
            old(self).data@.len() > 255 ==> r == Err::<(), EncodeError>(
                EncodeError::LengthError(old(self).data@.len() as usize),
            ) && final(self).count == old(self).count,
    {
        self.count = live_count(&self.data)?;
        Ok(())
    }
}

impl TryFrom<Vec<u8>> for String16 {
    type Error = StringError;

    /// The string of the characters `value`. Fails when there are more
    /// than the class can hold, else at the first that is not allowed.
    fn try_from(value: Vec<u8>) -> (r: Result<Self, StringError>)
        ensures
            match r {
                Ok(string) => spec_from_raw(value@, 15) == Ok::<Seq<u8>, StringError>(string@)
                    && string.is_synced() && string.is_valid(),
                Err(e) => spec_from_raw(value@, 15) == Err::<Seq<u8>, StringError>(e),
            },
    {
        let data = characters_from_raw(value, 15)?;
        Ok(Self { count: data.len() as u8, data })
    }
}

/// A string holds a vector, which no specification can build: `try_from`
/// states what it returns in its own contract, over `spec_from_raw`.
impl TryFromSpecImpl<Vec<u8>> for String16 {
    open spec fn obeys_try_from_spec() -> bool {
        false
    }

    open spec fn try_from_spec(value: Vec<u8>) -> Result<Self, StringError> {
        arbitrary()
    }
}

impl TryFrom<String16> for String {
    type Error = TextConversionError;

    /// The string as text. Strings of allowed characters always have one.
    fn try_from(value: String16) -> (r: Result<String, TextConversionError>)
        ensures
            r is Ok <==> valid_utf8(value@),
            r matches Ok(text) ==> text@ == decode_utf8(value@),
            valid_codes(value@, 15) ==> (r matches Ok(text) && text@ == text_of(value@)),
    {
        value.to_string()
    }
}

/// `try_from` states what it returns in its own contract, over the codes
/// of the string.
impl TryFromSpecImpl<String16> for String {
    open spec fn obeys_try_from_spec() -> bool {
        false
    }

    open spec fn try_from_spec(value: String16) -> Result<String, TextConversionError> {
        arbitrary()
    }
}

/// A string of up to 31 characters, counted in the 5 low bits of its
/// prefix.
///
/// `count` is the length as it was last read or brought up to date; it is
/// not written to the wire. Encoding counts the characters of `data` anew.
#[derive(Debug, PartialEq)]
pub struct String32 {
    pub count: u8,
    pub data: Vec<Character>,
}

impl View for String32 {
    type V = Seq<u8>;

    /// The codes of the characters.
    open spec fn view(&self) -> Seq<u8> {
        codes_of(self.data@)
    }
}

impl String32 {
    /// The capacity of the class.
    pub const MAX: usize = 31;

    /// The number of bits of the prefix that hold the count.
    pub const BITS: usize = 5;

    /// Whether the stored count is the number of characters.
    pub open spec fn is_synced(&self) -> bool {
        self.count == self.data@.len()
    }

    /// Whether the string is within capacity and made of allowed characters.
    pub open spec fn is_valid(&self) -> bool {
        valid_codes(self@, 31)
    }

    /// What reading a string of this class at bit `offset` of `bytes` gives.
    pub open spec fn spec_read(bytes: Seq<u8>, offset: int) -> Result<(Seq<u8>, int), DecodeError> {
        spec_read_string(bytes, offset, 5, 31)
    }

    /// The bytes that stand on the wire for a string of this class with the
    /// characters `codes`.
    pub open spec fn spec_write(codes: Seq<u8>) -> Result<Seq<u8>, EncodeError> {
        spec_write_string(codes, 5, 31)
    }

    /// Reads a string at bit `offset` of `input`.
    pub fn read(input: &[u8], offset: usize) -> (r: Result<(Self, usize), DecodeError>)
        ensures
            match r {
                Ok((value, next)) => Self::spec_read(input@, offset as int) == Ok::<
                    (Seq<u8>, int),
                    DecodeError,
                >((value@, next as int)) && value.is_synced() && value.is_valid(),
                Err(e) => Self::spec_read(input@, offset as int) == Err::<
                    (Seq<u8>, int),
                    DecodeError,
                >(e),
            },
    {
        let (count, data, next) = read_string(input, offset, 5, 31)?;
        Ok((Self { count, data }, next))
    }

    /// Appends the string to `output`, with the number of characters that
    /// `data` holds now, whatever `count` says. A failed call leaves
    /// `output` as it was.
    pub fn write(&self, output: &mut Vec<u8>) -> (r: Result<(), EncodeError>)
        ensures
            appended(old(output)@, final(output)@, r, Self::spec_write(self@)),
            r is Ok <==> self.is_valid(),
            r is Ok ==> final(output)@[old(output)@.len() as int] == self.data@.len(),
    {
        proof {
            lemma2_to64();
        }
        write_string(&self.data, 5, 31, output)
    }

    /// Reads a string from `input`, a buffer and a bit offset into it, and
    /// returns it with what is left of the buffer.
    pub fn from_bytes<'a>(input: (&'a [u8], usize)) -> (r: Result<
        ((&'a [u8], usize), Self),
        DecodeError,
    >)
        ensures
            match r {
                Ok(((tail, bit), value)) => {
                    &&& Self::spec_read(input.0@, input.1 as int) matches Ok((codes, next))
                    &&& value@ == codes
                    &&& value.is_synced()
                    &&& value.is_valid()
                    &&& tail@ == input.0@.skip(next / 8)
                    &&& bit == next % 8
                },
                Err(e) => Self::spec_read(input.0@, input.1 as int) == Err::<
                    (Seq<u8>, int),
                    DecodeError,
                >(e),
            },
    {
        let (tail, count, data) = string_from_bytes(input, 5, 31)?;
        Ok((tail, Self { count, data }))
    }

    /// The string as the bytes that stand for it on the wire. The first
    /// says how many characters `data` holds now, whatever `count` says.
    pub fn to_bytes(&self) -> (r: Result<Vec<u8>, EncodeError>)
        ensures
            encoded(r, Self::spec_write(self@)),
            r is Ok <==> self.is_valid(),
            r matches Ok(bytes) ==> bytes@.len() == self.data@.len() + 1 && bytes@[0]
                == self.data@.len(),
    {
        proof {
            lemma2_to64();
        }
        string_to_bytes(&self.data, 5, 31)
    }

    /// The string as text. Strings of allowed characters always have one.
    pub fn to_string(&self) -> (r: Result<String, TextConversionError>)
        ensures
            r is Ok <==> valid_utf8(self@),
            r matches Ok(text) ==> text@ == decode_utf8(self@),
            self.is_valid() ==> (r matches Ok(text) && text@ == text_of(self@)),
    {
        string_to_text(&self.data)
    }

    /// Brings the stored count up to date with the characters, whether or
    /// not the class can hold them. Fails, and changes nothing, when there
    /// are more than a byte can count.
    pub fn update(&mut self) -> (r: Result<(), EncodeError>)
        ensures
            final(self).data == old(self).data,
            old(self).data@.len() <= 255 ==> r is Ok && final(self).is_synced(),
            old(self).data@.len() > 255 ==> r == Err::<(), EncodeError>(
                EncodeError::LengthError(old(self).data@.len() as usize),
            ) && final(self).count == old(self).count,
    {
        self.count = live_count(&self.data)?;
        Ok(())
    }
}

impl TryFrom<Vec<u8>> for String32 {
    type Error = StringError;

    /// The string of the characters `value`. Fails when there are more
    /// than the class can hold, else at the first that is not allowed.
    fn try_from(value: Vec<u8>) -> (r: Result<Self, StringError>)
        ensures
            match r {
                Ok(string) => spec_from_raw(value@, 31) == Ok::<Seq<u8>, StringError>(string@)
                    && string.is_synced() && string.is_valid(),
                Err(e) => spec_from_raw(value@, 31) == Err::<Seq<u8>, StringError>(e),
            },
    {
        let data = characters_from_raw(value, 31)?;
        Ok(Self { count: data.len() as u8, data })
    }
}

/// A string holds a vector, which no specification can build: `try_from`
/// states what it returns in its own contract, over `spec_from_raw`.
impl TryFromSpecImpl<Vec<u8>> for String32 {
    open spec fn obeys_try_from_spec() -> bool {
        false
    }

    open spec fn try_from_spec(value: Vec<u8>) -> Result<Self, StringError> {
        arbitrary()
    }
}

impl TryFrom<String32> for String {
    type Error = TextConversionError;

    /// The string as text. Strings of allowed characters always have one.
    fn try_from(value: String32) -> (r: Result<String, TextConversionError>)
        ensures
            r is Ok <==> valid_utf8(value@),
            r matches Ok(text) ==> text@ == decode_utf8(value@),
            valid_codes(value@, 31) ==> (r matches Ok(text) && text@ == text_of(value@)),
    {
        value.to_string()
    }
}

/// `try_from` states what it returns in its own contract, over the codes
/// of the string.
impl TryFromSpecImpl<String32> for String {
    open spec fn obeys_try_from_spec() -> bool {
        false
    }

    open spec fn try_from_spec(value: String32) -> Result<String, TextConversionError> {
        arbitrary()
    }
}

/// A string of up to 63 characters, counted in the 6 low bits of its
/// prefix.
///
/// `count` is the length as it was last read or brought up to date; it is
/// not written to the wire. Encoding counts the characters of `data` anew.
#[derive(Debug, PartialEq)]
pub struct String64 {
    pub count: u8,
    pub data: Vec<Character>,
}

impl View for String64 {
    type V = Seq<u8>;

    /// The codes of the characters.
    open spec fn view(&self) -> Seq<u8> {
        codes_of(self.data@)
    }
}

impl String64 {
    /// The capacity of the class.
    pub const MAX: usize = 63;

    /// The number of bits of the prefix that hold the count.
    pub const BITS: usize = 6;

    /// Whether the stored count is the number of characters.
    pub open spec fn is_synced(&self) -> bool {
        self.count == self.data@.len()
    }

    /// Whether the string is within capacity and made of allowed characters.
    pub open spec fn is_valid(&self) -> bool {
        valid_codes(self@, 63)
    }

    /// What reading a string of this class at bit `offset` of `bytes` gives.
    pub open spec fn spec_read(bytes: Seq<u8>, offset: int) -> Result<(Seq<u8>, int), DecodeError> {
        spec_read_string(bytes, offset, 6, 63)
    }

    /// The bytes that stand on the wire for a string of this class with the
    /// characters `codes`.
    pub open spec fn spec_write(codes: Seq<u8>) -> Result<Seq<u8>, EncodeError> {
        spec_write_string(codes, 6, 63)
    }

    /// Reads a string at bit `offset` of `input`.
    pub fn read(input: &[u8], offset: usize) -> (r: Result<(Self, usize), DecodeError>)
        ensures
            match r {
                Ok((value, next)) => Self::spec_read(input@, offset as int) == Ok::<
                    (Seq<u8>, int),
                    DecodeError,
                >((value@, next as int)) && value.is_synced() && value.is_valid(),
                Err(e) => Self::spec_read(input@, offset as int) == Err::<
                    (Seq<u8>, int),
                    DecodeError,
                >(e),
            },
    {
        let (count, data, next) = read_string(input, offset, 6, 63)?;
        Ok((Self { count, data }, next))
    }

    /// Appends the string to `output`, with the number of characters that
    /// `data` holds now, whatever `count` says. A failed call leaves
    /// `output` as it was.
    pub fn write(&self, output: &mut Vec<u8>) -> (r: Result<(), EncodeError>)
        ensures
            appended(old(output)@, final(output)@, r, Self::spec_write(self@)),
            r is Ok <==> self.is_valid(),
            r is Ok ==> final(output)@[old(output)@.len() as int] == self.data@.len(),
    {
        proof {
            lemma2_to64();
        }
        write_string(&self.data, 6, 63, output)
    }

    /// Reads a string from `input`, a buffer and a bit offset into it, and
    /// returns it with what is left of the buffer.
    pub fn from_bytes<'a>(input: (&'a [u8], usize)) -> (r: Result<
        ((&'a [u8], usize), Self),
        DecodeError,
    >)
        ensures
            match r {
                Ok(((tail, bit), value)) => {
                    &&& Self::spec_read(input.0@, input.1 as int) matches Ok((codes, next))
                    &&& value@ == codes
                    &&& value.is_synced()
                    &&& value.is_valid()
                    &&& tail@ == input.0@.skip(next / 8)
                    &&& bit == next % 8
                },
                Err(e) => Self::spec_read(input.0@, input.1 as int) == Err::<
                    (Seq<u8>, int),
                    DecodeError,
                >(e),
            },
    {
        let (tail, count, data) = string_from_bytes(input, 6, 63)?;
        Ok((tail, Self { count, data }))
    }

    /// The string as the bytes that stand for it on the wire. The first
    /// says how many characters `data` holds now, whatever `count` says.
    pub fn to_bytes(&self) -> (r: Result<Vec<u8>, EncodeError>)
        ensures
            encoded(r, Self::spec_write(self@)),
            r is Ok <==> self.is_valid(),
            r matches Ok(bytes) ==> bytes@.len() == self.data@.len() + 1 && bytes@[0]
                == self.data@.len(),
    {
        proof {
            lemma2_to64();
        }
        string_to_bytes(&self.data, 6, 63)
    }

    /// The string as text. Strings of allowed characters always have one.
    pub fn to_string(&self) -> (r: Result<String, TextConversionError>)
        ensures
            r is Ok <==> valid_utf8(self@),
            r matches Ok(text) ==> text@ == decode_utf8(self@),
            self.is_valid() ==> (r matches Ok(text) && text@ == text_of(self@)),
    {
        string_to_text(&self.data)
    }

    /// Brings the stored count up to date with the characters, whether or
    /// not the class can hold them. Fails, and changes nothing, when there
    /// are more than a byte can count.
    pub fn update(&mut self) -> (r: Result<(), EncodeError>)
        ensures
            final(self).data == old(self).data,
            old(self).data@.len() <= 255 ==> r is Ok && final(self).is_synced(),
            old(self).data@.len() > 255 ==> r == Err::<(), EncodeError>(
                EncodeError::LengthError(old(self).data@.len() as usize),
            ) && final(self).count == old(self).count,
    {
        self.count = live_count(&self.data)?;
        Ok(())
    }
}

impl TryFrom<Vec<u8>> for String64 {
    type Error = StringError;

    /// The string of the characters `value`. Fails when there are more
    /// than the class can hold, else at the first that is not allowed.
    fn try_from(value: Vec<u8>) -> (r: Result<Self, StringError>)
        ensures
            match r {
                Ok(string) => spec_from_raw(value@, 63) == Ok::<Seq<u8>, StringError>(string@)
                    && string.is_synced() && string.is_valid(),
                Err(e) => spec_from_raw(value@, 63) == Err::<Seq<u8>, StringError>(e),
            },
    {
        let data = characters_from_raw(value, 63)?;
        Ok(Self { count: data.len() as u8, data })
    }
}

/// A string holds a vector, which no specification can build: `try_from`
/// states what it returns in its own contract, over `spec_from_raw`.
impl TryFromSpecImpl<Vec<u8>> for String64 {
    open spec fn obeys_try_from_spec() -> bool {
        false
    }

    open spec fn try_from_spec(value: Vec<u8>) -> Result<Self, StringError> {
        arbitrary()
    }
}

impl TryFrom<String64> for String {
    type Error = TextConversionError;

    /// The string as text. Strings of allowed characters always have one.
    fn try_from(value: String64) -> (r: Result<String, TextConversionError>)
        ensures
            r is Ok <==> valid_utf8(value@),
            r matches Ok(text) ==> text@ == decode_utf8(value@),
            valid_codes(value@, 63) ==> (r matches Ok(text) && text@ == text_of(value@)),
    {
        value.to_string()
    }
}

/// `try_from` states what it returns in its own contract, over the codes
/// of the string.
impl TryFromSpecImpl<String64> for String {
    open spec fn obeys_try_from_spec() -> bool {
        false
    }

    open spec fn try_from_spec(value: String64) -> Result<String, TextConversionError> {
        arbitrary()
    }
}

/// A string of up to 127 characters, counted in the 7 low bits of its
/// prefix.
///
/// `count` is the length as it was last read or brought up to date; it is
/// not written to the wire. Encoding counts the characters of `data` anew.
#[derive(Debug, PartialEq)]
pub struct String128 {
    pub count: u8,
    pub data: Vec<Character>,
}

impl View for String128 {
    type V = Seq<u8>;

    /// The codes of the characters.
    open spec fn view(&self) -> Seq<u8> {
        codes_of(self.data@)
    }
}

impl String128 {
    /// The capacity of the class.
    pub const MAX: usize = 127;

    /// The number of bits of the prefix that hold the count.
    pub const BITS: usize = 7;

    /// Whether the stored count is the number of characters.
    pub open spec fn is_synced(&self) -> bool {
        self.count == self.data@.len()
    }

    /// Whether the string is within capacity and made of allowed characters.
    pub open spec fn is_valid(&self) -> bool {
        valid_codes(self@, 127)
    }

    /// What reading a string of this class at bit `offset` of `bytes` gives.
    pub open spec fn spec_read(bytes: Seq<u8>, offset: int) -> Result<(Seq<u8>, int), DecodeError> {
        spec_read_string(bytes, offset, 7, 127)
    }

    /// The bytes that stand on the wire for a string of this class with the
    /// characters `codes`.
    pub open spec fn spec_write(codes: Seq<u8>) -> Result<Seq<u8>, EncodeError> {
        spec_write_string(codes, 7, 127)
    }

    /// Reads a string at bit `offset` of `input`.
    pub fn read(input: &[u8], offset: usize) -> (r: Result<(Self, usize), DecodeError>)
        ensures
            match r {
                Ok((value, next)) => Self::spec_read(input@, offset as int) == Ok::<
                    (Seq<u8>, int),
                    DecodeError,
                >((value@, next as int)) && value.is_synced() && value.is_valid(),
                Err(e) => Self::spec_read(input@, offset as int) == Err::<
                    (Seq<u8>, int),
                    DecodeError,
                >(e),
            },
    {
        let (count, data, next) = read_string(input, offset, 7, 127)?;
        Ok((Self { count, data }, next))
    }

    /// Appends the string to `output`, with the number of characters that
    /// `data` holds now, whatever `count` says. A failed call leaves
    /// `output` as it was.
    pub fn write(&self, output: &mut Vec<u8>) -> (r: Result<(), EncodeError>)
        ensures
            appended(old(output)@, final(output)@, r, Self::spec_write(self@)),
            r is Ok <==> self.is_valid(),
            r is Ok ==> final(output)@[old(output)@.len() as int] == self.data@.len(),
    {
        proof {
            lemma2_to64();
        }
        write_string(&self.data, 7, 127, output)
    }

    /// Reads a string from `input`, a buffer and a bit offset into it, and
    /// returns it with what is left of the buffer.
    pub fn from_bytes<'a>(input: (&'a [u8], usize)) -> (r: Result<
        ((&'a [u8], usize), Self),
        DecodeError,
    >)
        ensures
            match r {
                Ok(((tail, bit), value)) => {
                    &&& Self::spec_read(input.0@, input.1 as int) matches Ok((codes, next))
                    &&& value@ == codes
                    &&& value.is_synced()
                    &&& value.is_valid()
                    &&& tail@ == input.0@.skip(next / 8)
                    &&& bit == next % 8
                },
                Err(e) => Self::spec_read(input.0@, input.1 as int) == Err::<
                    (Seq<u8>, int),
                    DecodeError,
                >(e),
            },
    {
        let (tail, count, data) = string_from_bytes(input, 7, 127)?;
        Ok((tail, Self { count, data }))
    }

    /// The string as the bytes that stand for it on the wire. The first
    /// says how many characters `data` holds now, whatever `count` says.
    pub fn to_bytes(&self) -> (r: Result<Vec<u8>, EncodeError>)
        ensures
            encoded(r, Self::spec_write(self@)),
            r is Ok <==> self.is_valid(),
            r matches Ok(bytes) ==> bytes@.len() == self.data@.len() + 1 && bytes@[0]
                == self.data@.len(),
    {
        proof {
            lemma2_to64();
        }
        string_to_bytes(&self.data, 7, 127)
    }

    /// The string as text. Strings of allowed characters always have one.
    pub fn to_string(&self) -> (r: Result<String, TextConversionError>)
        ensures
            r is Ok <==> valid_utf8(self@),
            r matches Ok(text) ==> text@ == decode_utf8(self@),
            self.is_valid() ==> (r matches Ok(text) && text@ == text_of(self@)),
    {
        string_to_text(&self.data)
    }

    /// Brings the stored count up to date with the characters, whether or
    /// not the class can hold them. Fails, and changes nothing, when there
    /// are more than a byte can count.
    pub fn update(&mut self) -> (r: Result<(), EncodeError>)
        ensures
            final(self).data == old(self).data,
            old(self).data@.len() <= 255 ==> r is Ok && final(self).is_synced(),
            old(self).data@.len() > 255 ==> r == Err::<(), EncodeError>(
                EncodeError::LengthError(old(self).data@.len() as usize),
            ) && final(self).count == old(self).count,
    {
        self.count = live_count(&self.data)?;
        Ok(())
    }
}

impl TryFrom<Vec<u8>> for String128 {
    type Error = StringError;

    /// The string of the characters `value`. Fails when there are more
    /// than the class can hold, else at the first that is not allowed.
    fn try_from(value: Vec<u8>) -> (r: Result<Self, StringError>)
        ensures
            match r {
                Ok(string) => spec_from_raw(value@, 127) == Ok::<Seq<u8>, StringError>(string@)
                    && string.is_synced() && string.is_valid(),
                Err(e) => spec_from_raw(value@, 127) == Err::<Seq<u8>, StringError>(e),
            },
    {
        let data = characters_from_raw(value, 127)?;
        Ok(Self { count: data.len() as u8, data })
    }
}

/// A string holds a vector, which no specification can build: `try_from`
/// states what it returns in its own contract, over `spec_from_raw`.
impl TryFromSpecImpl<Vec<u8>> for String128 {
    open spec fn obeys_try_from_spec() -> bool {
        false
    }

    open spec fn try_from_spec(value: Vec<u8>) -> Result<Self, StringError> {
        arbitrary()
    }
}

impl TryFrom<String128> for String {
    type Error = TextConversionError;

    /// The string as text. Strings of allowed characters always have one.
    fn try_from(value: String128) -> (r: Result<String, TextConversionError>)
        ensures
            r is Ok <==> valid_utf8(value@),
            r matches Ok(text) ==> text@ == decode_utf8(value@),
            valid_codes(value@, 127) ==> (r matches Ok(text) && text@ == text_of(value@)),
    {
        value.to_string()
    }
}

/// `try_from` states what it returns in its own contract, over the codes
/// of the string.
impl TryFromSpecImpl<String128> for String {
    open spec fn obeys_try_from_spec() -> bool {
        false
    }

    open spec fn try_from_spec(value: String128) -> Result<String, TextConversionError> {
        arbitrary()
    }
}

/// A string of up to 255 characters, counted in the 8 low bits of its
/// prefix.
///
/// `count` is the length as it was last read or brought up to date; it is
/// not written to the wire. Encoding counts the characters of `data` anew.
#[derive(Debug, PartialEq)]
pub struct String256 {
    pub count: u8,
    pub data: Vec<Character>,
}

impl View for String256 {
    type V = Seq<u8>;

    /// The codes of the characters.
    open spec fn view(&self) -> Seq<u8> {
        codes_of(self.data@)
    }
}

impl String256 {
    /// The capacity of the class.
    pub const MAX: usize = 255;

    /// The number of bits of the prefix that hold the count.
    pub const BITS: usize = 8;

    /// Whether the stored count is the number of characters.
    pub open spec fn is_synced(&self) -> bool {
        self.count == self.data@.len()
    }

    /// Whether the string is within capacity and made of allowed characters.
    pub open spec fn is_valid(&self) -> bool {
        valid_codes(self@, 255)
    }

    /// What reading a string of this class at bit `offset` of `bytes` gives.
    pub open spec fn spec_read(bytes: Seq<u8>, offset: int) -> Result<(Seq<u8>, int), DecodeError> {
        spec_read_string(bytes, offset, 8, 255)
    }

    /// The bytes that stand on the wire for a string of this class with the
    /// characters `codes`.
    pub open spec fn spec_write(codes: Seq<u8>) -> Result<Seq<u8>, EncodeError> {
        spec_write_string(codes, 8, 255)
    }

    /// Reads a string at bit `offset` of `input`.
    pub fn read(input: &[u8], offset: usize) -> (r: Result<(Self, usize), DecodeError>)
        ensures
            match r {
                Ok((value, next)) => Self::spec_read(input@, offset as int) == Ok::<
                    (Seq<u8>, int),
                    DecodeError,
                >((value@, next as int)) && value.is_synced() && value.is_valid(),
                Err(e) => Self::spec_read(input@, offset as int) == Err::<
                    (Seq<u8>, int),
                    DecodeError,
                >(e),
            },
    {
        let (count, data, next) = read_string(input, offset, 8, 255)?;
        Ok((Self { count, data }, next))
    }

    /// Appends the string to `output`, with the number of characters that
    /// `data` holds now, whatever `count` says. A failed call leaves
    /// `output` as it was.
    pub fn write(&self, output: &mut Vec<u8>) -> (r: Result<(), EncodeError>)
        ensures
            appended(old(output)@, final(output)@, r, Self::spec_write(self@)),
            r is Ok <==> self.is_valid(),
            r is Ok ==> final(output)@[old(output)@.len() as int] == self.data@.len(),
    {
        proof {
            lemma2_to64();
        }
        write_string(&self.data, 8, 255, output)
    }

    /// Reads a string from `input`, a buffer and a bit offset into it, and
    /// returns it with what is left of the buffer.
    pub fn from_bytes<'a>(input: (&'a [u8], usize)) -> (r: Result<
        ((&'a [u8], usize), Self),
        DecodeError,
    >)
        ensures
            match r {
                Ok(((tail, bit), value)) => {
                    &&& Self::spec_read(input.0@, input.1 as int) matches Ok((codes, next))
                    &&& value@ == codes
                    &&& value.is_synced()
                    &&& value.is_valid()
                    &&& tail@ == input.0@.skip(next / 8)
                    &&& bit == next % 8
                },
                Err(e) => Self::spec_read(input.0@, input.1 as int) == Err::<
                    (Seq<u8>, int),
                    DecodeError,
                >(e),
            },
    {
        let (tail, count, data) = string_from_bytes(input, 8, 255)?;
        Ok((tail, Self { count, data }))
    }

    /// The string as the bytes that stand for it on the wire. The first
    /// says how many characters `data` holds now, whatever `count` says.
    pub fn to_bytes(&self) -> (r: Result<Vec<u8>, EncodeError>)
        ensures
            encoded(r, Self::spec_write(self@)),
            r is Ok <==> self.is_valid(),
            r matches Ok(bytes) ==> bytes@.len() == self.data@.len() + 1 && bytes@[0]
                == self.data@.len(),
    {
        proof {
            lemma2_to64();
        }
        string_to_bytes(&self.data, 8, 255)
    }

    /// The string as text. Strings of allowed characters always have one.
    pub fn to_string(&self) -> (r: Result<String, TextConversionError>)
        ensures
            r is Ok <==> valid_utf8(self@),
            r matches Ok(text) ==> text@ == decode_utf8(self@),
            self.is_valid() ==> (r matches Ok(text) && text@ == text_of(self@)),
    {
        string_to_text(&self.data)
    }

    /// Brings the stored count up to date with the characters, whether or
    /// not the class can hold them. Fails, and changes nothing, when there
    /// are more than a byte can count.
    pub fn update(&mut self) -> (r: Result<(), EncodeError>)
        ensures
            final(self).data == old(self).data,
            old(self).data@.len() <= 255 ==> r is Ok && final(self).is_synced(),
            old(self).data@.len() > 255 ==> r == Err::<(), EncodeError>(
                EncodeError::LengthError(old(self).data@.len() as usize),
            ) && final(self).count == old(self).count,
    {
        self.count = live_count(&self.data)?;
        Ok(())
    }
}

impl TryFrom<Vec<u8>> for String256 {
    type Error = StringError;

    /// The string of the characters `value`. Fails when there are more
    /// than the class can hold, else at the first that is not allowed.
    fn try_from(value: Vec<u8>) -> (r: Result<Self, StringError>)
        ensures
            match r {
                Ok(string) => spec_from_raw(value@, 255) == Ok::<Seq<u8>, StringError>(string@)
                    && string.is_synced() && string.is_valid(),
                Err(e) => spec_from_raw(value@, 255) == Err::<Seq<u8>, StringError>(e),
            },
    {
        let data = characters_from_raw(value, 255)?;
        Ok(Self { count: data.len() as u8, data })
    }
}

/// A string holds a vector, which no specification can build: `try_from`
/// states what it returns in its own contract, over `spec_from_raw`.
impl TryFromSpecImpl<Vec<u8>> for String256 {
    open spec fn obeys_try_from_spec() -> bool {
        false
    }

    open spec fn try_from_spec(value: Vec<u8>) -> Result<Self, StringError> {
        arbitrary()
    }
}

impl TryFrom<String256> for String {
    type Error = TextConversionError;

    /// The string as text. Strings of allowed characters always have one.
    fn try_from(value: String256) -> (r: Result<String, TextConversionError>)
        ensures
            r is Ok <==> valid_utf8(value@),
            r matches Ok(text) ==> text@ == decode_utf8(value@),
            valid_codes(value@, 255) ==> (r matches Ok(text) && text@ == text_of(value@)),
    {
        value.to_string()
    }
}

/// `try_from` states what it returns in its own contract, over the codes
/// of the string.
impl TryFromSpecImpl<String256> for String {
    open spec fn obeys_try_from_spec() -> bool {
        false
    }

    open spec fn try_from_spec(value: String256) -> Result<String, TextConversionError> {
        arbitrary()
    }
}

/// Each class counts in as few bits as its capacity needs.
pub proof fn lemma_class_bits()
    ensures
        String8::BITS == spec_count_bits(String8::MAX as u8),
        String16::BITS == spec_count_bits(String16::MAX as u8),
        String32::BITS == spec_count_bits(String32::MAX as u8),
        String64::BITS == spec_count_bits(String64::MAX as u8),
        String128::BITS == spec_count_bits(String128::MAX as u8),
        String256::BITS == spec_count_bits(String256::MAX as u8),
{
}

impl<const MAX: u8, const BITS: u8> TryFrom<Vec<u8>> for SizedString<MAX, BITS> {
    type Error = StringError;

    /// The string of the characters `value`. Fails when there are more
    /// than the class can hold, else at the first that is not allowed.
    fn try_from(value: Vec<u8>) -> (r: Result<Self, StringError>)
        ensures
            match r {
                Ok(string) => spec_from_raw(value@, MAX) == Ok::<Seq<u8>, StringError>(string@)
                    && string.is_synced() && valid_codes(string@, MAX),
                Err(e) => spec_from_raw(value@, MAX) == Err::<Seq<u8>, StringError>(e),
            },
    {
        let data = characters_from_raw(value, MAX)?;
        Ok(Self { count: data.len() as u8, data })
    }
}

/// A string holds a vector, which no specification can build: `try_from`
/// states what it returns in its own contract, over `spec_from_raw`.
impl<const MAX: u8, const BITS: u8> TryFromSpecImpl<Vec<u8>> for SizedString<MAX, BITS> {
    open spec fn obeys_try_from_spec() -> bool {
        false
    }

    open spec fn try_from_spec(value: Vec<u8>) -> Result<Self, StringError> {
        arbitrary()
    }
}

impl<const MAX: u8, const BITS: u8> TryFrom<SizedString<MAX, BITS>> for String {
    type Error = TextConversionError;

    /// The string as text. Strings of allowed characters always have one.
    fn try_from(value: SizedString<MAX, BITS>) -> (r: Result<String, TextConversionError>)
        ensures
            r is Ok <==> valid_utf8(value@),
            r matches Ok(text) ==> text@ == decode_utf8(value@),
            valid_codes(value@, MAX) ==> (r matches Ok(text) && text@ == text_of(value@)),
    {
        value.to_string()
    }
}

/// `try_from` states what it returns in its own contract, over the codes
/// of the string.
impl<const MAX: u8, const BITS: u8> TryFromSpecImpl<SizedString<MAX, BITS>> for String {
    open spec fn obeys_try_from_spec() -> bool {
        false
    }

    open spec fn try_from_spec(value: SizedString<MAX, BITS>) -> Result<
        String,
        TextConversionError,
    > {
        arbitrary()
    }
}

} // verus!
