//! Strings of bounded capacity behind a one-byte length prefix.
//!
//! A class of strings is given by two numbers: its capacity, and the number
//! of low bits of the prefix that hold the count. The bits above them are
//! padding, written as zero and ignored when read. The characters follow,
//! one byte each.

use crate::error::{DecodeError, EncodeError, TextConversionError};
use crate::primitives::bits::{
    appended, bit_of, byte_at, carries, decoded, encoded, lemma_carries_self, nth_byte, read_u8,
    readable, rest, write_u8,
};
use crate::primitives::character::bitmap::is_allowed;
use crate::primitives::character::error::CharacterError;
use crate::primitives::character::Character;
use std::string::FromUtf8Error;
use vstd::arithmetic::div_mod::{lemma_mod_bound, lemma_small_mod};
use vstd::arithmetic::power2::{lemma2_to64, lemma_pow2_pos, lemma_pow2_strictly_increases, pow2};
use vstd::prelude::*;
use vstd::utf8::{
    decode_utf8, encode_utf8, encode_utf8_decode_utf8, encode_utf8_valid_utf8, is_ascii_chars,
    is_ascii_chars_encode_utf8, valid_utf8,
};

verus! {

/// The number of bits that a count up to `max` needs: the least `w` with
/// `max < 2^w`.
pub open spec fn spec_count_bits(max: u8) -> nat {
    if max < 1 {
        0
    } else if max < 2 {
        1
    } else if max < 4 {
        2
    } else if max < 8 {
        3
    } else if max < 16 {
        4
    } else if max < 32 {
        5
    } else if max < 64 {
        6
    } else if max < 128 {
        7
    } else {
        8
    }
}

/// The number of bits that a count up to `max` needs. Each of the six
/// classes counts in as many.
pub fn count_bits(max: u8) -> (r: u8)
    ensures
        r == spec_count_bits(max),
        r <= 8,
        max < pow2(r as nat),
{
    proof {
        lemma2_to64();
    }
    let mut bits: u8 = 0;
    let mut reach: u16 = 1;
    while reach <= max as u16
        invariant
            bits <= 8,
            reach == pow2(bits as nat),
            spec_count_bits(max) >= bits,
            bits < 8 ==> (spec_count_bits(max) == bits <==> max < reach),
            bits == 8 ==> spec_count_bits(max) == 8 && max < reach,
        decreases 256 - reach,
    {
        proof {
            lemma2_to64();
        }
        bits += 1;
        reach = reach * 2;
    }
    bits
}

/// The number in the `bit_size` low bits of `byte`.
pub open spec fn low_bits(byte: u8, bit_size: nat) -> u8 {
    (byte as nat % pow2(bit_size)) as u8
}

/// What reading a one-byte field at bit `offset` of `bytes` gives, when the
/// field holds a number of at most `max_value` in its `bit_size` low bits.
pub open spec fn spec_sized_u8_read(
    bytes: Seq<u8>,
    offset: int,
    bit_size: nat,
    max_value: u8,
) -> Result<(u8, int), DecodeError> {
    if !readable(bytes, offset, 8) {
        Err(DecodeError::Incomplete(8))
    } else if low_bits(byte_at(bytes, offset), bit_size) > max_value {
        Err(DecodeError::LengthError(low_bits(byte_at(bytes, offset), bit_size) as usize))
    } else {
        Ok((low_bits(byte_at(bytes, offset), bit_size), offset + 8))
    }
}

/// The byte of a one-byte field that holds `value` in its `bit_size` low
/// bits, when `value` is at most `max_value` and fits those bits.
pub open spec fn spec_sized_u8_write(value: u8, bit_size: nat, max_value: u8) -> Result<
    Seq<u8>,
    EncodeError,
> {
    if value > max_value || value >= pow2(bit_size) {
        Err(EncodeError::LengthError(value as usize))
    } else {
        Ok(seq![value])
    }
}

/// The number below `2^bit_size` that `byte` holds in its low bits.
fn take_low_bits(byte: u8, bit_size: u8) -> (r: u8)
    ensures
        r == low_bits(byte, bit_size as nat),
{
    proof {
        lemma2_to64();
        if bit_size > 8 {
            lemma_pow2_strictly_increases(8, bit_size as nat);
            lemma_small_mod(byte as nat, pow2(bit_size as nat));
        }
    }
    match bit_size {
        0 => 0,
        1 => byte % 2,
        2 => byte % 4,
        3 => byte % 8,
        4 => byte % 16,
        5 => byte % 32,
        6 => byte % 64,
        7 => byte % 128,
        _ => byte,
    }
}

/// Reads a one-byte field at bit `offset` of `input`: padding bits above,
/// and in the `bit_size` low bits a number that may not exceed `max_value`.
pub fn sized_u8_read(input: &[u8], offset: usize, bit_size: u8, max_value: u8) -> (r: Result<
    (u8, usize),
    DecodeError,
>)
    ensures
        decoded(r) == spec_sized_u8_read(input@, offset as int, bit_size as nat, max_value),
{
    let (byte, next) = read_u8(input, offset)?;
    let value = take_low_bits(byte, bit_size);

    if value > max_value {
        return Err(DecodeError::LengthError(value as usize));
    }

    Ok((value, next))
}

/// Appends a one-byte field to `output`: zero padding above, and `value` in
/// the `bit_size` low bits. `value` may not exceed `max_value`, and must fit
/// the bits. A failed call leaves `output` as it was.
pub fn sized_u8_write(value: u8, bit_size: u8, max_value: u8, output: &mut Vec<u8>) -> (r: Result<
    (),
    EncodeError,
>)
    ensures
        appended(
            old(output)@,
            final(output)@,
            r,
            spec_sized_u8_write(value, bit_size as nat, max_value),
        ),
{
    if value > max_value || take_low_bits(value, bit_size) != value {
        proof {
            lemma_low_bits_fit(value, bit_size as nat);
        }
        return Err(EncodeError::LengthError(value as usize));
    }
    proof {
        lemma_low_bits_fit(value, bit_size as nat);
    }
    write_u8(value, output);
    assert(output@ =~= old(output)@ + seq![value]);
    Ok(())
}

/// The low bits of a byte make a number that fits them.
pub proof fn lemma_low_bits_below(byte: u8, bit_size: nat)
    ensures
        low_bits(byte, bit_size) < pow2(bit_size),
{
    lemma_pow2_pos(bit_size);
    lemma_mod_bound(byte as int, pow2(bit_size) as int);
}

/// A number is its own low bits exactly when it fits them.
pub proof fn lemma_low_bits_fit(value: u8, bit_size: nat)
    ensures
        low_bits(value, bit_size) == value <==> value < pow2(bit_size),
{
    lemma_pow2_pos(bit_size);
    let m = pow2(bit_size) as int;
    let v = value as int;
    if v < m {
        lemma_small_mod(v as nat, m as nat);
    } else {
        lemma_mod_bound(v, m);
    }
}

/// The place of the count in the prefix: the low bits of the byte make the
/// number, in their order, and the padding above them adds nothing to it.
pub proof fn lemma_low_bits_layout(byte: u8, bit_size: nat, index: int)
    requires
        bit_size <= 8,
        0 <= index < 8,
    ensures
        bit_of(low_bits(byte, bit_size), index) == (index >= 8 - bit_size && bit_of(byte, index)),
{
    lemma2_to64();
    let width = bit_size as u8;
    let j = index as u8;
    let value = low_bits(byte, bit_size);
    let modulus: u16 = pow2(bit_size) as u16;
    assert((value & (0x80u8 >> j) != 0) == (j >= 8 - width && byte & (0x80u8 >> j) != 0))
        by (bit_vector)
        requires
            width <= 8,
            j < 8,
            modulus == if width == 0 {
                1u16
            } else if width == 1 {
                2u16
            } else if width == 2 {
                4u16
            } else if width == 3 {
                8u16
            } else if width == 4 {
                16u16
            } else if width == 5 {
                32u16
            } else if width == 6 {
                64u16
            } else if width == 7 {
                128u16
            } else {
                256u16
            },
            value as u16 == (byte as u16) % modulus,
    ;
}

/// The error of `String::from_utf8` of the standard library. Nothing is
/// said of what it holds.
#[verifier::external_type_specification]
#[verifier::external_body]
pub struct ExFromUtf8Error(FromUtf8Error);

/// Taken on trust of `String::from_utf8` of the standard library: it
/// succeeds exactly on the byte strings that are UTF-8, and the text is
/// then the one that the bytes encode.
pub assume_specification[ String::from_utf8 ](vec: Vec<u8>) -> (r: Result<String, FromUtf8Error>)
    ensures
        r is Ok <==> valid_utf8(vec@),
        r matches Ok(text) ==> text@ == decode_utf8(vec@),
;

/// The text whose characters have the codes `codes`.
pub open spec fn text_of(codes: Seq<u8>) -> Seq<char> {
    Seq::new(codes.len(), |i: int| codes[i] as char)
}

/// Codes below 128 are UTF-8 as they stand, one character each.
pub proof fn lemma_ascii_text(codes: Seq<u8>)
    requires
        forall|i: int| 0 <= i < codes.len() ==> #[trigger] codes[i] < 128,
    ensures
        valid_utf8(codes),
        decode_utf8(codes) == text_of(codes),
{
    let chars = text_of(codes);
    assert(is_ascii_chars(chars));
    is_ascii_chars_encode_utf8(chars);
    assert(encode_utf8(chars) =~= codes);
    encode_utf8_valid_utf8(chars);
    encode_utf8_decode_utf8(chars);
}

/// The codes of a run of characters.
pub open spec fn codes_of(data: Seq<Character>) -> Seq<u8> {
    Seq::new(data.len(), |i: int| data[i].0)
}

/// The first code of `codes` that is not allowed, if there is one.
pub open spec fn first_disallowed(codes: Seq<u8>) -> Option<u8>
    decreases codes.len(),
{
    if codes.len() == 0 {
        None
    } else if !is_allowed(codes[0]) {
        Some(codes[0])
    } else {
        first_disallowed(codes.drop_first())
    }
}

/// Whether `codes` can be the characters of a string of capacity `max`:
/// no more than `max`, and each of the allowed set.
pub open spec fn valid_codes(codes: Seq<u8>, max: u8) -> bool {
    &&& codes.len() <= max
    &&& forall|i: int| 0 <= i < codes.len() ==> is_allowed(#[trigger] codes[i])
}

/// Whether `codes` can be written as a string of capacity `max` that
/// counts in `bit_size` bits: valid for the capacity, and no more than the
/// bits can count.
pub open spec fn writable(codes: Seq<u8>, bit_size: nat, max: u8) -> bool {
    valid_codes(codes, max) && codes.len() < pow2(bit_size)
}

/// What reading `count` characters one after another from bit `offset` of
/// `bytes` gives: their codes and the offset behind them, or the error of
/// the first character that cannot be read.
pub open spec fn spec_read_codes(bytes: Seq<u8>, offset: int, count: nat) -> Result<
    (Seq<u8>, int),
    DecodeError,
>
    decreases count,
{
    if count == 0 {
        Ok((Seq::empty(), offset))
    } else {
        match spec_read_codes(bytes, offset, (count - 1) as nat) {
            Err(e) => Err(e),
            Ok((codes, next)) => match Character::spec_read(bytes, next) {
                Err(e) => Err(e),
                Ok((c, after)) => Ok((codes.push(c.0), after)),
            },
        }
    }
}

/// What reading a string at bit `offset` of `bytes` gives, for a class of
/// capacity `max` that counts in `bit_size` bits: the codes of its
/// characters and the offset behind it, or the error. The prefix is read
/// first, then as many characters as it announces.
pub open spec fn spec_read_string(bytes: Seq<u8>, offset: int, bit_size: nat, max: u8) -> Result<
    (Seq<u8>, int),
    DecodeError,
> {
    match spec_sized_u8_read(bytes, offset, bit_size, max) {
        Err(e) => Err(e),
        Ok((count, body)) => spec_read_codes(bytes, body, count as nat),
    }
}

/// The bytes that stand on the wire for a string with the characters
/// `codes`, in a class of capacity `max` that counts in `bit_size` bits:
/// the prefix with their number, then the codes. There are none for more
/// than `max` characters, nor for more than the bits can count, nor for a
/// character that is not allowed.
pub open spec fn spec_write_string(codes: Seq<u8>, bit_size: nat, max: u8) -> Result<
    Seq<u8>,
    EncodeError,
> {
    if codes.len() > max || codes.len() >= pow2(bit_size) {
        Err(EncodeError::LengthError(codes.len() as usize))
    } else {
        match first_disallowed(codes) {
            Some(code) => Err(
                EncodeError::CharacterError(CharacterError::DisallowedCharCode(code)),
            ),
            None => Ok(seq![codes.len() as u8] + codes),
        }
    }
}

/// Reads a string at bit `offset` of `input`, for a class of capacity `max`
/// that counts in `bit_size` bits: the prefix, then as many characters as
/// it announces. Stops at the first byte that is missing or is no
/// character. Returns the count, the characters and the offset behind them.
pub fn read_string(input: &[u8], offset: usize, bit_size: u8, max: u8) -> (r: Result<
    (u8, Vec<Character>, usize),
    DecodeError,
>)
    ensures
        match r {
            Ok((count, data, next)) => {
                &&& spec_read_string(input@, offset as int, bit_size as nat, max) == Ok::<
                    (Seq<u8>, int),
                    DecodeError,
                >((codes_of(data@), next as int))
                &&& count == data@.len()
                &&& writable(codes_of(data@), bit_size as nat, max)
            },
            Err(e) => spec_read_string(input@, offset as int, bit_size as nat, max) == Err::<
                (Seq<u8>, int),
                DecodeError,
            >(e),
        },
{
    let (count, body) = sized_u8_read(input, offset, bit_size, max)?;
    proof {
        lemma_low_bits_below(byte_at(input@, offset as int), bit_size as nat);
    }
    let mut data: Vec<Character> = Vec::with_capacity(count as usize);
    let mut next = body;
    let mut i: u8 = 0;
    assert(codes_of(data@) =~= Seq::<u8>::empty());
    while i < count
        invariant
            i <= count <= max,
            count < pow2(bit_size as nat),
            data@.len() == i,
            spec_sized_u8_read(input@, offset as int, bit_size as nat, max) == Ok::<
                (u8, int),
                DecodeError,
            >((count, body as int)),
            spec_read_codes(input@, body as int, i as nat) == Ok::<(Seq<u8>, int), DecodeError>(
                (codes_of(data@), next as int),
            ),
            forall|k: int| 0 <= k < data@.len() ==> is_allowed(#[trigger] data@[k].0),
        decreases count - i,
    {
        match Character::read(input, next) {
            Ok((c, after)) => {
                proof {
                    assert(((i + 1) as nat - 1) as nat == i as nat);
                    assert(codes_of(data@.push(c)) =~= codes_of(data@).push(c.0));
                }
                data.push(c);
                next = after;
            },
            Err(e) => {
                proof {
                    assert(((i + 1) as nat - 1) as nat == i as nat);
                    assert(spec_read_codes(input@, body as int, (i + 1) as nat) == Err::<
                        (Seq<u8>, int),
                        DecodeError,
                    >(e));
                    lemma_read_codes_error(input@, body as int, (i + 1) as nat, count as nat);
                }
                return Err(e);
            },
        }
        i += 1;
    }
    Ok((count, data, next))
}

/// Appends a string to `output`, for a class of capacity `max` that counts
/// in `bit_size` bits: the prefix with the number of characters that `data`
/// holds, then the characters. A failed call leaves `output` as it was.
pub fn write_string(data: &Vec<Character>, bit_size: u8, max: u8, output: &mut Vec<u8>) -> (r:
    Result<(), EncodeError>)
    ensures
        appended(
            old(output)@,
            final(output)@,
            r,
            spec_write_string(codes_of(data@), bit_size as nat, max),
        ),
        r is Ok <==> writable(codes_of(data@), bit_size as nat, max),
        r is Ok ==> final(output)@[old(output)@.len() as int] == data@.len(),
{
    let ghost codes = codes_of(data@);
    proof {
        lemma_string_write_ok(codes, bit_size as nat, max);
    }
    let start = output.len();
    let len = data.len();
    if len > max as usize {
        return Err(EncodeError::LengthError(len));
    }
    match sized_u8_write(len as u8, bit_size, max, output) {
        Ok(()) => {},
        Err(e) => {
            return Err(e);
        },
    }
    let mut i: usize = 0;
    assert(codes.take(0) =~= Seq::<u8>::empty());
    while i < len
        invariant
            i <= len == data@.len(),
            len <= max,
            len < pow2(bit_size as nat),
            codes == codes_of(data@),
            start == old(output)@.len(),
            output@ == old(output)@ + seq![len as u8] + codes.take(i as int),
            first_disallowed(codes.take(i as int)) is None,
        decreases len - i,
    {
        proof {
            lemma_first_disallowed_push(codes.take(i as int), codes[i as int]);
            assert(codes.take(i + 1) =~= codes.take(i as int).push(codes[i as int]));
        }
        match data[i].write(output) {
            Ok(()) => {
                assert(output@ =~= old(output)@ + seq![len as u8] + codes.take(i + 1));
            },
            Err(e) => {
                proof {
                    lemma_first_disallowed_prefix(codes, i + 1);
                }
                output.truncate(start);
                assert(output@ =~= old(output)@);
                return Err(e);
            },
        }
        i += 1;
    }
    assert(codes.take(len as int) =~= codes);
    assert(output@ =~= old(output)@ + (seq![len as u8] + codes));
    Ok(())
}

/// Reads a string from `input`, a buffer and a bit offset into it, for a
/// class of capacity `max` that counts in `bit_size` bits, and returns what
/// is left of the buffer, the count and the characters.
pub fn string_from_bytes<'a>(input: (&'a [u8], usize), bit_size: u8, max: u8) -> (r: Result<
    ((&'a [u8], usize), u8, Vec<Character>),
    DecodeError,
>)
    ensures
        match r {
            Ok(((tail, bit), count, data)) => {
                &&& spec_read_string(input.0@, input.1 as int, bit_size as nat, max) matches Ok(
                    (codes, next),
                )
                &&& codes_of(data@) == codes
                &&& count == data@.len()
                &&& writable(codes, bit_size as nat, max)
                &&& tail@ == input.0@.skip(next / 8)
                &&& bit == next % 8
            },
            Err(e) => spec_read_string(input.0@, input.1 as int, bit_size as nat, max) == Err::<
                (Seq<u8>, int),
                DecodeError,
            >(e),
        },
{
    match read_string(input.0, input.1, bit_size, max) {
        Ok((count, data, next)) => {
            proof {
                lemma_string_read_within(input.0@, input.1 as int, bit_size as nat, max);
            }
            Ok((rest(input.0, next), count, data))
        },
        Err(e) => Err(e),
    }
}

/// A string as the bytes that stand for it on the wire, for a class of
/// capacity `max` that counts in `bit_size` bits. The first byte says how
/// many characters `data` holds.
pub fn string_to_bytes(data: &Vec<Character>, bit_size: u8, max: u8) -> (r: Result<
    Vec<u8>,
    EncodeError,
>)
    ensures
        encoded(r, spec_write_string(codes_of(data@), bit_size as nat, max)),
        r is Ok <==> writable(codes_of(data@), bit_size as nat, max),
        r matches Ok(bytes) ==> bytes@.len() == data@.len() + 1 && bytes@[0] == data@.len(),
{
    let mut output: Vec<u8> = Vec::new();
    match write_string(data, bit_size, max, &mut output) {
        Ok(()) => {
            assert(output@ =~= spec_write_string(codes_of(data@), bit_size as nat, max).unwrap());
            Ok(output)
        },
        Err(e) => Err(e),
    }
}

/// The characters as text. Allowed characters always make one.
pub fn string_to_text(data: &Vec<Character>) -> (r: Result<String, TextConversionError>)
    ensures
        r is Ok <==> valid_utf8(codes_of(data@)),
        r matches Ok(text) ==> text@ == decode_utf8(codes_of(data@)),
        (forall|i: int| 0 <= i < data@.len() ==> is_allowed(#[trigger] codes_of(data@)[i])) ==> (
        r matches Ok(text) && text@ == text_of(codes_of(data@))),
{
    let ghost codes = codes_of(data@);
    let mut char_codes: Vec<u8> = Vec::with_capacity(data.len());
    let mut i: usize = 0;
    while i < data.len()
        invariant
            i <= data@.len(),
            codes == codes_of(data@),
            char_codes@ == codes.take(i as int),
        decreases data@.len() - i,
    {
        char_codes.push(data[i].0);
        assert(char_codes@ =~= codes.take(i + 1));
        i += 1;
    }
    proof {
        assert(codes.take(i as int) =~= codes);
        if forall|i: int| 0 <= i < data@.len() ==> is_allowed(#[trigger] codes[i]) {
            assert forall|k: int| 0 <= k < codes.len() implies #[trigger] codes[k] < 128 by {
                assert(is_allowed(codes[k]));
            }
            lemma_ascii_text(codes);
        }
    }
    match String::from_utf8(char_codes) {
        Ok(text) => Ok(text),
        Err(_) => Err(TextConversionError),
    }
}

/// The number of characters as a byte. There is none for more than 255.
pub fn live_count(data: &Vec<Character>) -> (r: Result<u8, EncodeError>)
    ensures
        data@.len() <= 255 ==> r == Ok::<u8, EncodeError>(data@.len() as u8),
        data@.len() > 255 ==> r == Err::<u8, EncodeError>(
            EncodeError::LengthError(data@.len() as usize),
        ),
{
    let len = data.len();
    if len > 255 {
        return Err(EncodeError::LengthError(len));
    }
    Ok(len as u8)
}

/// A string has an encoding exactly when it is within capacity, no longer
/// than the bits can count, and made of allowed characters.
pub proof fn lemma_string_write_ok(codes: Seq<u8>, bit_size: nat, max: u8)
    ensures
        spec_write_string(codes, bit_size, max) is Ok <==> writable(codes, bit_size, max),
{
    lemma_first_disallowed_none(codes);
}

/// Where the bits can count up to the capacity, what is valid for the
/// capacity can be written. The six classes are of this kind.
pub proof fn lemma_writable(codes: Seq<u8>, bit_size: nat, max: u8)
    requires
        max < pow2(bit_size),
    ensures
        writable(codes, bit_size, max) <==> valid_codes(codes, max),
        pow2(3) == 8 && pow2(4) == 16 && pow2(5) == 32 && pow2(6) == 64 && pow2(7) == 128 && pow2(8)
            == 256,
{
    lemma2_to64();
}

/// Round trip: a string within capacity and of allowed characters has an
/// encoding, and reading that encoding gives the string back and ends
/// behind its last byte.
pub proof fn lemma_string_decode_encode(codes: Seq<u8>, bit_size: nat, max: u8)
    requires
        writable(codes, bit_size, max),
    ensures
        spec_write_string(codes, bit_size, max) matches Ok(bytes) && spec_read_string(
            bytes,
            0,
            bit_size,
            max,
        ) == Ok::<(Seq<u8>, int), DecodeError>((codes, 8 * bytes.len() as int)),
{
    let bytes = seq![codes.len() as u8] + codes;
    lemma_carries_self(bytes);
    lemma_string_round_trip(codes, bit_size, max, bytes, 0);
}

/// Round trip at any place: where the encoding of a string within capacity
/// and of allowed characters stands at bit `offset` of a buffer, reading
/// there gives the string back and ends behind it.
pub proof fn lemma_string_round_trip(
    codes: Seq<u8>,
    bit_size: nat,
    max: u8,
    bytes: Seq<u8>,
    offset: int,
)
    requires
        writable(codes, bit_size, max),
        carries(bytes, offset, seq![codes.len() as u8] + codes),
    ensures
        spec_write_string(codes, bit_size, max) == Ok::<Seq<u8>, EncodeError>(
            seq![codes.len() as u8] + codes,
        ),
        spec_read_string(bytes, offset, bit_size, max) == Ok::<(Seq<u8>, int), DecodeError>(
            (codes, offset + 8 * (codes.len() + 1)),
        ),
{
    let chunk = seq![codes.len() as u8] + codes;
    let count = codes.len() as u8;
    lemma_first_disallowed_none(codes);
    lemma_low_bits_fit(count, bit_size);
    assert(nth_byte(bytes, offset, 0) == chunk[0]);
    let body = offset + 8;
    assert forall|i: int| 0 <= i < codes.len() implies #[trigger] nth_byte(bytes, body, i)
        == codes[i] && is_allowed(nth_byte(bytes, body, i)) by {
        assert(nth_byte(bytes, offset, i + 1) == chunk[i + 1]);
        assert(offset + 8 * (i + 1) == body + 8 * i);
        assert(is_allowed(codes[i]));
    }
    assert(low_bits(byte_at(bytes, offset), bit_size) == count);
    lemma_read_codes_ok(bytes, body, codes.len());
    match spec_read_codes(bytes, body, codes.len()) {
        Ok((read, _)) => {
            assert(read =~= codes);
        },
        Err(_) => {},
    }
}

/// Rejection: where the prefix announces `count` characters and one of the
/// bytes in their places is no allowed code, nothing is read.
pub proof fn lemma_string_read_rejects(
    bytes: Seq<u8>,
    offset: int,
    bit_size: nat,
    max: u8,
    index: int,
)
    requires
        spec_sized_u8_read(bytes, offset, bit_size, max) matches Ok((count, body)) && 0 <= index
            < count && !is_allowed(nth_byte(bytes, body, index)),
    ensures
        spec_read_string(bytes, offset, bit_size, max) is Err,
{
    if let Ok((count, body)) = spec_sized_u8_read(bytes, offset, bit_size, max) {
        lemma_read_codes_ok(bytes, body, count as nat);
    }
}

/// A string that was read is valid, and ends inside the buffer.
pub proof fn lemma_string_read_within(bytes: Seq<u8>, offset: int, bit_size: nat, max: u8)
    ensures
        spec_read_string(bytes, offset, bit_size, max) matches Ok((codes, next)) ==> {
            &&& writable(codes, bit_size, max)
            &&& next == offset + 8 * (codes.len() + 1)
            &&& readable(bytes, offset, 8 * (codes.len() + 1) as int)
        },
{
    if let Ok((count, body)) = spec_sized_u8_read(bytes, offset, bit_size, max) {
        lemma_low_bits_below(byte_at(bytes, offset), bit_size);
        lemma_read_codes_ok(bytes, body, count as nat);
    }
}

/// A string of at most `MAX` characters, counted in the `BITS` low bits of
/// its prefix, for any `MAX` and `BITS`.
///
/// `count` is the length as it was last read or brought up to date; it is
/// not written to the wire. Encoding counts the characters of `data` anew.
#[derive(Debug, PartialEq)]
pub struct SizedString<const MAX: u8, const BITS: u8> {
    pub count: u8,
    pub data: Vec<Character>,
}

impl<const MAX: u8, const BITS: u8> View for SizedString<MAX, BITS> {
    type V = Seq<u8>;

    /// The codes of the characters.
    open spec fn view(&self) -> Seq<u8> {
        codes_of(self.data@)
    }
}

impl<const MAX: u8, const BITS: u8> SizedString<MAX, BITS> {
    /// Whether the stored count is the number of characters.
    pub open spec fn is_synced(&self) -> bool {
        self.count == self.data@.len()
    }

    /// Whether the string can be written: within capacity, no longer than
    /// the bits can count, and made of allowed characters.
    pub open spec fn is_valid(&self) -> bool {
        writable(self@, BITS as nat, MAX)
    }

    /// What reading a string of this class at bit `offset` of `bytes` gives.
    pub open spec fn spec_read(bytes: Seq<u8>, offset: int) -> Result<(Seq<u8>, int), DecodeError> {
        spec_read_string(bytes, offset, BITS as nat, MAX)
    }

    /// The bytes that stand on the wire for a string of this class with the
    /// characters `codes`.
    pub open spec fn spec_write(codes: Seq<u8>) -> Result<Seq<u8>, EncodeError> {
        spec_write_string(codes, BITS as nat, MAX)
    }

    /// The capacity of the class.
    pub fn max_len() -> (r: usize)
        ensures
            r == MAX,
    {
        MAX as usize
    }

    /// Reads a string at bit `offset` of `input`.
    pub fn read(input: &[u8], offset: usize) -> (r: Result<(Self, usize), DecodeError>)
        ensures
            match r {
                Ok((value, next)) => Self::spec_read(input@, offset as int) == Ok::<
                    (Seq<u8>, int),
                    DecodeError,
                >((value@, next as int)) && value.is_synced() && value.is_valid(),
                Err(e) => Self::spec_read(input@, offset as int) == Err::<
                    (Seq<u8>, int),
                    DecodeError,
                >(e),
            },
    {
        let (count, data, next) = read_string(input, offset, BITS, MAX)?;
        Ok((Self { count, data }, next))
    }

    /// Appends the string to `output`, with the number of characters that
    /// `data` holds now, whatever `count` says. A failed call leaves
    /// `output` as it was.
    pub fn write(&self, output: &mut Vec<u8>) -> (r: Result<(), EncodeError>)
        ensures
            appended(old(output)@, final(output)@, r, Self::spec_write(self@)),
            r is Ok <==> self.is_valid(),
            r is Ok ==> final(output)@[old(output)@.len() as int] == self.data@.len(),
    {
        write_string(&self.data, BITS, MAX, output)
    }

    /// Reads a string from `input`, a buffer and a bit offset into it, and
    /// returns it with what is left of the buffer.
    pub fn from_bytes<'a>(input: (&'a [u8], usize)) -> (r: Result<
        ((&'a [u8], usize), Self),
        DecodeError,
    >)
        ensures
            match r {
                Ok(((tail, bit), value)) => {
                    &&& Self::spec_read(input.0@, input.1 as int) matches Ok((codes, next))
                    &&& value@ == codes
                    &&& value.is_synced()
                    &&& value.is_valid()
                    &&& tail@ == input.0@.skip(next / 8)
                    &&& bit == next % 8
                },
                Err(e) => Self::spec_read(input.0@, input.1 as int) == Err::<
                    (Seq<u8>, int),
                    DecodeError,
                >(e),
            },
    {
        let (tail, count, data) = string_from_bytes(input, BITS, MAX)?;
        Ok((tail, Self { count, data }))
    }

    /// The string as the bytes that stand for it on the wire. The first
    /// says how many characters `data` holds now, whatever `count` says.
    pub fn to_bytes(&self) -> (r: Result<Vec<u8>, EncodeError>)
        ensures
            encoded(r, Self::spec_write(self@)),
            r is Ok <==> self.is_valid(),
            r matches Ok(bytes) ==> bytes@.len() == self.data@.len() + 1 && bytes@[0]
                == self.data@.len(),
    {
        string_to_bytes(&self.data, BITS, MAX)
    }

    /// The string as text. Strings of allowed characters always have one.
    pub fn to_string(&self) -> (r: Result<String, TextConversionError>)
        ensures
            r is Ok <==> valid_utf8(self@),
            r matches Ok(text) ==> text@ == decode_utf8(self@),
            valid_codes(self@, MAX) ==> (r matches Ok(text) && text@ == text_of(self@)),
    {
        string_to_text(&self.data)
    }

    /// Brings the stored count up to date with the characters, whether or
    /// not the class can hold them. Fails, and changes nothing, when there
    /// are more than a byte can count.
    pub fn update(&mut self) -> (r: Result<(), EncodeError>)
        ensures
            final(self).data == old(self).data,
            old(self).data@.len() <= 255 ==> r is Ok && final(self).is_synced(),
            old(self).data@.len() > 255 ==> r == Err::<(), EncodeError>(
                EncodeError::LengthError(old(self).data@.len() as usize),
            ) && final(self).count == old(self).count,
    {
        self.count = live_count(&self.data)?;
        Ok(())
    }
}

/// A count up to `max` fits the bits that it is given, and would not fit
/// one bit less.
pub proof fn lemma_count_bits(max: u8)
    ensures
        spec_count_bits(max) <= 8,
        max < pow2(spec_count_bits(max)),
        spec_count_bits(max) > 0 ==> max >= pow2((spec_count_bits(max) - 1) as nat),
{
    lemma2_to64();
}

/// Where reading a shorter run fails, reading a longer one fails alike.
pub proof fn lemma_read_codes_error(bytes: Seq<u8>, offset: int, shorter: nat, count: nat)
    requires
        shorter <= count,
        spec_read_codes(bytes, offset, shorter) is Err,
    ensures
        spec_read_codes(bytes, offset, count) == spec_read_codes(bytes, offset, shorter),
    decreases count,
{
    if shorter < count {
        lemma_read_codes_error(bytes, offset, shorter, (count - 1) as nat);
    }
}

/// A run is read exactly when the buffer holds `count` bytes at `offset`
/// and each is an allowed code; the codes are then those bytes.
pub proof fn lemma_read_codes_ok(bytes: Seq<u8>, offset: int, count: nat)
    requires
        readable(bytes, offset, 0),
    ensures
        spec_read_codes(bytes, offset, count) is Ok <==> {
            &&& readable(bytes, offset, 8 * count as int)
            &&& forall|i: int| 0 <= i < count ==> is_allowed(#[trigger] nth_byte(bytes, offset, i))
        },
        spec_read_codes(bytes, offset, count) matches Ok((codes, next)) ==> {
            &&& next == offset + 8 * count
            &&& codes.len() == count
            &&& forall|i: int| 0 <= i < count ==> #[trigger] codes[i] == nth_byte(bytes, offset, i)
        },
    decreases count,
{
    if count == 0 {
        assert(spec_read_codes(bytes, offset, count) is Ok);
    } else {
        let shorter = (count - 1) as nat;
        lemma_read_codes_ok(bytes, offset, shorter);
        let last = nth_byte(bytes, offset, shorter as int);
        match spec_read_codes(bytes, offset, shorter) {
            Ok((codes, next)) => {
                assert(next == offset + 8 * shorter);
                if readable(bytes, next, 8) && is_allowed(last) {
                    assert(spec_read_codes(bytes, offset, count) == Ok::<
                        (Seq<u8>, int),
                        DecodeError,
                    >((codes.push(last), next + 8)));
                    assert forall|i: int| 0 <= i < count implies is_allowed(
                        #[trigger] nth_byte(bytes, offset, i),
                    ) by {}
                } else {
                    assert(spec_read_codes(bytes, offset, count) is Err);
                    if readable(bytes, offset, 8 * count as int) {
                        assert(!is_allowed(nth_byte(bytes, offset, shorter as int)));
                    }
                }
            },
            Err(e) => {
                assert(spec_read_codes(bytes, offset, count) is Err);
                if readable(bytes, offset, 8 * count as int) {
                    assert(readable(bytes, offset, 8 * shorter as int));
                    let i = choose|i: int|
                        0 <= i < shorter && !is_allowed(#[trigger] nth_byte(bytes, offset, i));
                    assert(!is_allowed(nth_byte(bytes, offset, i)));
                }
            },
        }
    }
}

/// The first disallowed code of a run with one more code behind it.
pub proof fn lemma_first_disallowed_push(codes: Seq<u8>, code: u8)
    ensures
        first_disallowed(codes.push(code)) == match first_disallowed(codes) {
            Some(found) => Some(found),
            None => if is_allowed(code) {
                None
            } else {
                Some(code)
            },
        },
    decreases codes.len(),
{
    if codes.len() == 0 {
        assert(codes.push(code).drop_first() =~= codes);
    } else {
        assert(codes.push(code).drop_first() =~= codes.drop_first().push(code));
        lemma_first_disallowed_push(codes.drop_first(), code);
    }
}

/// A disallowed code found in the first `n` codes is the first of the run.
pub proof fn lemma_first_disallowed_prefix(codes: Seq<u8>, n: int)
    requires
        0 <= n <= codes.len(),
        first_disallowed(codes.take(n)) is Some,
    ensures
        first_disallowed(codes) == first_disallowed(codes.take(n)),
    decreases codes.len() - n,
{
    if n < codes.len() {
        lemma_first_disallowed_push(codes.take(n), codes[n]);
        assert(codes.take(n + 1) =~= codes.take(n).push(codes[n]));
        lemma_first_disallowed_prefix(codes, n + 1);
    } else {
        assert(codes.take(n) =~= codes);
    }
}

/// A run has no disallowed code exactly when each of its codes is allowed.
pub proof fn lemma_first_disallowed_none(codes: Seq<u8>)
    ensures
        first_disallowed(codes) is None <==> forall|i: int|
            0 <= i < codes.len() ==> is_allowed(#[trigger] codes[i]),
        first_disallowed(codes) matches Some(code) ==> !is_allowed(code) && codes.contains(code),
    decreases codes.len(),
{
    if codes.len() > 0 {
        let tail = codes.drop_first();
        lemma_first_disallowed_none(tail);
        if is_allowed(codes[0]) {
            if first_disallowed(tail) is None {
                assert forall|i: int| 0 <= i < codes.len() implies is_allowed(
                    #[trigger] codes[i],
                ) by {
                    if i > 0 {
                        assert(codes[i] == tail[i - 1]);
                    }
                }
            } else {
                let code = first_disallowed(tail).unwrap();
                let i = choose|i: int| 0 <= i < tail.len() && tail[i] == code;
                assert(codes[i + 1] == code);
            }
        } else {
            assert(codes[0] == codes[0]);
        }
    }
}

} // verus!
