//! Bytes and big-endian integers at bit offsets of a buffer.
//!
//! The bits of a buffer are numbered from the most significant bit of its
//! first byte. A reader holds a bit offset into the buffer; a writer appends
//! whole bytes.

use crate::error::{DecodeError, EncodeError};
use vstd::prelude::*;
use vstd::slice::slice_subrange;

verus! {

/// Whether `width` bits can be read at bit `offset` of `bytes`, and the
/// offset behind them still fits the machine word.
pub open spec fn readable(bytes: Seq<u8>, offset: int, width: int) -> bool {
    &&& 0 <= offset
    &&& offset + width <= 8 * bytes.len()
    &&& offset + width <= usize::MAX
}

/// Whether bit `index` of `byte` is set, bit 0 being the most significant.
pub open spec fn bit_of(byte: u8, index: int) -> bool {
    byte & (0x80u8 >> (index as u8)) != 0
}

/// Whether bit `index` of `bytes` is set.
pub open spec fn bit_at(bytes: Seq<u8>, index: int) -> bool {
    bit_of(bytes[index / 8], index % 8)
}

/// The byte made of the eight bits that start at bit `offset` of `bytes`.
pub open spec fn byte_at(bytes: Seq<u8>, offset: int) -> u8
    recommends
        readable(bytes, offset, 8),
{
    let index = offset / 8;
    let shift = (offset % 8) as u8;
    if shift == 0 {
        bytes[index]
    } else {
        (bytes[index] << shift) | (bytes[index + 1] >> ((8 - shift) as u8))
    }
}

/// The unsigned number that the `width` bytes at bit `offset` of `bytes`
/// spell, most significant byte first.
pub open spec fn be_value(bytes: Seq<u8>, offset: int, width: nat) -> nat
    recommends
        readable(bytes, offset, 8 * width as int),
    decreases width,
{
    if width == 0 {
        0
    } else {
        be_value(bytes, offset, (width - 1) as nat) * 256 + byte_at(
            bytes,
            offset + 8 * (width - 1),
        ) as nat
    }
}

/// The `width` low bytes of `value`, most significant byte first.
pub open spec fn be_bytes(value: nat, width: nat) -> Seq<u8>
    decreases width,
{
    if width == 0 {
        Seq::empty()
    } else {
        be_bytes(value / 256, (width - 1) as nat).push((value % 256) as u8)
    }
}

/// The byte that stands `index` bytes behind bit `offset` of `bytes`.
pub open spec fn nth_byte(bytes: Seq<u8>, offset: int, index: int) -> u8 {
    byte_at(bytes, offset + 8 * index)
}

/// Whether the bytes of `chunk` stand at bit `offset` of `bytes`.
pub open spec fn carries(bytes: Seq<u8>, offset: int, chunk: Seq<u8>) -> bool {
    &&& readable(bytes, offset, 8 * chunk.len() as int)
    &&& forall|i: int| 0 <= i < chunk.len() ==> #[trigger] nth_byte(bytes, offset, i) == chunk[i]
}

/// A decoding result with the offset as a mathematical integer.
pub open spec fn decoded<T>(r: Result<(T, usize), DecodeError>) -> Result<(T, int), DecodeError> {
    match r {
        Ok((value, next)) => Ok((value, next as int)),
        Err(e) => Err(e),
    }
}

/// Whether `r` and `after` are what appending `expected` to `before` gives:
/// the bytes behind `before`, or the error and `before` alone.
pub open spec fn appended(
    before: Seq<u8>,
    after: Seq<u8>,
    r: Result<(), EncodeError>,
    expected: Result<Seq<u8>, EncodeError>,
) -> bool {
    match expected {
        Ok(bytes) => r == Ok::<(), EncodeError>(()) && after == before + bytes,
        Err(e) => r == Err::<(), EncodeError>(e) && after == before,
    }
}

/// Whether `r` holds the bytes of `expected`, or its error.
pub open spec fn encoded(
    r: Result<Vec<u8>, EncodeError>,
    expected: Result<Seq<u8>, EncodeError>,
) -> bool {
    match r {
        Ok(bytes) => expected == Ok::<Seq<u8>, EncodeError>(bytes@),
        Err(e) => expected == Err::<Seq<u8>, EncodeError>(e),
    }
}

/// What reading one byte at bit `offset` of `bytes` gives.
pub open spec fn spec_read_u8(bytes: Seq<u8>, offset: int) -> Result<(u8, int), DecodeError> {
    if readable(bytes, offset, 8) {
        Ok((byte_at(bytes, offset), offset + 8))
    } else {
        Err(DecodeError::Incomplete(8))
    }
}

/// What reading a big-endian `u32` at bit `offset` of `bytes` gives.
pub open spec fn spec_read_u32(bytes: Seq<u8>, offset: int) -> Result<(u32, int), DecodeError> {
    if readable(bytes, offset, 32) {
        Ok((be_value(bytes, offset, 4) as u32, offset + 32))
    } else {
        Err(DecodeError::Incomplete(32))
    }
}

/// What reading a big-endian `u64` at bit `offset` of `bytes` gives.
pub open spec fn spec_read_u64(bytes: Seq<u8>, offset: int) -> Result<(u64, int), DecodeError> {
    if readable(bytes, offset, 64) {
        Ok((be_value(bytes, offset, 8) as u64, offset + 64))
    } else {
        Err(DecodeError::Incomplete(64))
    }
}

/// Whether `width` bits can be read at bit `offset` of `input`.
pub fn can_read(input: &[u8], offset: usize, width: usize) -> (r: bool)
    ensures
        r == readable(input@, offset as int, width as int),
{
    if offset > usize::MAX - width {
        return false;
    }
    let end = offset + width;
    let whole = end / 8;
    let part = end % 8;
    if part == 0 {
        whole <= input.len()
    } else {
        whole < input.len()
    }
}

/// The byte at bit `offset` of `input`.
fn byte(input: &[u8], offset: usize) -> (r: u8)
    requires
        readable(input@, offset as int, 8),
    ensures
        r == byte_at(input@, offset as int),
{
    let index = offset / 8;
    let shift = (offset % 8) as u8;
    if shift == 0 {
        input[index]
    } else {
        (input[index] << shift) | (input[index + 1] >> (8 - shift))
    }
}

/// Reads the byte at bit `offset` of `input`.
pub fn read_u8(input: &[u8], offset: usize) -> (r: Result<(u8, usize), DecodeError>)
    ensures
        decoded(r) == spec_read_u8(input@, offset as int),
{
    if !can_read(input, offset, 8) {
        return Err(DecodeError::Incomplete(8));
    }
    Ok((byte(input, offset), offset + 8))
}

/// Reads the big-endian `u32` at bit `offset` of `input`.
pub fn read_u32(input: &[u8], offset: usize) -> (r: Result<(u32, usize), DecodeError>)
    ensures
        decoded(r) == spec_read_u32(input@, offset as int),
{
    if !can_read(input, offset, 32) {
        return Err(DecodeError::Incomplete(32));
    }
    let b0 = byte(input, offset) as u32;
    let b1 = byte(input, offset + 8) as u32;
    let b2 = byte(input, offset + 16) as u32;
    let b3 = byte(input, offset + 24) as u32;
    proof {
        reveal_with_fuel(be_value, 5);
    }
    Ok((((b0 * 256 + b1) * 256 + b2) * 256 + b3, offset + 32))
}

/// Reads the big-endian `u64` at bit `offset` of `input`.
pub fn read_u64(input: &[u8], offset: usize) -> (r: Result<(u64, usize), DecodeError>)
    ensures
        decoded(r) == spec_read_u64(input@, offset as int),
{
    if !can_read(input, offset, 64) {
        return Err(DecodeError::Incomplete(64));
    }
    let b0 = byte(input, offset) as u64;
    let b1 = byte(input, offset + 8) as u64;
    let b2 = byte(input, offset + 16) as u64;
    let b3 = byte(input, offset + 24) as u64;
    let b4 = byte(input, offset + 32) as u64;
    let b5 = byte(input, offset + 40) as u64;
    let b6 = byte(input, offset + 48) as u64;
    let b7 = byte(input, offset + 56) as u64;
    proof {
        reveal_with_fuel(be_value, 9);
    }
    let high = ((b0 * 256 + b1) * 256 + b2) * 256 + b3;
    let value = (((high * 256 + b4) * 256 + b5) * 256 + b6) * 256 + b7;
    Ok((value, offset + 64))
}

/// Appends `value` to `output`.
pub fn write_u8(value: u8, output: &mut Vec<u8>)
    ensures
        final(output)@ == old(output)@.push(value),
{
    output.push(value);
}

/// Appends the four bytes of `value` to `output`, most significant first.
pub fn write_u32(value: u32, output: &mut Vec<u8>)
    ensures
        final(output)@ == old(output)@ + be_bytes(value as nat, 4),
{
    let b3 = (value % 256) as u8;
    let high = value / 256;
    let b2 = (high % 256) as u8;
    let high = high / 256;
    let b1 = (high % 256) as u8;
    let high = high / 256;
    let b0 = (high % 256) as u8;
    output.push(b0);
    output.push(b1);
    output.push(b2);
    output.push(b3);
    proof {
        reveal_with_fuel(be_bytes, 5);
        assert(output@ =~= old(output)@ + be_bytes(value as nat, 4));
    }
}

/// Appends the eight bytes of `value` to `output`, most significant first.
pub fn write_u64(value: u64, output: &mut Vec<u8>)
    ensures
        final(output)@ == old(output)@ + be_bytes(value as nat, 8),
{
    let b7 = (value % 256) as u8;
    let high = value / 256;
    let b6 = (high % 256) as u8;
    let high = high / 256;
    let b5 = (high % 256) as u8;
    let high = high / 256;
    let b4 = (high % 256) as u8;
    let high = high / 256;
    let b3 = (high % 256) as u8;
    let high = high / 256;
    let b2 = (high % 256) as u8;
    let high = high / 256;
    let b1 = (high % 256) as u8;
    let high = high / 256;
    let b0 = (high % 256) as u8;
    output.push(b0);
    output.push(b1);
    output.push(b2);
    output.push(b3);
    output.push(b4);
    output.push(b5);
    output.push(b6);
    output.push(b7);
    proof {
        reveal_with_fuel(be_bytes, 9);
        assert(output@ =~= old(output)@ + be_bytes(value as nat, 8));
    }
}

/// What is left of `input` from bit `offset` on: the bytes from the one that
/// holds that bit, and the bit's place in it. Nothing is left behind the
/// end.
pub fn rest<'a>(input: &'a [u8], offset: usize) -> (r: (&'a [u8], usize))
    ensures
        offset / 8 <= input@.len() ==> r.0@ == input@.skip((offset / 8) as int),
        offset / 8 > input@.len() ==> r.0@ == Seq::<u8>::empty(),
        r.1 == offset % 8,
{
    let whole = offset / 8;
    let start = if whole <= input.len() {
        whole
    } else {
        input.len()
    };
    (slice_subrange(input, start, input.len()), offset % 8)
}

/// The bits of `byte_at` are the eight bits of the buffer from `offset` on,
/// in their order.
pub proof fn lemma_byte_at_bits(bytes: Seq<u8>, offset: int, index: int)
    requires
        readable(bytes, offset, 8),
        0 <= index < 8,
    ensures
        bit_of(byte_at(bytes, offset), index) == bit_at(bytes, offset + index),
{
    let first = bytes[offset / 8];
    let shift = (offset % 8) as u8;
    let j = index as u8;
    assert((offset + index) / 8 == offset / 8 + (shift + j) / 8);
    assert((offset + index) % 8 == (shift + j) % 8);
    if shift != 0 {
        let second = bytes[offset / 8 + 1];
        let joined = (first << shift) | (second >> ((8 - shift) as u8));
        assert((joined & (0x80u8 >> j) != 0) == (if shift + j < 8 {
            first & (0x80u8 >> ((shift + j) as u8)) != 0
        } else {
            second & (0x80u8 >> ((shift + j - 8) as u8)) != 0
        })) by (bit_vector)
            requires
                0 < shift < 8,
                j < 8,
                joined == (first << shift) | (second >> ((8 - shift) as u8)),
        ;
    }
}

/// A buffer carries its own bytes from its first bit on.
pub proof fn lemma_carries_self(bytes: Seq<u8>)
    requires
        8 * bytes.len() <= usize::MAX,
    ensures
        carries(bytes, 0, bytes),
{
    assert forall|i: int| 0 <= i < bytes.len() implies #[trigger] nth_byte(bytes, 0, i)
        == bytes[i] by {
        assert((0 + 8 * i) / 8 == i && (0 + 8 * i) % 8 == 0);
    }
}

/// Where a buffer carries two chunks put together, it carries the first,
/// and behind it the second.
pub proof fn lemma_carries_split(bytes: Seq<u8>, offset: int, first: Seq<u8>, second: Seq<u8>)
    requires
        carries(bytes, offset, first + second),
    ensures
        carries(bytes, offset, first),
        carries(bytes, offset + 8 * first.len(), second),
{
    let chunk = first + second;
    assert forall|i: int| 0 <= i < first.len() implies #[trigger] nth_byte(bytes, offset, i)
        == first[i] by {
        assert(chunk[i] == first[i]);
    }
    assert forall|i: int| 0 <= i < second.len() implies #[trigger] nth_byte(
        bytes,
        offset + 8 * first.len(),
        i,
    ) == second[i] by {
        assert(chunk[first.len() + i] == second[i]);
        assert(offset + 8 * (first.len() + i) == offset + 8 * first.len() + 8 * i);
        assert(nth_byte(bytes, offset, first.len() + i) == chunk[first.len() + i]);
    }
}

/// What `rest` returns reads on where the buffer left off: each byte that
/// the buffer holds behind bit `offset` stands at the same distance behind
/// the returned bit of the returned bytes.
pub proof fn lemma_rest_reads_on(bytes: Seq<u8>, offset: int, distance: int)
    requires
        0 <= offset,
        0 <= distance,
        readable(bytes, offset + distance, 8),
    ensures
        readable(bytes.skip(offset / 8), offset % 8 + distance, 8),
        byte_at(bytes.skip(offset / 8), offset % 8 + distance) == byte_at(bytes, offset + distance),
{
    let whole = offset / 8;
    let place = offset % 8 + distance;
    assert(place / 8 + whole == (offset + distance) / 8);
    assert(place % 8 == (offset + distance) % 8);
    let tail = bytes.skip(whole);
    assert(tail[place / 8] == bytes[(offset + distance) / 8]);
    if place % 8 != 0 {
        assert(tail[place / 8 + 1] == bytes[(offset + distance) / 8 + 1]);
    }
}

/// The number of values that `width` bytes can spell.
pub open spec fn limit(width: nat) -> nat
    decreases width,
{
    if width == 0 {
        1
    } else {
        256 * limit((width - 1) as nat)
    }
}

/// `width` bytes spell a number below `limit(width)`: four bytes fit a
/// `u32`, eight a `u64`.
pub proof fn lemma_be_value_bound(bytes: Seq<u8>, offset: int, width: nat)
    ensures
        be_value(bytes, offset, width) < limit(width),
        limit(4) == 0x1_0000_0000,
        limit(8) == 0x1_0000_0000_0000_0000,
    decreases width,
{
    reveal_with_fuel(limit, 9);
    if width > 0 {
        lemma_be_value_bound(bytes, offset, (width - 1) as nat);
    }
}

/// `be_bytes` gives `width` bytes.
pub proof fn lemma_be_bytes_len(value: nat, width: nat)
    ensures
        be_bytes(value, width).len() == width,
    decreases width,
{
    if width > 0 {
        lemma_be_bytes_len(value / 256, (width - 1) as nat);
    }
}

/// A number below `limit(width)` is read back from its `width` bytes,
/// wherever they stand.
pub proof fn lemma_be_round_trip(bytes: Seq<u8>, offset: int, value: nat, width: nat)
    requires
        carries(bytes, offset, be_bytes(value, width)),
        value < limit(width),
    ensures
        be_value(bytes, offset, width) == value,
    decreases width,
{
    if width > 0 {
        let shorter = (width - 1) as nat;
        let chunk = be_bytes(value, width);
        let head = be_bytes(value / 256, shorter);
        lemma_be_bytes_len(value, width);
        lemma_be_bytes_len(value / 256, shorter);
        assert forall|i: int| 0 <= i < head.len() implies #[trigger] nth_byte(bytes, offset, i)
            == head[i] by {
            assert(chunk[i] == head[i]);
        }
        lemma_be_round_trip(bytes, offset, value / 256, shorter);
        assert(chunk[width - 1] == (value % 256) as u8);
        assert(nth_byte(bytes, offset, width - 1) == chunk[width - 1]);
    }
}

} // verus!
