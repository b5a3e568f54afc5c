//! The parts that a message is made of.

use crate::error::{DecodeError, EncodeError};
use crate::primitives::bits::{
    appended, be_bytes, carries, encoded, lemma_be_bytes_len, lemma_be_round_trip,
    lemma_carries_self, lemma_carries_split,
    limit, read_u32, read_u64, readable, rest, spec_read_u32, spec_read_u64, write_u32, write_u64,
};
use crate::primitives::string::{
    lemma_first_disallowed_none, lemma_string_read_within, lemma_string_round_trip,
    lemma_string_write_ok, valid_codes,
};
use vstd::arithmetic::power2::lemma2_to64;
use vstd::prelude::*;

pub mod string;

verus! {

/// The realm that a message comes from.
pub type Realm = string::String32;

/// The application that a message comes from.
pub type Application = string::String32;

/// The status that an action ended with.
pub type Status = string::String16;

/// The action that a message reports.
pub type Action = string::String256;

/// The hash of the application's build.
pub type ApplicationHash = string::String32;

/// The name of a tracking part.
pub type PartName = string::String32;

/// One measurement: how often a named part was hit, and how long it took
/// in all.
#[derive(Debug, PartialEq)]
pub struct TrackingPart {
    pub name: PartName,
    pub hits: u32,
    pub total_duration: u64,
}

/// What a tracking part stands for.
pub struct TrackingPartView {
    pub name: Seq<u8>,
    pub hits: u32,
    pub total_duration: u64,
}

impl View for TrackingPart {
    type V = TrackingPartView;

    open spec fn view(&self) -> TrackingPartView {
        TrackingPartView {
            name: self.name@,
            hits: self.hits,
            total_duration: self.total_duration,
        }
    }
}

impl TrackingPartView {
    /// Whether the name is within capacity and made of allowed characters.
    pub open spec fn is_valid(self) -> bool {
        valid_codes(self.name, 31)
    }
}

impl TrackingPart {
    /// Whether the name is within capacity and made of allowed characters.
    pub open spec fn is_valid(&self) -> bool {
        self@.is_valid()
    }

    /// What reading a tracking part at bit `offset` of `bytes` gives: the
    /// name, then the hits in four bytes, then the duration in eight, both
    /// most significant byte first.
    pub open spec fn spec_read(bytes: Seq<u8>, offset: int) -> Result<
        (TrackingPartView, int),
        DecodeError,
    > {
        match PartName::spec_read(bytes, offset) {
            Err(e) => Err(e),
            Ok((name, behind_name)) => match spec_read_u32(bytes, behind_name) {
                Err(e) => Err(e),
                Ok((hits, behind_hits)) => match spec_read_u64(bytes, behind_hits) {
                    Err(e) => Err(e),
                    Ok((total_duration, next)) => Ok(
                        (TrackingPartView { name, hits, total_duration }, next),
                    ),
                },
            },
        }
    }

    /// The bytes that stand on the wire for a tracking part.
    pub open spec fn spec_write(part: TrackingPartView) -> Result<Seq<u8>, EncodeError> {
        match PartName::spec_write(part.name) {
            Err(e) => Err(e),
            Ok(name) => Ok(
                name + be_bytes(part.hits as nat, 4) + be_bytes(part.total_duration as nat, 8),
            ),
        }
    }

    /// Reads a tracking part at bit `offset` of `input`.
    pub fn read(input: &[u8], offset: usize) -> (r: Result<(Self, usize), DecodeError>)
        ensures
            match r {
                Ok((value, next)) => Self::spec_read(input@, offset as int) == Ok::<
                    (TrackingPartView, int),
                    DecodeError,
                >((value@, next as int)) && value.is_valid() && value.name.is_synced(),
                Err(e) => Self::spec_read(input@, offset as int) == Err::<
                    (TrackingPartView, int),
                    DecodeError,
                >(e),
            },
    {
        let (name, behind_name) = PartName::read(input, offset)?;
        let (hits, behind_hits) = read_u32(input, behind_name)?;
        let (total_duration, next) = read_u64(input, behind_hits)?;
        Ok((Self { name, hits, total_duration }, next))
    }

    /// Appends the tracking part to `output`. A failed call leaves `output`
    /// as it was.
    pub fn write(&self, output: &mut Vec<u8>) -> (r: Result<(), EncodeError>)
        ensures
            appended(old(output)@, final(output)@, r, Self::spec_write(self@)),
            r is Ok <==> self.is_valid(),
    {
        proof {
            Self::lemma_write_ok(self@);
        }
        match self.name.write(output) {
            Ok(()) => {},
            Err(e) => {
                return Err(e);
            },
        }
        write_u32(self.hits, output);
        write_u64(self.total_duration, output);
        proof {
            let name = PartName::spec_write(self.name@).unwrap();
            assert(output@ =~= old(output)@ + (name + be_bytes(self.hits as nat, 4) + be_bytes(
                self.total_duration as nat,
                8,
            )));
        }
        Ok(())
    }

    /// Reads a tracking part from `input`, a buffer and a bit offset into
    /// it, and returns it with what is left of the buffer.
    pub fn from_bytes<'a>(input: (&'a [u8], usize)) -> (r: Result<
        ((&'a [u8], usize), Self),
        DecodeError,
    >)
        ensures
            match r {
                Ok(((tail, bit), value)) => {
                    &&& Self::spec_read(input.0@, input.1 as int) matches Ok((part, next))
                    &&& value@ == part
                    &&& value.is_valid()
                    &&& tail@ == input.0@.skip(next / 8)
                    &&& bit == next % 8
                },
                Err(e) => Self::spec_read(input.0@, input.1 as int) == Err::<
                    (TrackingPartView, int),
                    DecodeError,
                >(e),
            },
    {
        match Self::read(input.0, input.1) {
            Ok((value, next)) => {
                proof {
                    Self::lemma_read_within(input.0@, input.1 as int);
                }
                Ok((rest(input.0, next), value))
            },
            Err(e) => Err(e),
        }
    }

    /// The tracking part as the bytes that stand for it on the wire.
    pub fn to_bytes(&self) -> (r: Result<Vec<u8>, EncodeError>)
        ensures
            encoded(r, Self::spec_write(self@)),
            r is Ok <==> self.is_valid(),
    {
        let mut output: Vec<u8> = Vec::new();
        match self.write(&mut output) {
            Ok(()) => {
                assert(output@ =~= Self::spec_write(self@).unwrap());
                Ok(output)
            },
            Err(e) => Err(e),
        }
    }

    /// A tracking part that was read ends inside the buffer, at least
    /// thirteen bytes behind its start.
    pub proof fn lemma_read_within(bytes: Seq<u8>, offset: int)
        ensures
            Self::spec_read(bytes, offset) matches Ok((part, next)) ==> {
                &&& next == offset + 8 * (part.name.len() + 13)
                &&& part.name.len() <= 31
                &&& readable(bytes, offset, next - offset)
            },
    {
        lemma_string_read_within(bytes, offset, 5, 31);
    }

    /// A tracking part has an encoding exactly when its name is valid.
    pub proof fn lemma_write_ok(part: TrackingPartView)
        ensures
            Self::spec_write(part) is Ok <==> part.is_valid(),
    {
        lemma_string_write_ok(part.name, 5, 31);
        lemma2_to64();
    }

    /// A tracking part with a valid name has an encoding, of the name's
    /// length and thirteen bytes more.
    pub proof fn lemma_write_valid(part: TrackingPartView)
        requires
            part.is_valid(),
        ensures
            Self::spec_write(part) matches Ok(chunk) && chunk.len() == part.name.len() + 13,
    {
        lemma2_to64();
        lemma_first_disallowed_none(part.name);
        lemma_be_bytes_len(part.hits as nat, 4);
        lemma_be_bytes_len(part.total_duration as nat, 8);
    }

    /// Round trip: where the encoding of a tracking part with a valid name
    /// stands at bit `offset` of a buffer, reading there gives the part back
    /// and ends behind it.
    pub proof fn lemma_round_trip(part: TrackingPartView, bytes: Seq<u8>, offset: int)
        requires
            part.is_valid(),
            Self::spec_write(part) matches Ok(chunk) && carries(bytes, offset, chunk),
        ensures
            Self::spec_write(part) matches Ok(chunk) && Self::spec_read(bytes, offset) == Ok::<
                (TrackingPartView, int),
                DecodeError,
            >((part, offset + 8 * chunk.len())),
    {
        let name = seq![part.name.len() as u8] + part.name;
        let hits = be_bytes(part.hits as nat, 4);
        let total = be_bytes(part.total_duration as nat, 8);
        lemma2_to64();
        Self::lemma_write_valid(part);
        assert(PartName::spec_write(part.name) == Ok::<Seq<u8>, EncodeError>(name));
        lemma_be_bytes_len(part.hits as nat, 4);
        lemma_be_bytes_len(part.total_duration as nat, 8);
        lemma_carries_split(bytes, offset, name + hits, total);
        lemma_carries_split(bytes, offset, name, hits);
        lemma_string_round_trip(part.name, 5, 31, bytes, offset);
        let behind_name = offset + 8 * name.len();
        let behind_hits = behind_name + 32;
        assert(limit(4) == 0x1_0000_0000 && limit(8) == 0x1_0000_0000_0000_0000) by {
            reveal_with_fuel(limit, 9);
        }
        lemma_be_round_trip(bytes, behind_name, part.hits as nat, 4);
        lemma_be_round_trip(bytes, behind_hits, part.total_duration as nat, 8);
    }

    /// Round trip: a tracking part with a valid name has an encoding, and
    /// reading that encoding gives the part back and ends behind its last
    /// byte.
    pub proof fn lemma_decode_encode(part: TrackingPartView)
        requires
            part.is_valid(),
        ensures
            Self::spec_write(part) matches Ok(chunk) && Self::spec_read(chunk, 0) == Ok::<
                (TrackingPartView, int),
                DecodeError,
            >((part, 8 * chunk.len() as int)),
    {
        Self::lemma_write_valid(part);
        let chunk = Self::spec_write(part).unwrap();
        assert(carries(chunk, 0, chunk)) by {
            lemma_carries_self(chunk);
        }
        Self::lemma_round_trip(part, chunk, 0);
    }
}

} // verus!
