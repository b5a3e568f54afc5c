//! The messages, each behind the byte that tells its kind.

use crate::error::{DecodeError, EncodeError};
use crate::primitives::bits::{
    appended, carries, encoded, lemma_carries_self, lemma_carries_split, nth_byte, read_u8,
    readable, rest, spec_read_u8, write_u8,
};
use apm_v1::{APMV1Message, APMV1MessageView};
use vstd::prelude::*;

pub mod apm_v1;

verus! {

/// The leading byte of a message of application performance monitoring,
/// first version.
pub const APM_V1_ID: u8 = 0x01;

/// A message: one byte that tells its kind, then its body.
#[derive(Debug, PartialEq)]
pub enum Message {
    ApmV1(APMV1Message),
}

/// What a message stands for.
pub enum MessageView {
    ApmV1(APMV1MessageView),
}

impl MessageView {
    /// Whether the message can be written.
    pub open spec fn is_valid(self) -> bool {
        match self {
            MessageView::ApmV1(body) => body.is_valid(),
        }
    }
}

impl View for Message {
    type V = MessageView;

    open spec fn view(&self) -> MessageView {
        match self {
            Message::ApmV1(body) => MessageView::ApmV1(body@),
        }
    }
}

impl Message {
    /// Whether the message can be written.
    pub open spec fn is_valid(&self) -> bool {
        self@.is_valid()
    }

    /// Whether each stored count is the number of what it counts.
    pub open spec fn is_synced(&self) -> bool {
        match self {
            Message::ApmV1(body) => body.is_synced(),
        }
    }

    /// What reading a message at bit `offset` of `bytes` gives: the body
    /// that the leading byte announces, or `UnknownDiscriminant` with that
    /// byte when it announces none.
    pub open spec fn spec_read(bytes: Seq<u8>, offset: int) -> Result<
        (MessageView, int),
        DecodeError,
    > {
        match spec_read_u8(bytes, offset) {
            Err(e) => Err(e),
            Ok((id, behind_id)) => if id == APM_V1_ID {
                match APMV1Message::spec_read(bytes, behind_id) {
                    Err(e) => Err(e),
                    Ok((body, next)) => Ok((MessageView::ApmV1(body), next)),
                }
            } else {
                Err(DecodeError::UnknownDiscriminant(id))
            },
        }
    }

    /// The bytes that stand on the wire for a message: the byte of its
    /// kind, then its body.
    pub open spec fn spec_write(message: MessageView) -> Result<Seq<u8>, EncodeError> {
        match message {
            MessageView::ApmV1(body) => match APMV1Message::spec_write(body) {
                Err(e) => Err(e),
                Ok(bytes) => Ok(seq![APM_V1_ID] + bytes),
            },
        }
    }

    /// Reads a message at bit `offset` of `input`.
    pub fn read(input: &[u8], offset: usize) -> (r: Result<(Self, usize), DecodeError>)
        ensures
            match r {
                Ok((value, next)) => Self::spec_read(input@, offset as int) == Ok::<
                    (MessageView, int),
                    DecodeError,
                >((value@, next as int)) && value.is_synced() && value.is_valid(),
                Err(e) => Self::spec_read(input@, offset as int) == Err::<
                    (MessageView, int),
                    DecodeError,
                >(e),
            },
    {
        let (id, behind_id) = read_u8(input, offset)?;
        if id == APM_V1_ID {
            let (body, next) = APMV1Message::read(input, behind_id)?;
            Ok((Message::ApmV1(body), next))
        } else {
            Err(DecodeError::UnknownDiscriminant(id))
        }
    }

    /// Appends the message to `output`. A failed call leaves `output` as it
    /// was.
    pub fn write(&self, output: &mut Vec<u8>) -> (r: Result<(), EncodeError>)
        ensures
            appended(old(output)@, final(output)@, r, Self::spec_write(self@)),
            r is Ok <==> self.is_valid(),
    {
        proof {
            Self::lemma_write_ok(self@);
        }
        let start = output.len();
        match self {
            Message::ApmV1(body) => {
                write_u8(APM_V1_ID, output);
                match body.write(output) {
                    Ok(()) => {
                        assert(output@ =~= old(output)@ + Self::spec_write(self@).unwrap());
                        Ok(())
                    },
                    Err(e) => {
                        output.truncate(start);
                        assert(output@ =~= old(output)@);
                        Err(e)
                    },
                }
            },
        }
    }

    /// Reads a message from `input`, a buffer and a bit offset into it, and
    /// returns it with what is left of the buffer.
    pub fn from_bytes<'a>(input: (&'a [u8], usize)) -> (r: Result<
        ((&'a [u8], usize), Self),
        DecodeError,
    >)
        ensures
            match r {
                Ok(((tail, bit), value)) => {
                    &&& Self::spec_read(input.0@, input.1 as int) matches Ok((message, next))
                    &&& value@ == message
                    &&& value.is_synced()
                    &&& value.is_valid()
                    &&& tail@ == input.0@.skip(next / 8)
                    &&& bit == next % 8
                },
                Err(e) => Self::spec_read(input.0@, input.1 as int) == Err::<
                    (MessageView, int),
                    DecodeError,
                >(e),
            },
    {
        match Self::read(input.0, input.1) {
            Ok((value, next)) => {
                proof {
                    Self::lemma_read_within(input.0@, input.1 as int);
                }
                Ok((rest(input.0, next), value))
            },
            Err(e) => Err(e),
        }
    }

    /// The message as the bytes that stand for it on the wire.
    pub fn to_bytes(&self) -> (r: Result<Vec<u8>, EncodeError>)
        ensures
            encoded(r, Self::spec_write(self@)),
            r is Ok <==> self.is_valid(),
    {
        let mut output: Vec<u8> = Vec::new();
        match self.write(&mut output) {
            Ok(()) => {
                assert(output@ =~= Self::spec_write(self@).unwrap());
                Ok(output)
            },
            Err(e) => Err(e),
        }
    }

    /// A message has an encoding exactly when it is valid.
    pub proof fn lemma_write_ok(message: MessageView)
        ensures
            Self::spec_write(message) is Ok <==> message.is_valid(),
    {
        match message {
            MessageView::ApmV1(body) => {
                APMV1Message::lemma_write_ok(body);
            },
        }
    }

    /// A valid message has an encoding, of no more than 11598 bytes.
    pub proof fn lemma_write_valid(message: MessageView)
        requires
            message.is_valid(),
        ensures
            Self::spec_write(message) matches Ok(chunk) && chunk.len() <= 11598,
    {
        match message {
            MessageView::ApmV1(body) => {
                APMV1Message::lemma_write_valid(body);
            },
        }
    }

    /// Round trip: where the encoding of a valid message stands at bit
    /// `offset` of a buffer, reading there gives the message back and ends
    /// behind it.
    pub proof fn lemma_round_trip(message: MessageView, bytes: Seq<u8>, offset: int)
        requires
            message.is_valid(),
            Self::spec_write(message) matches Ok(chunk) && carries(bytes, offset, chunk),
        ensures
            Self::spec_write(message) matches Ok(chunk) && Self::spec_read(bytes, offset) == Ok::<
                (MessageView, int),
                DecodeError,
            >((message, offset + 8 * chunk.len())),
    {
        match message {
            MessageView::ApmV1(body) => {
                APMV1Message::lemma_write_valid(body);
                let id = seq![APM_V1_ID];
                let rest = APMV1Message::spec_write(body).unwrap();
                lemma_carries_split(bytes, offset, id, rest);
                assert(nth_byte(bytes, offset, 0) == id[0]);
                APMV1Message::lemma_round_trip(body, bytes, offset + 8);
            },
        }
    }

    /// Round trip: a valid message has an encoding, and reading that
    /// encoding gives the message back and ends behind its last byte.
    pub proof fn lemma_decode_encode(message: MessageView)
        requires
            message.is_valid(),
        ensures
            Self::spec_write(message) matches Ok(chunk) && Self::spec_read(chunk, 0) == Ok::<
                (MessageView, int),
                DecodeError,
            >((message, 8 * chunk.len() as int)),
    {
        Self::lemma_write_valid(message);
        let chunk = Self::spec_write(message).unwrap();
        lemma_carries_self(chunk);
        Self::lemma_round_trip(message, chunk, 0);
    }

    /// Unknown kind: where the byte at bit `offset` is not the leading byte
    /// of a message of a known kind, reading fails with that byte, whatever
    /// follows it.
    pub proof fn lemma_unknown_discriminant(bytes: Seq<u8>, offset: int)
        requires
            readable(bytes, offset, 8),
            nth_byte(bytes, offset, 0) != APM_V1_ID,
        ensures
            Self::spec_read(bytes, offset) == Err::<(MessageView, int), DecodeError>(
                DecodeError::UnknownDiscriminant(nth_byte(bytes, offset, 0)),
            ),
    {
    }

    /// A message that was read ends inside the buffer.
    pub proof fn lemma_read_within(bytes: Seq<u8>, offset: int)
        ensures
            Self::spec_read(bytes, offset) matches Ok((message, next)) ==> offset <= next
                && readable(bytes, next, 0),
    {
        if let Ok((id, behind_id)) = spec_read_u8(bytes, offset) {
            APMV1Message::lemma_read_within(bytes, behind_id);
        }
    }
}

} // verus!
