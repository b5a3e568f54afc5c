//! The message of application performance monitoring, first version.

use crate::error::{DecodeError, EncodeError};
use crate::parts::{
    Action, Application, ApplicationHash, Realm, Status, TrackingPart, TrackingPartView,
};
use crate::primitives::bits::{
    appended, be_bytes, carries, encoded, lemma_be_bytes_len, lemma_be_round_trip,
    lemma_carries_self, lemma_carries_split, limit, nth_byte, read_u64, read_u8, readable, rest,
    spec_read_u64, spec_read_u8, write_u64, write_u8,
};
use crate::primitives::string::{
    lemma_first_disallowed_none, lemma_string_read_within, lemma_string_round_trip,
    lemma_string_write_ok, valid_codes,
};
use vstd::arithmetic::power2::lemma2_to64;
use vstd::prelude::*;

verus! {

/// One report: where it comes from, what was done, how it ended, how long
/// it took, and the parts that were measured on the way.
///
/// `parts_count` is the number of parts as it was last read or brought up
/// to date; it is not written to the wire. Encoding counts `parts` anew.
#[derive(Debug, PartialEq)]
pub struct APMV1Message {
    pub realm: Realm,
    pub application: Application,
    pub application_hash: ApplicationHash,
    pub action: Action,
    pub status: Status,
    pub duration: u64,
    pub parts_count: u8,
    pub parts: Vec<TrackingPart>,
}

/// What a message of the first version stands for.
pub struct APMV1MessageView {
    pub realm: Seq<u8>,
    pub application: Seq<u8>,
    pub application_hash: Seq<u8>,
    pub action: Seq<u8>,
    pub status: Seq<u8>,
    pub duration: u64,
    pub parts: Seq<TrackingPartView>,
}

/// What a run of tracking parts stands for.
pub open spec fn parts_of(parts: Seq<TrackingPart>) -> Seq<TrackingPartView> {
    Seq::new(parts.len(), |i: int| parts[i]@)
}

/// What reading `count` tracking parts one after another from bit `offset`
/// of `bytes` gives: the parts and the offset behind them, or the error of
/// the first part that cannot be read.
pub open spec fn spec_read_parts(bytes: Seq<u8>, offset: int, count: nat) -> Result<
    (Seq<TrackingPartView>, int),
    DecodeError,
>
    decreases count,
{
    if count == 0 {
        Ok((Seq::empty(), offset))
    } else {
        match spec_read_parts(bytes, offset, (count - 1) as nat) {
            Err(e) => Err(e),
            Ok((parts, next)) => match TrackingPart::spec_read(bytes, next) {
                Err(e) => Err(e),
                Ok((part, after)) => Ok((parts.push(part), after)),
            },
        }
    }
}

/// The bytes that stand on the wire for a run of tracking parts, or the
/// error of the first part that has none.
pub open spec fn spec_write_parts(parts: Seq<TrackingPartView>) -> Result<Seq<u8>, EncodeError>
    decreases parts.len(),
{
    if parts.len() == 0 {
        Ok(Seq::empty())
    } else {
        match spec_write_parts(parts.drop_last()) {
            Err(e) => Err(e),
            Ok(bytes) => match TrackingPart::spec_write(parts.last()) {
                Err(e) => Err(e),
                Ok(part) => Ok(bytes + part),
            },
        }
    }
}

/// The five strings and the duration that a message begins with.
pub struct APMV1Head {
    pub realm: Seq<u8>,
    pub application: Seq<u8>,
    pub application_hash: Seq<u8>,
    pub action: Seq<u8>,
    pub status: Seq<u8>,
    pub duration: u64,
}

/// What reading the beginning of a message at bit `offset` of `bytes`
/// gives: realm, application, application hash, action and status, then the
/// duration in eight bytes, most significant first.
pub open spec fn spec_read_head(bytes: Seq<u8>, offset: int) -> Result<
    (APMV1Head, int),
    DecodeError,
> {
    match Realm::spec_read(bytes, offset) {
        Err(e) => Err(e),
        Ok((realm, o1)) => match Application::spec_read(bytes, o1) {
            Err(e) => Err(e),
            Ok((application, o2)) => match ApplicationHash::spec_read(bytes, o2) {
                Err(e) => Err(e),
                Ok((application_hash, o3)) => match Action::spec_read(bytes, o3) {
                    Err(e) => Err(e),
                    Ok((action, o4)) => match Status::spec_read(bytes, o4) {
                        Err(e) => Err(e),
                        Ok((status, o5)) => match spec_read_u64(bytes, o5) {
                            Err(e) => Err(e),
                            Ok((duration, next)) => Ok(
                                (
                                    APMV1Head {
                                        realm,
                                        application,
                                        application_hash,
                                        action,
                                        status,
                                        duration,
                                    },
                                    next,
                                ),
                            ),
                        },
                    },
                },
            },
        }
    }
}

/// The bytes that stand on the wire for the beginning of a message, or the
/// error of the first string that has none.
pub open spec fn spec_write_head(head: APMV1Head) -> Result<Seq<u8>, EncodeError> {
    match Realm::spec_write(head.realm) {
        Err(e) => Err(e),
        Ok(realm) => match Application::spec_write(head.application) {
            Err(e) => Err(e),
            Ok(application) => match ApplicationHash::spec_write(head.application_hash) {
                Err(e) => Err(e),
                Ok(application_hash) => match Action::spec_write(head.action) {
                    Err(e) => Err(e),
                    Ok(action) => match Status::spec_write(head.status) {
                        Err(e) => Err(e),
                        Ok(status) => Ok(
                            realm + application + application_hash + action + status + be_bytes(
                                head.duration as nat,
                                8,
                            ),
                        ),
                    },
                },
            },
        }
    }
}

impl View for APMV1Message {
    type V = APMV1MessageView;

    open spec fn view(&self) -> APMV1MessageView {
        APMV1MessageView {
            realm: self.realm@,
            application: self.application@,
            application_hash: self.application_hash@,
            action: self.action@,
            status: self.status@,
            duration: self.duration,
            parts: parts_of(self.parts@),
        }
    }
}

impl APMV1Head {
    /// Whether each string is within the capacity of its field and made of
    /// allowed characters.
    pub open spec fn is_valid(self) -> bool {
        &&& valid_codes(self.realm, 31)
        &&& valid_codes(self.application, 31)
        &&& valid_codes(self.application_hash, 31)
        &&& valid_codes(self.action, 255)
        &&& valid_codes(self.status, 15)
    }
}

impl APMV1MessageView {
    /// Whether the message can be written: valid strings, no more than 255
    /// parts, and each part with a valid name.
    pub open spec fn is_valid(self) -> bool {
        &&& self.head().is_valid()
        &&& self.parts.len() <= 255
        &&& forall|i: int| 0 <= i < self.parts.len() ==> (#[trigger] self.parts[i]).is_valid()
    }

    /// The beginning of the message.
    pub open spec fn head(self) -> APMV1Head {
        APMV1Head {
            realm: self.realm,
            application: self.application,
            application_hash: self.application_hash,
            action: self.action,
            status: self.status,
            duration: self.duration,
        }
    }
}

impl APMV1Message {
    /// Whether each stored count is the number of what it counts: the parts
    /// of the message, and the characters of each string.
    pub open spec fn is_synced(&self) -> bool {
        &&& self.parts_count == self.parts@.len()
        &&& self.realm.is_synced()
        &&& self.application.is_synced()
        &&& self.application_hash.is_synced()
        &&& self.action.is_synced()
        &&& self.status.is_synced()
        &&& forall|i: int|
            0 <= i < self.parts@.len() ==> (#[trigger] self.parts@[i]).name.is_synced()
    }

    /// Whether the message can be written.
    pub open spec fn is_valid(&self) -> bool {
        self@.is_valid()
    }

    /// What reading a message body at bit `offset` of `bytes` gives: the
    /// beginning, one byte with the number of parts, then the parts.
    pub open spec fn spec_read(bytes: Seq<u8>, offset: int) -> Result<
        (APMV1MessageView, int),
        DecodeError,
    > {
        match spec_read_head(bytes, offset) {
            Err(e) => Err(e),
            Ok((head, behind_head)) => match spec_read_u8(bytes, behind_head) {
                Err(e) => Err(e),
                Ok((count, behind_count)) => match spec_read_parts(
                    bytes,
                    behind_count,
                    count as nat,
                ) {
                    Err(e) => Err(e),
                    Ok((parts, next)) => Ok(
                        (
                            APMV1MessageView {
                                realm: head.realm,
                                application: head.application,
                                application_hash: head.application_hash,
                                action: head.action,
                                status: head.status,
                                duration: head.duration,
                                parts,
                            },
                            next,
                        ),
                    ),
                },
            },
        }
    }

    /// The bytes that stand on the wire for a message body: the beginning,
    /// one byte with the number of parts, then the parts. There is none for
    /// more than 255 parts.
    pub open spec fn spec_write(message: APMV1MessageView) -> Result<Seq<u8>, EncodeError> {
        match spec_write_head(message.head()) {
            Err(e) => Err(e),
            Ok(head) => if message.parts.len() > 255 {
                Err(EncodeError::LengthError(message.parts.len() as usize))
            } else {
                match spec_write_parts(message.parts) {
                    Err(e) => Err(e),
                    Ok(parts) => Ok(head + seq![message.parts.len() as u8] + parts),
                }
            },
        }
    }

    /// Reads the beginning of a message at bit `offset` of `input`.
    fn read_head(input: &[u8], offset: usize) -> (r: Result<
        (Realm, Application, ApplicationHash, Action, Status, u64, usize),
        DecodeError,
    >)
        ensures
            match r {
                Ok((realm, application, application_hash, action, status, duration, next)) => {
                    spec_read_head(input@, offset as int) == Ok::<(APMV1Head, int), DecodeError>(
                        (
                            APMV1Head {
                                realm: realm@,
                                application: application@,
                                application_hash: application_hash@,
                                action: action@,
                                status: status@,
                                duration,
                            },
                            next as int,
                        ),
                    ) && realm.is_valid() && application.is_valid() && application_hash.is_valid()
                        && action.is_valid() && status.is_valid() && realm.is_synced()
                        && application.is_synced() && application_hash.is_synced()
                        && action.is_synced() && status.is_synced()
                },
                Err(e) => spec_read_head(input@, offset as int) == Err::<
                    (APMV1Head, int),
                    DecodeError,
                >(e),
            },
    {
        let (realm, o1) = Realm::read(input, offset)?;
        let (application, o2) = Application::read(input, o1)?;
        let (application_hash, o3) = ApplicationHash::read(input, o2)?;
        let (action, o4) = Action::read(input, o3)?;
        let (status, o5) = Status::read(input, o4)?;
        let (duration, next) = read_u64(input, o5)?;
        Ok((realm, application, application_hash, action, status, duration, next))
    }

    /// Reads a message body at bit `offset` of `input`. Stops at the first
    /// field that cannot be read.
    pub fn read(input: &[u8], offset: usize) -> (r: Result<(Self, usize), DecodeError>)
        ensures
            match r {
                Ok((value, next)) => Self::spec_read(input@, offset as int) == Ok::<
                    (APMV1MessageView, int),
                    DecodeError,
                >((value@, next as int)) && value.is_synced() && value.is_valid(),
                Err(e) => Self::spec_read(input@, offset as int) == Err::<
                    (APMV1MessageView, int),
                    DecodeError,
                >(e),
            },
    {
        let (realm, application, application_hash, action, status, duration, behind_head) =
            Self::read_head(input, offset)?;
        let (parts_count, behind_count) = read_u8(input, behind_head)?;
        let mut parts: Vec<TrackingPart> = Vec::with_capacity(parts_count as usize);
        let mut next = behind_count;
        let mut i: u8 = 0;
        assert(parts_of(parts@) =~= Seq::<TrackingPartView>::empty());
        while i < parts_count
            invariant
                i <= parts_count,
                parts@.len() == i,
                spec_read_head(input@, offset as int) matches Ok((_, behind)) && spec_read_u8(
                    input@,
                    behind,
                ) == Ok::<(u8, int), DecodeError>((parts_count, behind_count as int)),
                spec_read_parts(input@, behind_count as int, i as nat) == Ok::<
                    (Seq<TrackingPartView>, int),
                    DecodeError,
                >((parts_of(parts@), next as int)),
                forall|k: int|
                    0 <= k < parts@.len() ==> (#[trigger] parts@[k]).is_valid()
                        && parts@[k].name.is_synced(),
            decreases parts_count - i,
        {
            match TrackingPart::read(input, next) {
                Ok((part, after)) => {
                    proof {
                        assert(((i + 1) as nat - 1) as nat == i as nat);
                        assert(parts_of(parts@.push(part)) =~= parts_of(parts@).push(part@));
                    }
                    parts.push(part);
                    next = after;
                },
                Err(e) => {
                    proof {
                        assert(((i + 1) as nat - 1) as nat == i as nat);
                        assert(spec_read_parts(input@, behind_count as int, (i + 1) as nat)
                            == Err::<(Seq<TrackingPartView>, int), DecodeError>(e));
                        lemma_read_parts_error(
                            input@,
                            behind_count as int,
                            (i + 1) as nat,
                            parts_count as nat,
                        );
                    }
                    return Err(e);
                },
            }
            i += 1;
        }
        Ok(
            (
                Self {
                    realm,
                    application,
                    application_hash,
                    action,
                    status,
                    duration,
                    parts_count,
                    parts,
                },
                next,
            ),
        )
    }

    /// Appends the beginning of the message to `output`. A failed call
    /// leaves `output` as it was.
    fn write_head(&self, output: &mut Vec<u8>) -> (r: Result<(), EncodeError>)
        ensures
            appended(old(output)@, final(output)@, r, spec_write_head(self@.head())),
            r is Ok <==> self@.head().is_valid(),
    {
        proof {
            lemma_write_head_ok(self@.head());
        }
        let start = output.len();
        match self.realm.write(output) {
            Ok(()) => {},
            Err(e) => {
                return Err(e);
            },
        }
        match self.application.write(output) {
            Ok(()) => {},
            Err(e) => {
                output.truncate(start);
                assert(output@ =~= old(output)@);
                return Err(e);
            },
        }
        match self.application_hash.write(output) {
            Ok(()) => {},
            Err(e) => {
                output.truncate(start);
                assert(output@ =~= old(output)@);
                return Err(e);
            },
        }
        match self.action.write(output) {
            Ok(()) => {},
            Err(e) => {
                output.truncate(start);
                assert(output@ =~= old(output)@);
                return Err(e);
            },
        }
        match self.status.write(output) {
            Ok(()) => {},
            Err(e) => {
                output.truncate(start);
                assert(output@ =~= old(output)@);
                return Err(e);
            },
        }
        write_u64(self.duration, output);
        assert(output@ =~= old(output)@ + spec_write_head(self@.head()).unwrap());
        Ok(())
    }

    /// Appends the message body to `output`, with the number of parts that
    /// `parts` holds now, whatever `parts_count` says. A failed call leaves
    /// `output` as it was.
    pub fn write(&self, output: &mut Vec<u8>) -> (r: Result<(), EncodeError>)
        ensures
            appended(old(output)@, final(output)@, r, Self::spec_write(self@)),
            r is Ok <==> self.is_valid(),
    {
        proof {
            Self::lemma_write_ok(self@);
        }
        let start = output.len();
        match self.write_head(output) {
            Ok(()) => {},
            Err(e) => {
                return Err(e);
            },
        }
        let len = self.parts.len();
        if len > 255 {
            output.truncate(start);
            assert(output@ =~= old(output)@);
            return Err(EncodeError::LengthError(len));
        }
        write_u8(len as u8, output);
        let ghost head = spec_write_head(self@.head()).unwrap();
        let ghost views = parts_of(self.parts@);
        let mut i: usize = 0;
        assert(views.take(0) =~= Seq::<TrackingPartView>::empty());
        while i < len
            invariant
                i <= len == self.parts@.len(),
                len <= 255,
                views == parts_of(self.parts@),
                start == old(output)@.len(),
                spec_write_head(self@.head()) == Ok::<Seq<u8>, EncodeError>(head),
                spec_write_parts(views.take(i as int)) matches Ok(bytes) && output@ == old(output)@
                    + head + seq![len as u8] + bytes,
            decreases len - i,
        {
            proof {
                assert(views.take(i + 1).drop_last() =~= views.take(i as int));
                assert(views.take(i + 1).last() == self.parts@[i as int]@);
            }
            match self.parts[i].write(output) {
                Ok(()) => {
                    proof {
                        let before = spec_write_parts(views.take(i as int)).unwrap();
                        let part = TrackingPart::spec_write(self.parts@[i as int]@).unwrap();
                        assert(output@ =~= old(output)@ + head + seq![len as u8] + (before + part));
                    }
                },
                Err(e) => {
                    proof {
                        lemma_write_parts_error(views, i + 1);
                    }
                    output.truncate(start);
                    assert(output@ =~= old(output)@);
                    return Err(e);
                },
            }
            i += 1;
        }
        proof {
            assert(views.take(len as int) =~= views);
            let bytes = spec_write_parts(views).unwrap();
            assert(output@ =~= old(output)@ + (head + seq![len as u8] + bytes));
        }
        Ok(())
    }

    /// Reads a message body from `input`, a buffer and a bit offset into
    /// it, and returns it with what is left of the buffer.
    pub fn from_bytes<'a>(input: (&'a [u8], usize)) -> (r: Result<
        ((&'a [u8], usize), Self),
        DecodeError,
    >)
        ensures
            match r {
                Ok(((tail, bit), value)) => {
                    &&& Self::spec_read(input.0@, input.1 as int) matches Ok((message, next))
                    &&& value@ == message
                    &&& value.is_synced()
                    &&& value.is_valid()
                    &&& tail@ == input.0@.skip(next / 8)
                    &&& bit == next % 8
                },
                Err(e) => Self::spec_read(input.0@, input.1 as int) == Err::<
                    (APMV1MessageView, int),
                    DecodeError,
                >(e),
            },
    {
        match Self::read(input.0, input.1) {
            Ok((value, next)) => {
                proof {
                    Self::lemma_read_within(input.0@, input.1 as int);
                }
                Ok((rest(input.0, next), value))
            },
            Err(e) => Err(e),
        }
    }

    /// The message body as the bytes that stand for it on the wire.
    pub fn to_bytes(&self) -> (r: Result<Vec<u8>, EncodeError>)
        ensures
            encoded(r, Self::spec_write(self@)),
            r is Ok <==> self.is_valid(),
    {
        let mut output: Vec<u8> = Vec::new();
        match self.write(&mut output) {
            Ok(()) => {
                assert(output@ =~= Self::spec_write(self@).unwrap());
                Ok(output)
            },
            Err(e) => Err(e),
        }
    }

    /// Brings the stored count up to date with the parts. Fails, and
    /// changes nothing, when there are more than 255 of them.
    pub fn update(&mut self) -> (r: Result<(), EncodeError>)
        ensures
            final(self)@ == old(self)@,
            final(self).parts == old(self).parts,
            old(self).parts@.len() <= 255 ==> r is Ok && final(self).parts_count == old(
                self,
            ).parts@.len(),
            old(self).parts@.len() > 255 ==> r == Err::<(), EncodeError>(
                EncodeError::LengthError(old(self).parts@.len() as usize),
            ) && final(self).parts_count == old(self).parts_count,
    {
        let len = self.parts.len();
        if len > 255 {
            return Err(EncodeError::LengthError(len));
        }
        self.parts_count = len as u8;
        Ok(())
    }

    /// A message body has an encoding exactly when it is valid.
    pub proof fn lemma_write_ok(message: APMV1MessageView)
        ensures
            Self::spec_write(message) is Ok <==> message.is_valid(),
    {
        lemma_write_head_ok(message.head());
        lemma_write_parts_ok(message.parts);
    }

    /// A valid message body has an encoding, of no more than 11597 bytes.
    pub proof fn lemma_write_valid(message: APMV1MessageView)
        requires
            message.is_valid(),
        ensures
            Self::spec_write(message) matches Ok(chunk) && chunk.len() <= 11597,
    {
        lemma_write_head_valid(message.head());
        lemma_write_parts_valid(message.parts);
    }

    /// Round trip: where the encoding of a valid message body stands at bit
    /// `offset` of a buffer, reading there gives the body back and ends
    /// behind it.
    pub proof fn lemma_round_trip(message: APMV1MessageView, bytes: Seq<u8>, offset: int)
        requires
            message.is_valid(),
            Self::spec_write(message) matches Ok(chunk) && carries(bytes, offset, chunk),
        ensures
            Self::spec_write(message) matches Ok(chunk) && Self::spec_read(bytes, offset) == Ok::<
                (APMV1MessageView, int),
                DecodeError,
            >((message, offset + 8 * chunk.len())),
    {
        lemma_write_head_valid(message.head());
        lemma_write_parts_valid(message.parts);
        let head = spec_write_head(message.head()).unwrap();
        let count = seq![message.parts.len() as u8];
        let parts = spec_write_parts(message.parts).unwrap();
        lemma_carries_split(bytes, offset, head + count, parts);
        lemma_carries_split(bytes, offset, head, count);
        lemma_head_round_trip(message.head(), bytes, offset);
        let behind_head = offset + 8 * head.len();
        assert(nth_byte(bytes, behind_head, 0) == count[0]);
        lemma_parts_round_trip(message.parts, bytes, behind_head + 8);
    }

    /// Round trip: a valid message body has an encoding, and reading that
    /// encoding gives the body back and ends behind its last byte.
    pub proof fn lemma_decode_encode(message: APMV1MessageView)
        requires
            message.is_valid(),
        ensures
            Self::spec_write(message) matches Ok(chunk) && Self::spec_read(chunk, 0) == Ok::<
                (APMV1MessageView, int),
                DecodeError,
            >((message, 8 * chunk.len() as int)),
    {
        Self::lemma_write_valid(message);
        let chunk = Self::spec_write(message).unwrap();
        lemma_carries_self(chunk);
        Self::lemma_round_trip(message, chunk, 0);
    }

    /// A message body that was read ends inside the buffer.
    pub proof fn lemma_read_within(bytes: Seq<u8>, offset: int)
        ensures
            Self::spec_read(bytes, offset) matches Ok((message, next)) ==> offset <= next
                && readable(bytes, next, 0),
    {
        if let Ok((head, behind_head)) = spec_read_head(bytes, offset) {
            lemma_read_head_within(bytes, offset);
            if let Ok((count, behind_count)) = spec_read_u8(bytes, behind_head) {
                lemma_read_parts_within(bytes, behind_count, count as nat);
            }
        }
    }
}

/// A beginning has an encoding exactly when it is valid.
pub proof fn lemma_write_head_ok(head: APMV1Head)
    ensures
        spec_write_head(head) is Ok <==> head.is_valid(),
{
    lemma2_to64();
    lemma_string_write_ok(head.realm, 5, 31);
    lemma_string_write_ok(head.application, 5, 31);
    lemma_string_write_ok(head.application_hash, 5, 31);
    lemma_string_write_ok(head.action, 8, 255);
    lemma_string_write_ok(head.status, 4, 15);
}

/// A run of parts has an encoding exactly when each part has a valid name.
pub proof fn lemma_write_parts_ok(parts: Seq<TrackingPartView>)
    ensures
        spec_write_parts(parts) is Ok <==> forall|i: int|
            0 <= i < parts.len() ==> (#[trigger] parts[i]).is_valid(),
    decreases parts.len(),
{
    if parts.len() > 0 {
        let init = parts.drop_last();
        lemma_write_parts_ok(init);
        TrackingPart::lemma_write_ok(parts.last());
        assert(parts.last() == parts[parts.len() - 1]);
        if spec_write_parts(parts) is Ok {
            assert forall|i: int| 0 <= i < parts.len() implies (#[trigger] parts[i]).is_valid() by {
                if i < init.len() {
                    assert(init[i] == parts[i]);
                }
            }
        }
        if forall|i: int| 0 <= i < parts.len() ==> (#[trigger] parts[i]).is_valid() {
            assert forall|i: int| 0 <= i < init.len() implies (#[trigger] init[i]).is_valid() by {
                assert(init[i] == parts[i]);
            }
        }
    }
}

/// A valid beginning has an encoding: each string behind its prefix, and
/// the eight bytes of the duration.
pub proof fn lemma_write_head_valid(head: APMV1Head)
    requires
        head.is_valid(),
    ensures
        spec_write_head(head) == Ok::<Seq<u8>, EncodeError>(
            (seq![head.realm.len() as u8] + head.realm) + (seq![head.application.len() as u8]
                + head.application) + (seq![head.application_hash.len() as u8]
                + head.application_hash) + (seq![head.action.len() as u8] + head.action) + (seq![
                head.status.len() as u8,
            ] + head.status) + be_bytes(head.duration as nat, 8),
        ),
        spec_write_head(head).unwrap().len() <= 376,
{
    lemma2_to64();
    lemma_first_disallowed_none(head.realm);
    lemma_first_disallowed_none(head.application);
    lemma_first_disallowed_none(head.application_hash);
    lemma_first_disallowed_none(head.action);
    lemma_first_disallowed_none(head.status);
    lemma_be_bytes_len(head.duration as nat, 8);
}

/// Round trip of the beginning: where the encoding of a valid beginning
/// stands at bit `offset` of a buffer, reading there gives it back and ends
/// behind it.
pub proof fn lemma_head_round_trip(head: APMV1Head, bytes: Seq<u8>, offset: int)
    requires
        head.is_valid(),
        spec_write_head(head) matches Ok(chunk) && carries(bytes, offset, chunk),
    ensures
        spec_write_head(head) matches Ok(chunk) && spec_read_head(bytes, offset) == Ok::<
            (APMV1Head, int),
            DecodeError,
        >((head, offset + 8 * chunk.len())),
{
    lemma2_to64();
    lemma_write_head_valid(head);
    let realm = seq![head.realm.len() as u8] + head.realm;
    let application = seq![head.application.len() as u8] + head.application;
    let application_hash = seq![head.application_hash.len() as u8] + head.application_hash;
    let action = seq![head.action.len() as u8] + head.action;
    let status = seq![head.status.len() as u8] + head.status;
    let duration = be_bytes(head.duration as nat, 8);
    lemma_be_bytes_len(head.duration as nat, 8);
    lemma_carries_split(
        bytes,
        offset,
        realm + application + application_hash + action + status,
        duration,
    );
    lemma_carries_split(bytes, offset, realm + application + application_hash + action, status);
    lemma_carries_split(bytes, offset, realm + application + application_hash, action);
    lemma_carries_split(bytes, offset, realm + application, application_hash);
    lemma_carries_split(bytes, offset, realm, application);
    let o1 = offset + 8 * realm.len();
    let o2 = o1 + 8 * application.len();
    let o3 = o2 + 8 * application_hash.len();
    let o4 = o3 + 8 * action.len();
    let o5 = o4 + 8 * status.len();
    lemma_string_round_trip(head.realm, 5, 31, bytes, offset);
    lemma_string_round_trip(head.application, 5, 31, bytes, o1);
    lemma_string_round_trip(head.application_hash, 5, 31, bytes, o2);
    lemma_string_round_trip(head.action, 8, 255, bytes, o3);
    lemma_string_round_trip(head.status, 4, 15, bytes, o4);
    assert(limit(8) == 0x1_0000_0000_0000_0000) by {
        reveal_with_fuel(limit, 9);
    }
    lemma_be_round_trip(bytes, o5, head.duration as nat, 8);
}

/// A run of parts with valid names has an encoding, of no more than 44
/// bytes for each part.
pub proof fn lemma_write_parts_valid(parts: Seq<TrackingPartView>)
    requires
        forall|i: int| 0 <= i < parts.len() ==> (#[trigger] parts[i]).is_valid(),
    ensures
        spec_write_parts(parts) matches Ok(chunk) && chunk.len() <= 44 * parts.len(),
    decreases parts.len(),
{
    if parts.len() > 0 {
        assert forall|i: int| 0 <= i < parts.drop_last().len() implies (
        #[trigger] parts.drop_last()[i]).is_valid() by {
            assert(parts.drop_last()[i] == parts[i]);
        }
        lemma_write_parts_valid(parts.drop_last());
        assert(parts.last() == parts[parts.len() - 1]);
        TrackingPart::lemma_write_valid(parts.last());
    }
}

/// Round trip of a run of parts: where the encoding of parts with valid
/// names stands at bit `offset` of a buffer, reading as many parts there
/// gives them back and ends behind them.
pub proof fn lemma_parts_round_trip(parts: Seq<TrackingPartView>, bytes: Seq<u8>, offset: int)
    requires
        forall|i: int| 0 <= i < parts.len() ==> (#[trigger] parts[i]).is_valid(),
        spec_write_parts(parts) matches Ok(chunk) && carries(bytes, offset, chunk),
    ensures
        spec_write_parts(parts) matches Ok(chunk) && spec_read_parts(bytes, offset, parts.len())
            == Ok::<(Seq<TrackingPartView>, int), DecodeError>((parts, offset + 8 * chunk.len())),
    decreases parts.len(),
{
    if parts.len() == 0 {
        assert(parts =~= Seq::<TrackingPartView>::empty());
    } else {
        let init = parts.drop_last();
        let last = parts.last();
        assert forall|i: int| 0 <= i < init.len() implies (#[trigger] init[i]).is_valid() by {
            assert(init[i] == parts[i]);
        }
        assert(last == parts[parts.len() - 1]);
        lemma_write_parts_valid(init);
        TrackingPart::lemma_write_valid(last);
        let before = spec_write_parts(init).unwrap();
        let part = TrackingPart::spec_write(last).unwrap();
        lemma_carries_split(bytes, offset, before, part);
        lemma_parts_round_trip(init, bytes, offset);
        TrackingPart::lemma_round_trip(last, bytes, offset + 8 * before.len());
        assert(init.push(last) =~= parts);
        assert((parts.len() - 1) as nat == init.len());
    }
}

/// The beginning of a message that was read ends inside the buffer.
pub proof fn lemma_read_head_within(bytes: Seq<u8>, offset: int)
    ensures
        spec_read_head(bytes, offset) matches Ok((head, next)) ==> offset <= next && readable(
            bytes,
            next,
            0,
        ),
{
    lemma_string_read_within(bytes, offset, 5, 31);
    if let Ok((realm, o1)) = Realm::spec_read(bytes, offset) {
        lemma_string_read_within(bytes, o1, 5, 31);
        if let Ok((application, o2)) = Application::spec_read(bytes, o1) {
            lemma_string_read_within(bytes, o2, 5, 31);
            if let Ok((application_hash, o3)) = ApplicationHash::spec_read(bytes, o2) {
                lemma_string_read_within(bytes, o3, 8, 255);
                if let Ok((action, o4)) = Action::spec_read(bytes, o3) {
                    lemma_string_read_within(bytes, o4, 4, 15);
                }
            }
        }
    }
}

/// A run of tracking parts that was read ends inside the buffer.
pub proof fn lemma_read_parts_within(bytes: Seq<u8>, offset: int, count: nat)
    requires
        readable(bytes, offset, 0),
    ensures
        spec_read_parts(bytes, offset, count) matches Ok((parts, next)) ==> offset <= next
            && readable(bytes, next, 0) && parts.len() == count,
    decreases count,
{
    if count > 0 {
        lemma_read_parts_within(bytes, offset, (count - 1) as nat);
        if let Ok((parts, next)) = spec_read_parts(bytes, offset, (count - 1) as nat) {
            TrackingPart::lemma_read_within(bytes, next);
        }
    }
}

/// Where reading a shorter run of parts fails, reading a longer one fails
/// alike.
pub proof fn lemma_read_parts_error(bytes: Seq<u8>, offset: int, shorter: nat, count: nat)
    requires
        shorter <= count,
        spec_read_parts(bytes, offset, shorter) is Err,
    ensures
        spec_read_parts(bytes, offset, count) == spec_read_parts(bytes, offset, shorter),
    decreases count,
{
    if shorter < count {
        lemma_read_parts_error(bytes, offset, shorter, (count - 1) as nat);
    }
}

/// Where the first `n` parts of a run have no encoding, the run has none,
/// for the same reason.
pub proof fn lemma_write_parts_error(parts: Seq<TrackingPartView>, n: int)
    requires
        0 <= n <= parts.len(),
        spec_write_parts(parts.take(n)) is Err,
    ensures
        spec_write_parts(parts) == spec_write_parts(parts.take(n)),
    decreases parts.len(),
{
    if n < parts.len() {
        assert(parts.drop_last().take(n) =~= parts.take(n));
        lemma_write_parts_error(parts.drop_last(), n);
    } else {
        assert(parts.take(n) =~= parts);
    }
}

} // verus!
