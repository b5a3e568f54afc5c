use palantir_types::error::{DecodeError, EncodeError};
use palantir_types::messages::apm_v1::APMV1Message;
use palantir_types::messages::{Message, APM_V1_ID};
use palantir_types::parts::{
    Action, Application, ApplicationHash, PartName, Realm, Status, TrackingPart,
};
use palantir_types::primitives::character::error::CharacterError;
use palantir_types::primitives::character::Character;
use std::convert::TryFrom;

fn part(name: &str, hits: u32, total_duration: u64) -> TrackingPart {
    TrackingPart {
        name: PartName::try_from(name.as_bytes().to_vec()).unwrap(),
        hits,
        total_duration,
    }
}

fn sample(parts: Vec<TrackingPart>) -> APMV1Message {
    APMV1Message {
        realm: Realm::try_from(b"prod".to_vec()).unwrap(),
        application: Application::try_from(b"shop".to_vec()).unwrap(),
        application_hash: ApplicationHash::try_from(b"a1b2".to_vec()).unwrap(),
        action: Action::try_from(b"cart.add".to_vec()).unwrap(),
        status: Status::try_from(b"ok".to_vec()).unwrap(),
        duration: 0x0102_0304_0506_0708,
        parts_count: parts.len() as u8,
        parts,
    }
}

fn sample_bytes() -> Vec<u8> {
    let mut expected = Vec::new();
    expected.push(4);
    expected.extend_from_slice(b"prod");
    expected.push(4);
    expected.extend_from_slice(b"shop");
    expected.push(4);
    expected.extend_from_slice(b"a1b2");
    expected.push(8);
    expected.extend_from_slice(b"cart.add");
    expected.push(2);
    expected.extend_from_slice(b"ok");
    expected.extend_from_slice(&[1, 2, 3, 4, 5, 6, 7, 8]);
    expected.push(2);
    expected.push(2);
    expected.extend_from_slice(b"db");
    expected.extend_from_slice(&[0, 0, 0, 3]);
    expected.extend_from_slice(&[0, 0, 0, 0, 0, 0, 0, 200]);
    expected.push(5);
    expected.extend_from_slice(b"cache");
    expected.extend_from_slice(&[0, 0, 1, 0]);
    expected.extend_from_slice(&[0, 0, 0, 0, 0, 0, 0, 9]);
    expected
}

#[test]
fn test_unknown_discriminant() {
    assert_eq!(
        Message::from_bytes((&[0x02u8][..], 0)).unwrap_err(),
        DecodeError::UnknownDiscriminant(0x02)
    );
    assert_eq!(
        Message::from_bytes((&[0x02u8, 0, 0, 0][..], 0)).unwrap_err(),
        DecodeError::UnknownDiscriminant(0x02)
    );
    let mut data = vec![0x02u8];
    data.extend_from_slice(&sample_bytes());
    assert_eq!(
        Message::from_bytes((&data, 0)).unwrap_err(),
        DecodeError::UnknownDiscriminant(0x02)
    );
    assert_eq!(
        Message::read(&[0x02u8, 0xff, 0xff], 0).unwrap_err(),
        DecodeError::UnknownDiscriminant(0x02)
    );
    assert_eq!(
        Message::read(&[0x00u8], 0).unwrap_err(),
        DecodeError::UnknownDiscriminant(0x00)
    );
    assert_eq!(
        Message::read(&[0xffu8], 0).unwrap_err(),
        DecodeError::UnknownDiscriminant(0xff)
    );
    assert_eq!(Message::read(&[], 0).unwrap_err(), DecodeError::Incomplete(8));
}

#[test]
fn test_apm_v1_layout() {
    let message = sample(vec![part("db", 3, 200), part("cache", 256, 9)]);
    assert_eq!(message.to_bytes().unwrap(), sample_bytes());
}

#[test]
fn test_apm_v1_round_trip() {
    let message = sample(vec![part("db", 3, 200), part("cache", 256, 9)]);
    let bytes = message.to_bytes().unwrap();
    let ((tail, bit), back) = APMV1Message::from_bytes((&bytes, 0)).unwrap();
    assert_eq!(back, message);
    assert!(tail.is_empty());
    assert_eq!(bit, 0);
    let (back, next) = APMV1Message::read(&bytes, 0).unwrap();
    assert_eq!(back, message);
    assert_eq!(next, 8 * bytes.len());
}

#[test]
fn test_message_round_trip() {
    let message = Message::ApmV1(sample(vec![part("db", 3, 200), part("cache", 256, 9)]));
    let bytes = message.to_bytes().unwrap();
    assert_eq!(bytes[0], APM_V1_ID);
    assert_eq!(bytes[0], 0x01);
    assert_eq!(&bytes[1..], &sample_bytes()[..]);
    let ((tail, bit), back) = Message::from_bytes((&bytes, 0)).unwrap();
    assert_eq!(back, message);
    assert!(tail.is_empty());
    assert_eq!(bit, 0);
}

#[test]
fn test_message_leaves_the_rest() {
    let message = Message::ApmV1(sample(Vec::new()));
    let mut bytes = message.to_bytes().unwrap();
    let len = bytes.len();
    bytes.extend_from_slice(&[0xde, 0xad]);
    let ((tail, bit), back) = Message::from_bytes((&bytes, 0)).unwrap();
    assert_eq!(back, message);
    assert_eq!(tail, &[0xdeu8, 0xad][..]);
    assert_eq!(bit, 0);
    let (_, next) = Message::read(&bytes, 0).unwrap();
    assert_eq!(next, 8 * len);
}

#[test]
fn test_message_without_parts() {
    let message = sample(Vec::new());
    let bytes = message.to_bytes().unwrap();
    assert_eq!(*bytes.last().unwrap(), 0);
    let (back, _) = APMV1Message::read(&bytes, 0).unwrap();
    assert!(back.parts.is_empty());
    assert_eq!(back.parts_count, 0);
}

#[test]
fn test_parts_are_counted_anew() {
    let mut message = sample(vec![part("db", 3, 200), part("cache", 256, 9)]);
    message.parts_count = 7;
    assert_eq!(message.to_bytes().unwrap(), sample_bytes());
    message.parts.push(part("x", 1, 1));
    let bytes = message.to_bytes().unwrap();
    let (back, _) = APMV1Message::read(&bytes, 0).unwrap();
    assert_eq!(back.parts_count, 3);
    assert_eq!(back.parts.len(), 3);
    assert_eq!(message.parts_count, 7);
    message.update().unwrap();
    assert_eq!(message.parts_count, 3);
    assert_eq!(back, message);
}

#[test]
fn test_message_with_255_parts() {
    let mut parts = Vec::new();
    for i in 0..255u32 {
        parts.push(part("p", i, u64::from(i) * 2));
    }
    let mut message = sample(parts);
    let bytes = message.to_bytes().unwrap();
    let (back, next) = APMV1Message::read(&bytes, 0).unwrap();
    assert_eq!(back, message);
    assert_eq!(next, 8 * bytes.len());
    assert_eq!(back.parts[254].hits, 254);
    assert_eq!(back.parts[254].total_duration, 508);

    message.parts.push(part("p", 0, 0));
    assert_eq!(message.to_bytes(), Err(EncodeError::LengthError(256)));
    assert_eq!(message.update(), Err(EncodeError::LengthError(256)));
    assert_eq!(message.parts_count, 255);
    let mut out = vec![1u8, 2];
    assert_eq!(message.write(&mut out), Err(EncodeError::LengthError(256)));
    assert_eq!(out, vec![1u8, 2]);
    assert_eq!(
        Message::ApmV1(message).to_bytes(),
        Err(EncodeError::LengthError(256))
    );
}

#[test]
fn test_message_truncated() {
    let message = Message::ApmV1(sample(vec![part("db", 3, 200), part("cache", 256, 9)]));
    let bytes = message.to_bytes().unwrap();
    for len in 0..bytes.len() {
        match Message::read(&bytes[..len], 0) {
            Ok(_) => panic!("read a message from {} bytes", len),
            Err(DecodeError::Incomplete(_)) => {}
            Err(e) => panic!("wrong error {:?}", e),
        }
    }
}

#[test]
fn test_message_with_a_bad_field() {
    let mut bytes = vec![0x01u8];
    bytes.extend_from_slice(&sample_bytes());
    // the second character of the action
    let at = 1 + 5 + 5 + 5 + 2;
    assert_eq!(bytes[at], b'a');
    bytes[at] = b' ';
    assert_eq!(
        Message::read(&bytes, 0).unwrap_err(),
        DecodeError::CharacterError(CharacterError::DisallowedCharCode(0x20))
    );

    let mut message = sample(vec![part("db", 3, 200)]);
    message.status.data.push(Character(0x21));
    let mut out = vec![9u8];
    assert_eq!(
        message.write(&mut out),
        Err(EncodeError::CharacterError(CharacterError::DisallowedCharCode(0x21)))
    );
    assert_eq!(out, vec![9u8]);

    let mut message = sample(vec![part("db", 3, 200), part("cache", 1, 1)]);
    message.parts[1].name.data[0] = Character(0x00);
    assert_eq!(
        Message::ApmV1(message).to_bytes(),
        Err(EncodeError::CharacterError(CharacterError::DisallowedCharCode(0x00)))
    );
}

#[test]
fn test_status_holds_fifteen_characters() {
    assert_eq!(Status::MAX, 15);
    assert_eq!(Action::MAX, 255);
    assert_eq!(Realm::MAX, 31);
    let mut message = sample(Vec::new());
    message.status = Status::try_from(vec![0x61u8; 15]).unwrap();
    let bytes = message.to_bytes().unwrap();
    let (back, _) = APMV1Message::read(&bytes, 0).unwrap();
    assert_eq!(back.status.data.len(), 15);
}
