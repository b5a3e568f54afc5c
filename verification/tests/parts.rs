use palantir_types::error::{DecodeError, EncodeError};
use palantir_types::parts::{PartName, TrackingPart};
use palantir_types::primitives::character::error::CharacterError;
use palantir_types::primitives::character::Character;
use std::convert::TryFrom;

#[test]
fn test_tracking_part_round_trip() {
    let part = TrackingPart {
        name: PartName::try_from(b"svc.endpoint".to_vec()).unwrap(),
        hits: 42,
        total_duration: 123456,
    };
    let bytes = part.to_bytes().unwrap();
    let ((tail, bit), back) = TrackingPart::from_bytes((&bytes, 0)).unwrap();
    assert_eq!(back, part);
    assert_eq!(back.name.to_string().unwrap(), "svc.endpoint");
    assert_eq!(back.hits, 42);
    assert_eq!(back.total_duration, 123456);
    assert!(tail.is_empty());
    assert_eq!(bit, 0);
}

#[test]
fn test_tracking_part_layout() {
    let part = TrackingPart {
        name: PartName::try_from(b"svc.endpoint".to_vec()).unwrap(),
        hits: 42,
        total_duration: 123456,
    };
    let mut expected = vec![12u8];
    expected.extend_from_slice(b"svc.endpoint");
    expected.extend_from_slice(&[0, 0, 0, 42]);
    expected.extend_from_slice(&[0, 0, 0, 0, 0, 0x01, 0xe2, 0x40]);
    assert_eq!(part.to_bytes().unwrap(), expected);

    let mut out = vec![0xffu8];
    part.write(&mut out).unwrap();
    assert_eq!(out[0], 0xff);
    assert_eq!(&out[1..], &expected[..]);
}

#[test]
fn test_tracking_part_with_empty_name() {
    let part = TrackingPart {
        name: PartName::try_from(Vec::new()).unwrap(),
        hits: u32::MAX,
        total_duration: u64::MAX,
    };
    let bytes = part.to_bytes().unwrap();
    let mut expected = vec![0u8];
    expected.extend_from_slice(&[0xff; 12]);
    assert_eq!(bytes, expected);
    let (next_part, next) = TrackingPart::read(&bytes, 0).unwrap();
    assert_eq!(next_part, part);
    assert_eq!(next, 8 * 13);
}

#[test]
fn test_tracking_part_truncated() {
    let part = TrackingPart {
        name: PartName::try_from(b"ab".to_vec()).unwrap(),
        hits: 1,
        total_duration: 2,
    };
    let bytes = part.to_bytes().unwrap();
    assert_eq!(bytes.len(), 15);
    assert_eq!(
        TrackingPart::read(&bytes[..14], 0).unwrap_err(),
        DecodeError::Incomplete(64)
    );
    assert_eq!(
        TrackingPart::read(&bytes[..6], 0).unwrap_err(),
        DecodeError::Incomplete(32)
    );
    assert_eq!(
        TrackingPart::read(&bytes[..2], 0).unwrap_err(),
        DecodeError::Incomplete(8)
    );
    assert_eq!(
        TrackingPart::read(&bytes[..0], 0).unwrap_err(),
        DecodeError::Incomplete(8)
    );
}

#[test]
fn test_tracking_part_with_a_bad_name() {
    let data = [2u8, 0x61, 0x2f, 0, 0, 0, 1, 0, 0, 0, 0, 0, 0, 0, 2];
    assert_eq!(
        TrackingPart::from_bytes((&data, 0)).unwrap_err(),
        DecodeError::CharacterError(CharacterError::DisallowedCharCode(0x2f))
    );
    let part = TrackingPart {
        name: PartName {
            count: 1,
            data: vec![Character(0x2f)],
        },
        hits: 1,
        total_duration: 2,
    };
    let mut out = vec![7u8];
    assert_eq!(
        part.write(&mut out),
        Err(EncodeError::CharacterError(CharacterError::DisallowedCharCode(0x2f)))
    );
    assert_eq!(out, vec![7u8]);
    let part = TrackingPart {
        name: PartName {
            count: 1,
            data: vec![Character(0x61); 32],
        },
        hits: 1,
        total_duration: 2,
    };
    assert_eq!(part.to_bytes(), Err(EncodeError::LengthError(32)));
}
