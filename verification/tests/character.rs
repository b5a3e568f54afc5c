use palantir_types::error::{DecodeError, EncodeError};
use palantir_types::primitives::character::bitmap::ALLOWED_UTF8_CHARACTERS;
use palantir_types::primitives::character::error::CharacterError;
use palantir_types::primitives::character::Character;
use std::convert::TryFrom;

#[test]
fn test_valid_characters() {
    for char_code in ALLOWED_UTF8_CHARACTERS.iter() {
        let data = [*char_code];
        let (_rest, val) = Character::from_bytes((&data, 0)).unwrap();
        assert_eq!(Character(*char_code), val);

        let data_out = val.to_bytes().unwrap();
        assert_eq!(data_out, [*char_code]);
    }
}

#[test]
fn test_name_with_allowed_separators() {
    for char_code in String::from("app.controller.action_1-get").as_bytes() {
        let data = [*char_code];
        let (_rest, val) = Character::from_bytes((&data, 0)).unwrap();
        assert_eq!(Character(*char_code), val);

        let data_out = val.to_bytes().unwrap();
        assert_eq!(data_out, [*char_code]);
    }
}

#[test]
fn test_invalid_characters() {
    for char_code in String::from(" |\\/*(){}[]$;").as_bytes() {
        let data = [*char_code];
        let result = Character::from_bytes((&data, 0));

        match result {
            Ok(_0) => panic!("how did u parse invalid chars?"),
            Err(err) => match err {
                DecodeError::CharacterError(..) => (),
                _ => panic!("wrong error type"),
            },
        }
    }
}

#[test]
fn test_cyrillic_character() {
    for char_code in String::from("РядокУкраїнськоюУКамелКейсі").as_bytes() {
        let data = [*char_code];
        let result = Character::from_bytes((&data, 0));

        match result {
            Ok(_0) => panic!("how did u parse invalid chars?"),
            Err(err) => match err {
                DecodeError::CharacterError(..) => (),
                _ => panic!("wrong error type"),
            },
        }
    }
}

#[test]
fn test_character_try_from_every_byte() {
    for code in 0u8..=255 {
        let allowed = ALLOWED_UTF8_CHARACTERS.contains(&code);
        match Character::try_from(code) {
            Ok(c) => {
                assert!(allowed, "code {}", code);
                assert_eq!(c.0, code);
            }
            Err(e) => {
                assert!(!allowed, "code {}", code);
                assert_eq!(e, CharacterError::DisallowedCharCode(code));
            }
        }
    }
}

#[test]
fn test_character_read_every_byte() {
    for code in 0u8..=255 {
        let allowed = ALLOWED_UTF8_CHARACTERS.contains(&code);
        let data = [code, 0x30];
        match Character::read(&data, 0) {
            Ok((c, next)) => {
                assert!(allowed);
                assert_eq!(c, Character(code));
                assert_eq!(next, 8);
            }
            Err(e) => {
                assert!(!allowed);
                assert_eq!(
                    e,
                    DecodeError::CharacterError(CharacterError::DisallowedCharCode(code))
                );
            }
        }
    }
}

#[test]
fn test_character_read_from_empty_buffer() {
    let data: [u8; 0] = [];
    assert_eq!(Character::read(&data, 0), Err(DecodeError::Incomplete(8)));
    let data = [0x30u8];
    assert_eq!(Character::read(&data, 1), Err(DecodeError::Incomplete(8)));
    assert_eq!(Character::read(&data, 8), Err(DecodeError::Incomplete(8)));
    assert_eq!(Character::read(&data, usize::MAX), Err(DecodeError::Incomplete(8)));
}

#[test]
fn test_character_read_at_a_bit_offset() {
    // 'a' = 0x61 = 0110_0001, shifted right by three bits
    let data = [0b0000_1100, 0b0010_0000];
    let (c, next) = Character::read(&data, 3).unwrap();
    assert_eq!(c, Character(0x61));
    assert_eq!(next, 11);
    let ((tail, bit), c) = Character::from_bytes((&data, 3)).unwrap();
    assert_eq!(c, Character(0x61));
    assert_eq!(tail, &data[1..]);
    assert_eq!(bit, 3);
}

#[test]
fn test_character_from_bytes_rest() {
    let data = [0x41u8, 0x42, 0x43];
    let ((tail, bit), c) = Character::from_bytes((&data, 0)).unwrap();
    assert_eq!(c, Character(0x41));
    assert_eq!(tail, &[0x42u8, 0x43][..]);
    assert_eq!(bit, 0);
    let ((tail, bit), c) = Character::from_bytes((tail, bit)).unwrap();
    assert_eq!(c, Character(0x42));
    assert_eq!(tail, &[0x43u8][..]);
    assert_eq!(bit, 0);
    let ((tail, bit), c) = Character::from_bytes((&data, 16)).unwrap();
    assert_eq!(c, Character(0x43));
    assert!(tail.is_empty());
    assert_eq!(bit, 0);
}

#[test]
fn test_character_write_tests_the_byte_again() {
    let mut out = vec![0xaau8];
    assert_eq!(Character(0x7a).write(&mut out), Ok(()));
    assert_eq!(out, vec![0xaa, 0x7a]);
    assert_eq!(
        Character(0x20).write(&mut out),
        Err(EncodeError::CharacterError(CharacterError::DisallowedCharCode(0x20)))
    );
    assert_eq!(out, vec![0xaa, 0x7a]);
    assert_eq!(
        Character(0xff).to_bytes(),
        Err(EncodeError::CharacterError(CharacterError::DisallowedCharCode(0xff)))
    );
}

#[test]
fn test_character_deref_as_ref_eq() {
    let a = Character(0x41);
    let b = Character(0x41);
    let c = Character(0x42);
    assert_eq!(*a, 0x41);
    let byte: &u8 = a.as_ref();
    assert_eq!(*byte, 0x41);
    assert!(a == b);
    assert!(!(a != b));
    assert!(a != c);
    assert!(!(a == c));
}

#[test]
fn test_character_error_message() {
    assert_eq!(
        CharacterError::DisallowedCharCode(0xff).to_string(),
        "Character code 0xFF is not allowed"
    );
    assert_eq!(
        CharacterError::DisallowedCharCode(0x20).to_string(),
        "Character code 0x20 is not allowed"
    );
    assert_eq!(
        CharacterError::DisallowedCharCode(0x0a).to_string(),
        "Character code 0xA is not allowed"
    );
    assert_eq!(
        CharacterError::DisallowedCharCode(0).to_string(),
        "Character code 0x0 is not allowed"
    );
    for code in 0u8..=255 {
        assert_eq!(
            CharacterError::DisallowedCharCode(code).to_string(),
            format!("Character code {:#X} is not allowed", code)
        );
    }
}
