use palantir_types::error::{DecodeError, EncodeError};
use palantir_types::parts::string::{characters_from_raw, StringError};
use palantir_types::primitives::character::error::CharacterError;
use palantir_types::primitives::character::Character;
use palantir_types::primitives::string::{
    count_bits, live_count, read_string, sized_u8_read, sized_u8_write, string_from_bytes,
    string_to_bytes, string_to_text, write_string,
};
use std::convert::TryFrom;

type SizedString = palantir_types::primitives::string::SizedString<10, 8>;

type Narrow = palantir_types::primitives::string::SizedString<10, 4>;

#[test]
fn test_sized_string() {
    let data = vec![3u8, 0x30, 0x30, 0x30];
    let (_rest, val) = SizedString::from_bytes((data.as_ref(), 0)).unwrap();
    assert_eq!(
        val,
        SizedString {
            count: 3,
            data: vec![Character(0x30), Character(0x30), Character(0x30)],
        }
    );

    let raw = val.to_bytes().unwrap();
    assert_eq!(data, raw);
}

#[test]
fn test_sized_string_update() {
    let data = vec![3u8, 0x30, 0x30, 0x30];
    let (_rest, mut val) = SizedString::from_bytes((data.as_ref(), 0)).unwrap();
    assert_eq!(
        val,
        SizedString {
            count: 3,
            data: vec![Character(0x30), Character(0x30), Character(0x30)]
        }
    );

    val.data.push(Character(0x30));
    assert_eq!(
        val,
        SizedString {
            count: 3,
            data: vec![
                Character(0x30),
                Character(0x30),
                Character(0x30),
                Character(0x30)
            ]
        }
    );

    val.update().unwrap();
    assert_eq!(
        val,
        SizedString {
            count: 4,
            data: vec![
                Character(0x30),
                Character(0x30),
                Character(0x30),
                Character(0x30)
            ]
        }
    );
}

#[test]
fn test_sized_string_count_over_capacity() {
    let mut data = vec![11u8];
    data.extend_from_slice(&[0x30u8; 11]);
    assert_eq!(
        SizedString::from_bytes((data.as_ref(), 0)).unwrap_err(),
        DecodeError::LengthError(11)
    );
    // the whole byte is the count
    let mut data = vec![0xf0u8 | 10];
    data.extend_from_slice(&[0x30u8; 10]);
    assert_eq!(
        SizedString::from_bytes((data.as_ref(), 0)).unwrap_err(),
        DecodeError::LengthError(0xfa)
    );
    let mut data = vec![10u8];
    data.extend_from_slice(&[0x30u8; 10]);
    let (_rest, val) = SizedString::from_bytes((data.as_ref(), 0)).unwrap();
    assert_eq!(val.count, 10);
    assert_eq!(SizedString::max_len(), 10);
}

#[test]
fn test_sized_string_counted_in_four_bits() {
    // four bits can say up to 15, the capacity is 10
    let mut data = vec![0xf0u8 | 10];
    data.extend_from_slice(&[0x30u8; 10]);
    let (_rest, val) = Narrow::from_bytes((data.as_ref(), 0)).unwrap();
    assert_eq!(val.count, 10);
    assert_eq!(val.to_bytes().unwrap()[0], 10);
    let mut data = vec![0xf0u8 | 11];
    data.extend_from_slice(&[0x30u8; 11]);
    assert_eq!(
        Narrow::from_bytes((data.as_ref(), 0)).unwrap_err(),
        DecodeError::LengthError(11)
    );
}

#[test]
fn test_sized_string_with_bits_for_less_than_its_capacity() {
    // three bits count to 7, whatever the capacity
    type Tight = palantir_types::primitives::string::SizedString<10, 3>;
    let val = Tight {
        count: 0,
        data: vec![Character(0x30); 7],
    };
    assert_eq!(val.to_bytes().unwrap()[0], 7);
    let val = Tight {
        count: 0,
        data: vec![Character(0x30); 8],
    };
    assert_eq!(val.to_bytes(), Err(EncodeError::LengthError(8)));
}

#[test]
fn test_count_bits() {
    assert_eq!(count_bits(0), 0);
    assert_eq!(count_bits(1), 1);
    assert_eq!(count_bits(2), 2);
    assert_eq!(count_bits(3), 2);
    assert_eq!(count_bits(4), 3);
    assert_eq!(count_bits(7), 3);
    assert_eq!(count_bits(8), 4);
    assert_eq!(count_bits(10), 4);
    assert_eq!(count_bits(15), 4);
    assert_eq!(count_bits(16), 5);
    assert_eq!(count_bits(31), 5);
    assert_eq!(count_bits(32), 6);
    assert_eq!(count_bits(63), 6);
    assert_eq!(count_bits(64), 7);
    assert_eq!(count_bits(127), 7);
    assert_eq!(count_bits(128), 8);
    assert_eq!(count_bits(255), 8);
}

#[test]
fn test_sized_u8_read() {
    let data = [0b1010_0101u8, 0xff];
    assert_eq!(sized_u8_read(&data, 0, 8, 255), Ok((0b1010_0101, 8)));
    assert_eq!(sized_u8_read(&data, 0, 3, 7), Ok((0b101, 8)));
    assert_eq!(sized_u8_read(&data, 0, 4, 15), Ok((0b0101, 8)));
    assert_eq!(sized_u8_read(&data, 0, 0, 0), Ok((0, 8)));
    assert_eq!(sized_u8_read(&data, 0, 9, 255), Ok((0b1010_0101, 8)));
    assert_eq!(sized_u8_read(&data, 0, 3, 4), Err(DecodeError::LengthError(5)));
    assert_eq!(sized_u8_read(&data, 0, 8, 10), Err(DecodeError::LengthError(0xa5)));
    assert_eq!(sized_u8_read(&data, 8, 5, 31), Ok((31, 16)));
    assert_eq!(sized_u8_read(&data, 16, 5, 31), Err(DecodeError::Incomplete(8)));
    assert_eq!(sized_u8_read(&data, 9, 5, 31), Err(DecodeError::Incomplete(8)));
    // 0100_1011 stands four bits into the buffer
    assert_eq!(sized_u8_read(&data, 1, 4, 15), Ok((0b1011, 9)));
}

#[test]
fn test_sized_u8_write() {
    let mut out = Vec::new();
    assert_eq!(sized_u8_write(5, 3, 7, &mut out), Ok(()));
    assert_eq!(out, vec![5]);
    assert_eq!(sized_u8_write(255, 8, 255, &mut out), Ok(()));
    assert_eq!(out, vec![5, 255]);
    assert_eq!(sized_u8_write(0, 0, 0, &mut out), Ok(()));
    assert_eq!(out, vec![5, 255, 0]);
    assert_eq!(sized_u8_write(8, 4, 7, &mut out), Err(EncodeError::LengthError(8)));
    assert_eq!(sized_u8_write(8, 3, 15, &mut out), Err(EncodeError::LengthError(8)));
    assert_eq!(sized_u8_write(1, 0, 1, &mut out), Err(EncodeError::LengthError(1)));
    assert_eq!(out, vec![5, 255, 0]);
}

#[test]
fn test_sized_string_from_raw_and_to_text() {
    let val = SizedString::try_from(b"ten-chars_".to_vec()).unwrap();
    assert_eq!(val.count, 10);
    assert_eq!(val.to_string().unwrap(), "ten-chars_");
    assert_eq!(String::try_from(val).unwrap(), "ten-chars_");
    assert_eq!(
        SizedString::try_from(vec![0x61u8; 11]),
        Err(StringError::LengthError(11))
    );
    assert_eq!(
        SizedString::try_from(vec![0x61u8, 0x7f]),
        Err(StringError::CharacterError(CharacterError::DisallowedCharCode(0x7f)))
    );
}

#[test]
fn test_read_and_write_string() {
    let data = [0b1110_0011u8, 0x61, 0x62, 0x63, 0x64];
    let (count, characters, next) = read_string(&data, 0, 3, 7).unwrap();
    assert_eq!(count, 3);
    assert_eq!(characters, vec![Character(0x61), Character(0x62), Character(0x63)]);
    assert_eq!(next, 32);
    // the same prefix counts 0x23 = 35 in six bits
    assert_eq!(read_string(&data, 0, 6, 63).unwrap_err(), DecodeError::Incomplete(8));
    // and in two bits it counts 3, one too many for a capacity of 2
    assert_eq!(read_string(&data, 0, 2, 2).unwrap_err(), DecodeError::LengthError(3));

    let ((tail, bit), count, characters) = string_from_bytes((&data, 0), 3, 7).unwrap();
    assert_eq!(count, 3);
    assert_eq!(characters.len(), 3);
    assert_eq!(tail, &[0x64u8][..]);
    assert_eq!(bit, 0);

    let mut out = vec![0x99u8];
    write_string(&characters, 3, 7, &mut out).unwrap();
    assert_eq!(out, vec![0x99, 3, 0x61, 0x62, 0x63]);
    assert_eq!(write_string(&characters, 2, 2, &mut out), Err(EncodeError::LengthError(3)));
    assert_eq!(write_string(&characters, 1, 7, &mut out), Err(EncodeError::LengthError(3)));
    assert_eq!(out, vec![0x99, 3, 0x61, 0x62, 0x63]);
    assert_eq!(string_to_bytes(&characters, 2, 3).unwrap(), vec![3, 0x61, 0x62, 0x63]);
    assert_eq!(string_to_bytes(&characters, 0, 0), Err(EncodeError::LengthError(3)));
    assert_eq!(string_to_bytes(&Vec::new(), 0, 0).unwrap(), vec![0]);
    assert_eq!(string_to_text(&characters).unwrap(), "abc");
    assert_eq!(live_count(&characters), Ok(3));
    assert_eq!(live_count(&vec![Character(0x61); 255]), Ok(255));
    assert_eq!(live_count(&vec![Character(0x61); 256]), Err(EncodeError::LengthError(256)));
}

#[test]
fn test_characters_from_raw() {
    assert_eq!(
        characters_from_raw(b"a.b".to_vec(), 3).unwrap(),
        vec![Character(0x61), Character(0x2e), Character(0x62)]
    );
    assert_eq!(
        characters_from_raw(b"a.b".to_vec(), 2),
        Err(StringError::LengthError(3))
    );
    assert_eq!(
        characters_from_raw(b"a b".to_vec(), 3),
        Err(StringError::CharacterError(CharacterError::DisallowedCharCode(0x20)))
    );
    assert_eq!(characters_from_raw(Vec::new(), 0).unwrap(), Vec::new());
}
