use palantir_types::error::DecodeError;
use palantir_types::primitives::bits::{
    can_read, read_u32, read_u64, read_u8, rest, write_u32, write_u64, write_u8,
};

#[test]
fn test_read_u8_aligned() {
    let data = [0x12u8, 0x34, 0x56];
    assert_eq!(read_u8(&data, 0), Ok((0x12, 8)));
    assert_eq!(read_u8(&data, 8), Ok((0x34, 16)));
    assert_eq!(read_u8(&data, 16), Ok((0x56, 24)));
    assert_eq!(read_u8(&data, 24), Err(DecodeError::Incomplete(8)));
}

#[test]
fn test_read_u8_at_every_bit_offset() {
    // 1010_0101 1100_0011
    let data = [0b1010_0101u8, 0b1100_0011];
    assert_eq!(read_u8(&data, 0), Ok((0b1010_0101, 8)));
    assert_eq!(read_u8(&data, 1), Ok((0b0100_1011, 9)));
    assert_eq!(read_u8(&data, 2), Ok((0b1001_0111, 10)));
    assert_eq!(read_u8(&data, 3), Ok((0b0010_1110, 11)));
    assert_eq!(read_u8(&data, 4), Ok((0b0101_1100, 12)));
    assert_eq!(read_u8(&data, 5), Ok((0b1011_1000, 13)));
    assert_eq!(read_u8(&data, 6), Ok((0b0111_0000, 14)));
    assert_eq!(read_u8(&data, 7), Ok((0b1110_0001, 15)));
    assert_eq!(read_u8(&data, 8), Ok((0b1100_0011, 16)));
    assert_eq!(read_u8(&data, 9), Err(DecodeError::Incomplete(8)));
}

#[test]
fn test_read_u32_is_big_endian() {
    let data = [0x00u8, 0x00, 0x00, 0x2a, 0xff];
    assert_eq!(read_u32(&data, 0), Ok((42, 32)));
    let data = [0x12u8, 0x34, 0x56, 0x78];
    assert_eq!(read_u32(&data, 0), Ok((0x1234_5678, 32)));
    let data = [0xffu8, 0xff, 0xff, 0xff];
    assert_eq!(read_u32(&data, 0), Ok((u32::MAX, 32)));
    assert_eq!(read_u32(&data, 1), Err(DecodeError::Incomplete(32)));
    assert_eq!(read_u32(&data[..3], 0), Err(DecodeError::Incomplete(32)));
    // behind four bits
    let data = [0x01u8, 0x23, 0x45, 0x67, 0x89];
    assert_eq!(read_u32(&data, 4), Ok((0x1234_5678, 36)));
}

#[test]
fn test_read_u64_is_big_endian() {
    let data = [0x00u8, 0x00, 0x00, 0x00, 0x00, 0x01, 0xe2, 0x40];
    assert_eq!(read_u64(&data, 0), Ok((123456, 64)));
    let data = [0x01u8, 0x23, 0x45, 0x67, 0x89, 0xab, 0xcd, 0xef];
    assert_eq!(read_u64(&data, 0), Ok((0x0123_4567_89ab_cdef, 64)));
    let data = [0xffu8; 8];
    assert_eq!(read_u64(&data, 0), Ok((u64::MAX, 64)));
    assert_eq!(read_u64(&data[..7], 0), Err(DecodeError::Incomplete(64)));
    assert_eq!(read_u64(&data, 8), Err(DecodeError::Incomplete(64)));
}

#[test]
fn test_write_integers() {
    let mut out = vec![0xaau8];
    write_u8(0x7f, &mut out);
    assert_eq!(out, vec![0xaa, 0x7f]);
    write_u32(42, &mut out);
    assert_eq!(out, vec![0xaa, 0x7f, 0, 0, 0, 42]);
    let mut out = Vec::new();
    write_u32(0x1234_5678, &mut out);
    assert_eq!(out, vec![0x12, 0x34, 0x56, 0x78]);
    let mut out = Vec::new();
    write_u64(123456, &mut out);
    assert_eq!(out, vec![0, 0, 0, 0, 0, 0x01, 0xe2, 0x40]);
    let mut out = Vec::new();
    write_u64(0x0123_4567_89ab_cdef, &mut out);
    assert_eq!(out, vec![0x01, 0x23, 0x45, 0x67, 0x89, 0xab, 0xcd, 0xef]);
    let mut out = Vec::new();
    write_u64(u64::MAX, &mut out);
    assert_eq!(out, vec![0xff; 8]);
    write_u32(u32::MAX, &mut out);
    assert_eq!(out, vec![0xff; 12]);
}

#[test]
fn test_integers_round_trip() {
    for value in [0u32, 1, 255, 256, 65535, 65536, 0xdead_beef, u32::MAX] {
        let mut out = Vec::new();
        write_u32(value, &mut out);
        assert_eq!(out, value.to_be_bytes());
        assert_eq!(read_u32(&out, 0), Ok((value, 32)));
    }
    for value in [0u64, 1, 255, 1 << 32, 0xdead_beef_cafe_f00d, u64::MAX] {
        let mut out = Vec::new();
        write_u64(value, &mut out);
        assert_eq!(out, value.to_be_bytes());
        assert_eq!(read_u64(&out, 0), Ok((value, 64)));
    }
}

#[test]
fn test_can_read() {
    let data = [0u8; 2];
    assert!(can_read(&data, 0, 0));
    assert!(can_read(&data, 0, 16));
    assert!(!can_read(&data, 0, 17));
    assert!(can_read(&data, 16, 0));
    assert!(!can_read(&data, 17, 0));
    assert!(can_read(&data, 9, 7));
    assert!(!can_read(&data, 9, 8));
    assert!(!can_read(&data, usize::MAX, 8));
    assert!(!can_read(&data, usize::MAX - 7, 8));
}

#[test]
fn test_rest() {
    let data = [1u8, 2, 3];
    assert_eq!(rest(&data, 0), (&data[..], 0));
    assert_eq!(rest(&data, 7), (&data[..], 7));
    assert_eq!(rest(&data, 8), (&data[1..], 0));
    assert_eq!(rest(&data, 19), (&data[2..], 3));
    assert_eq!(rest(&data, 24), (&data[3..], 0));
    assert_eq!(rest(&data, 29), (&data[3..], 5));
    assert_eq!(rest(&data, 32), (&data[3..], 0));
    assert_eq!(rest(&data, usize::MAX), (&data[3..], 7));
}
