use palantir_types::primitives::character::bitmap::{
    BitMap, ALLOWED_UTF8_CHARACTERS, BITMAP, MAP_SIZE,
};

#[test]
fn test_bitmap_valid() {
    let bitmap = BitMap::generate();

    for char_code in ALLOWED_UTF8_CHARACTERS.iter() {
        assert!(bitmap.check(*char_code))
    }
}

#[test]
fn test_bitmap_invalid() {
    let bitmap = BitMap::generate();

    for char_code in 0u8..0x20 {
        // control symbols
        assert!(!bitmap.check(char_code))
    }

    for char_code in 0x3au8..0x41 {
        // different signs
        assert!(!bitmap.check(char_code))
    }
}

#[test]
fn test_bitmap_holds_exactly_the_allowed_codes() {
    let bitmap = BitMap::generate();
    let mut count = 0;
    for char_code in 0u8..=255 {
        let expected = ALLOWED_UTF8_CHARACTERS.contains(&char_code);
        assert_eq!(bitmap.check(char_code), expected, "code {}", char_code);
        if expected {
            count += 1;
        }
    }
    assert_eq!(count, 65);
}

#[test]
fn test_bitmap_generated_is_the_constant_table() {
    let generated = BitMap::generate();
    assert_eq!(generated.map, BITMAP);
    assert_eq!(BitMap::allowed().map, BITMAP);
    assert_eq!(generated.map.len(), MAP_SIZE);
}

#[test]
fn test_bitmap_table_bytes() {
    let bitmap = BitMap::generate();
    // '-' and '.' are bits 5 and 6 of byte 5
    assert_eq!(bitmap.map[5], 0x60);
    // '0'..'7' fill byte 6, '8' and '9' are the two low bits of byte 7
    assert_eq!(bitmap.map[6], 0xff);
    assert_eq!(bitmap.map[7], 0x03);
    // 'X', 'Y', 'Z' and '_' share byte 11
    assert_eq!(bitmap.map[11], 0x87);
    assert_eq!(bitmap.map[15], 0x07);
    for index in 16..MAP_SIZE {
        assert_eq!(bitmap.map[index], 0);
    }
}

#[test]
fn test_bitmap_check_reads_the_map_it_is_given() {
    let mut bitmap = BitMap { map: [0u8; MAP_SIZE] };
    assert!(!bitmap.check(0x30));
    bitmap.map[0] = 0b0000_0100;
    assert!(bitmap.check(2));
    assert!(!bitmap.check(1));
    assert!(!bitmap.check(3));
    bitmap.map[31] = 0b1000_0000;
    assert!(bitmap.check(255));
    assert!(!bitmap.check(254));
}

#[test]
fn test_bitmap_edges_of_the_ranges() {
    let bitmap = BitMap::allowed();
    for code in [0x2d, 0x2e, 0x5f, 0x30, 0x39, 0x41, 0x5a, 0x61, 0x7a] {
        assert!(bitmap.check(code), "code {:#x}", code);
    }
    for code in [0x2c, 0x2f, 0x3a, 0x40, 0x5b, 0x5e, 0x60, 0x7b, 0x7f, 0x80, 0xff, 0x00, 0x20] {
        assert!(!bitmap.check(code), "code {:#x}", code);
    }
}
