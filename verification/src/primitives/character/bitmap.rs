//! The table of allowed character codes.

use vstd::prelude::*;

verus! {

/// The character codes that a string may hold: hyphen, full stop, low line,
/// the ASCII digits and the ASCII letters.
pub const ALLOWED_UTF8_CHARACTERS: [u8; 65] = [
    0x2d, 0x2e, 0x5f,
    0x30, 0x31, 0x32, 0x33, 0x34, 0x35, 0x36, 0x37, 0x38, 0x39,
    0x41, 0x42, 0x43, 0x44, 0x45, 0x46, 0x47, 0x48, 0x49, 0x4a, 0x4b, 0x4c, 0x4d,
    0x4e, 0x4f, 0x50, 0x51, 0x52, 0x53, 0x54, 0x55, 0x56, 0x57, 0x58, 0x59, 0x5a,
    0x61, 0x62, 0x63, 0x64, 0x65, 0x66, 0x67, 0x68, 0x69, 0x6a, 0x6b, 0x6c, 0x6d,
    0x6e, 0x6f, 0x70, 0x71, 0x72, 0x73, 0x74, 0x75, 0x76, 0x77, 0x78, 0x79, 0x7a,
];

/// Bits in one byte of the map.
pub const U8_BITS: u8 = 8;

/// Bytes in the map.
pub const MAP_SIZE: usize = 64;

/// `MASKS[i]` has bit `i` set and no other.
pub const MASKS: [u8; 8] = [1, 2, 4, 8, 16, 32, 64, 128];

/// Whether a character code belongs to the allowed set.
pub open spec fn is_allowed(code: u8) -> bool {
    ||| code == 0x2d
    ||| code == 0x2e
    ||| code == 0x5f
    ||| 0x30 <= code <= 0x39
    ||| 0x41 <= code <= 0x5a
    ||| 0x61 <= code <= 0x7a
}

/// Whether bit `index` of `byte` is set, bit 0 being the least significant.
pub open spec fn bit_is_set(byte: u8, index: u8) -> bool {
    byte & (1u8 << index) != 0
}

/// A set of character codes, one bit per code: code `c` is in the set when
/// bit `c % 8` of byte `c / 8` is set.
pub struct BitMap {
    pub map: [u8; MAP_SIZE],
}

/// The map of the allowed character codes, written out byte by byte.
pub const BITMAP: [u8; MAP_SIZE] = [
    0x00, 0x00, 0x00, 0x00, 0x00, 0x60, 0xff, 0x03,
    0xfe, 0xff, 0xff, 0x87, 0xfe, 0xff, 0xff, 0x07,
    0x00, 0x00, 0x00, 0x00, 0x00, 0x00, 0x00, 0x00,
    0x00, 0x00, 0x00, 0x00, 0x00, 0x00, 0x00, 0x00,
    0x00, 0x00, 0x00, 0x00, 0x00, 0x00, 0x00, 0x00,
    0x00, 0x00, 0x00, 0x00, 0x00, 0x00, 0x00, 0x00,
    0x00, 0x00, 0x00, 0x00, 0x00, 0x00, 0x00, 0x00,
    0x00, 0x00, 0x00, 0x00, 0x00, 0x00, 0x00, 0x00,
];

/// Whether `code` is in the set that the bytes of `map` stand for.
pub open spec fn map_contains(map: Seq<u8>, code: u8) -> bool {
    bit_is_set(map[(code / U8_BITS) as int], code % U8_BITS)
}

impl BitMap {
    /// Whether `code` is in the set.
    pub open spec fn contains(&self, code: u8) -> bool {
        map_contains(self.map@, code)
    }

    /// Whether the set is exactly the allowed set, stored as `BITMAP` stores it.
    pub open spec fn is_allowed_set(&self) -> bool {
        self.map@ == BITMAP@
    }

    /// Builds the map of the allowed character codes from
    /// `ALLOWED_UTF8_CHARACTERS`.
    pub fn generate() -> (r: BitMap)
        ensures
            r.is_allowed_set(),
            forall|code: u8| r.contains(code) == is_allowed(code),
    {
        let mut map: [u8; MAP_SIZE] = [0u8; MAP_SIZE];
        let mut i: usize = 0;
        proof {
            assert forall|code: u8| !(#[trigger] map_contains(map@, code)) by {
                lemma_clear_bits(code % U8_BITS);
            }
        }
        while i < ALLOWED_UTF8_CHARACTERS.len()
            invariant
                i <= 65,
                forall|code: u8| #[trigger]
                    map_contains(map@, code) <==> listed_before(code, i as int),
                forall|k: int| 32 <= k < MAP_SIZE ==> map[k] == 0,
            decreases 65 - i,
        {
            let char_code = ALLOWED_UTF8_CHARACTERS[i];
            let byte_idx = char_code / U8_BITS;
            let bit_idx = char_code % U8_BITS;
            let ghost before = map;
            map[byte_idx as usize] = map[byte_idx as usize] | MASKS[bit_idx as usize];
            proof {
                lemma_mask(bit_idx);
                assert forall|code: u8| #[trigger]
                    map_contains(map@, code) <==> listed_before(code, i + 1) by {
                    let b = code / U8_BITS;
                    let j = code % U8_BITS;
                    lemma_set_bit(before[byte_idx as int], bit_idx, j);
                    assert(map_contains(before@, code) <==> listed_before(code, i as int));
                    if b == byte_idx && j == bit_idx {
                        assert(code == char_code);
                    }
                }
            }
            i += 1;
        }
        proof {
            lemma_table();
            assert forall|k: int| 0 <= k < MAP_SIZE implies map[k] == BITMAP[k] by {
                if k < 32 {
                    assert forall|j: u8| j < 8 implies bit_is_set(map[k], j) == bit_is_set(
                        BITMAP[k],
                        j,
                    ) by {
                        let code = (8 * k + j) as u8;
                        assert(code / U8_BITS == k && code % U8_BITS == j);
                        assert(map_contains(map@, code) <==> listed_before(code, 65));
                        lemma_listed(code);
                        assert(map_contains(BITMAP@, code) == is_allowed(code));
                    }
                    lemma_same_bits(map[k], BITMAP[k]);
                }
            }
            assert(map@ =~= BITMAP@);
        }
        BitMap { map }
    }

    /// The map of the allowed character codes, taken from `BITMAP`.
    pub fn allowed() -> (r: BitMap)
        ensures
            r.is_allowed_set(),
            forall|code: u8| r.contains(code) == is_allowed(code),
    {
        proof {
            lemma_table();
        }
        BitMap { map: BITMAP }
    }

    /// Tests `val` for membership with one lookup.
    #[inline(always)]
    pub fn check(&self, val: u8) -> (r: bool)
        ensures
            r == self.contains(val),
            self.is_allowed_set() ==> r == is_allowed(val),
    {
        let byte_idx = val / U8_BITS;
        let bit_idx = val % U8_BITS;
        proof {
            lemma_mask(bit_idx);
            lemma_table();
            if self.is_allowed_set() {
                assert(self.contains(val) == map_contains(BITMAP@, val));
            }
        }
        (self.map[byte_idx as usize] & MASKS[bit_idx as usize]) != 0
    }
}

/// Whether `code` is one of the first `n` entries of `ALLOWED_UTF8_CHARACTERS`.
pub open spec fn listed_before(code: u8, n: int) -> bool {
    exists|k: int| 0 <= k < n && k < 65 && #[trigger] ALLOWED_UTF8_CHARACTERS[k] == code
}

/// A code is allowed exactly when `ALLOWED_UTF8_CHARACTERS` lists it.
pub proof fn lemma_listed(code: u8)
    ensures
        is_allowed(code) <==> listed_before(code, 65),
{
    if is_allowed(code) {
        let k: int = if code == 0x2d {
            0
        } else if code == 0x2e {
            1
        } else if code == 0x5f {
            2
        } else if code <= 0x39 {
            code - 0x30 + 3
        } else if code <= 0x5a {
            code - 0x41 + 13
        } else {
            code - 0x61 + 39
        };
        assert(ALLOWED_UTF8_CHARACTERS[k] == code);
    }
}

/// `BITMAP` holds exactly the allowed character codes.
pub proof fn lemma_table()
    ensures
        forall|code: u8| #[trigger] map_contains(BITMAP@, code) == is_allowed(code),
{
    assert forall|code: u8| #[trigger] map_contains(BITMAP@, code) == is_allowed(code) by {
        let k = code / U8_BITS;
        let j = code % U8_BITS;
        lemma_table_bytes(k, j);
    }
}

proof fn lemma_table_bytes(k: u8, j: u8)
    requires
        k < 32,
        j < 8,
    ensures
        bit_is_set(BITMAP[k as int], j) == is_allowed((8 * k + j) as u8),
{
    let byte = BITMAP[k as int];
    let code = (8 * k + j) as u8;
    assert(bit_is_set(byte, j) == is_allowed(code)) by (bit_vector)
        requires
            k < 32,
            j < 8,
            code == 8 * k + j,
            byte == if k == 5 {
                0x60u8
            } else if k == 6 || k == 9 || k == 10 || k == 13 || k == 14 {
                0xffu8
            } else if k == 7 {
                0x03u8
            } else if k == 8 || k == 12 {
                0xfeu8
            } else if k == 11 {
                0x87u8
            } else if k == 15 {
                0x07u8
            } else {
                0x00u8
            },
    ;
}

proof fn lemma_mask(index: u8)
    requires
        index < 8,
    ensures
        MASKS[index as int] == 1u8 << index,
{
    assert(1u8 << 0u8 == 1 && 1u8 << 1u8 == 2 && 1u8 << 2u8 == 4 && 1u8 << 3u8 == 8 && 1u8 << 4u8
        == 16 && 1u8 << 5u8 == 32 && 1u8 << 6u8 == 64 && 1u8 << 7u8 == 128) by (bit_vector);
}

proof fn lemma_clear_bits(probe: u8)
    requires
        probe < 8,
    ensures
        !bit_is_set(0, probe),
{
    assert(0u8 & (1u8 << probe) == 0) by (bit_vector);
}

proof fn lemma_set_bit(byte: u8, set: u8, probe: u8)
    requires
        set < 8,
        probe < 8,
    ensures
        bit_is_set(byte | (1u8 << set), probe) == (bit_is_set(byte, probe) || probe == set),
{
    assert(((byte | (1u8 << set)) & (1u8 << probe) != 0) == ((byte & (1u8 << probe) != 0) || probe
        == set)) by (bit_vector)
        requires
            set < 8,
            probe < 8,
    ;
}

proof fn lemma_same_bits(a: u8, b: u8)
    requires
        forall|j: u8| j < 8 ==> bit_is_set(a, j) == bit_is_set(b, j),
    ensures
        a == b,
{
    assert(bit_is_set(a, 0) == bit_is_set(b, 0));
    assert(bit_is_set(a, 1) == bit_is_set(b, 1));
    assert(bit_is_set(a, 2) == bit_is_set(b, 2));
    assert(bit_is_set(a, 3) == bit_is_set(b, 3));
    assert(bit_is_set(a, 4) == bit_is_set(b, 4));
    assert(bit_is_set(a, 5) == bit_is_set(b, 5));
    assert(bit_is_set(a, 6) == bit_is_set(b, 6));
    assert(bit_is_set(a, 7) == bit_is_set(b, 7));
    assert(a == b) by (bit_vector)
        requires
            (a & (1u8 << 0u8) != 0) == (b & (1u8 << 0u8) != 0),
            (a & (1u8 << 1u8) != 0) == (b & (1u8 << 1u8) != 0),
            (a & (1u8 << 2u8) != 0) == (b & (1u8 << 2u8) != 0),
            (a & (1u8 << 3u8) != 0) == (b & (1u8 << 3u8) != 0),
            (a & (1u8 << 4u8) != 0) == (b & (1u8 << 4u8) != 0),
            (a & (1u8 << 5u8) != 0) == (b & (1u8 << 5u8) != 0),
            (a & (1u8 << 6u8) != 0) == (b & (1u8 << 6u8) != 0),
            (a & (1u8 << 7u8) != 0) == (b & (1u8 << 7u8) != 0),
    ;
}

} // verus!
