use cellular_automata::morton::{compact_bits, morton_decode, morton_encode, spread_bits};

#[test]
fn morton_of_origin() {
    // biased 0 is 2^31: bit 31 of x goes to bit 62, bit 31 of y to bit 63.
    assert_eq!(morton_encode(0, 0), 0xC000_0000_0000_0000);
    assert_eq!(morton_encode(i32::MIN, i32::MIN), 0);
    assert_eq!(morton_encode(i32::MAX, i32::MAX), u64::MAX);
}

#[test]
fn morton_interleaves_bits() {
    // x = MIN + 1 sets bit 0 of the biased x, so bit 0 of the code.
    assert_eq!(morton_encode(i32::MIN + 1, i32::MIN), 1);
    assert_eq!(morton_encode(i32::MIN, i32::MIN + 1), 2);
    assert_eq!(morton_encode(i32::MIN + 3, i32::MIN + 1), 0b0111);
}

#[test]
fn morton_round_trip() {
    for &(x, y) in &[(0, 0), (-1, 1), (123456, -987654), (i32::MIN, i32::MAX), (i32::MAX, i32::MIN)] {
        assert_eq!(morton_decode(morton_encode(x, y)), (x, y));
    }
    for &code in &[0u64, 1, 2, 0xdead_beef_0bad_f00d, u64::MAX] {
        let (x, y) = morton_decode(code);
        assert_eq!(morton_encode(x, y), code);
    }
}

#[test]
fn morton_distinct_chunks_distinct_keys() {
    assert_ne!(morton_encode(1, 0), morton_encode(0, 1));
    assert_ne!(morton_encode(-1, 0), morton_encode(0, -1));
}

#[test]
fn spread_and_compact_bits() {
    assert_eq!(spread_bits(0b1011), 0b01_00_01_01);
    assert_eq!(spread_bits(u32::MAX), 0x5555_5555_5555_5555);
    assert_eq!(compact_bits(0b01_00_01_01), 0b1011);
    assert_eq!(compact_bits(0b11_10_11_11), 0b1011);
    for &v in &[0u32, 1, 0xdead_beef, u32::MAX] {
        assert_eq!(compact_bits(spread_bits(v)), v);
    }
    assert_eq!(compact_bits(0xAAAA_AAAA_AAAA_AAAA), 0);
}
