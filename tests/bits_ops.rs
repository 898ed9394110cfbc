use wordasm::bits::{is_bit_set, scatter, to_bytes, width_mask};

#[test]
fn width_mask_values() {
    assert_eq!(width_mask(0), 0);
    assert_eq!(width_mask(3), 0b111);
    assert_eq!(width_mask(8), 0xff);
    assert_eq!(width_mask(63), u64::MAX >> 1);
    assert_eq!(width_mask(64), u64::MAX);
}

#[test]
fn width_mask_past_word_is_all_ones() {
    assert_eq!(width_mask(65), u64::MAX);
    assert_eq!(width_mask(200), u64::MAX);
    assert_eq!(width_mask(u32::MAX), u64::MAX);
    assert_eq!(scatter(width_mask(100), 0xfeed_face_cafe_beef), 0xfeed_face_cafe_beef);
}

#[test]
fn bit_set_reads_single_bits() {
    assert!(is_bit_set(0b1010, 1));
    assert!(!is_bit_set(0b1010, 0));
    assert!(is_bit_set(1u64 << 63, 63));
    assert!(!is_bit_set(u64::MAX >> 1, 63));
}

#[test]
fn scatter_into_split_mask() {
    assert_eq!(scatter(0b0101_0011, 0b0101), 0b0001_0001);
    assert_eq!(scatter(0b0000_1100, 0b11), 0b0000_1100);
    assert_eq!(scatter(0b1010_0000, 0b10), 0b1000_0000);
}

#[test]
fn scatter_drops_excess_value_bits() {
    assert_eq!(scatter(0b0000_0011, 0b1111_1110), 0b10);
    assert_eq!(scatter(0, u64::MAX), 0);
}

#[test]
fn scatter_zero_extends_short_values() {
    assert_eq!(scatter(0xff00, 0b1), 0x0100);
    assert_eq!(scatter(u64::MAX, 0), 0);
}

#[test]
fn scatter_through_width_mask_is_identity() {
    for k in 0u32..=64 {
        let m = width_mask(k);
        let v = 0x9e37_79b9_7f4a_7c15u64 & m;
        assert_eq!(scatter(m, v), v);
    }
    assert_eq!(scatter(width_mask(12), 0xabc), 0xabc);
}

#[test]
fn bytes_low_first_with_zero_padding() {
    assert_eq!(to_bytes(0xdead_beef, 8), vec![0xef, 0xbe, 0xad, 0xde, 0, 0, 0, 0]);
    assert_eq!(to_bytes(0x0102_0304_0506_0708, 10), vec![8, 7, 6, 5, 4, 3, 2, 1, 0, 0]);
    assert_eq!(to_bytes(0x1234, 1), vec![0x34]);
    assert_eq!(to_bytes(0x1234, 0), Vec::<u8>::new());
}
