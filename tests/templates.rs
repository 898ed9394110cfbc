use wordasm::template::{Idef, Opdef};

#[test]
fn template_example_masks() {
    let t = Opdef::new("0101aabb", "ab");
    assert_eq!(t.base, 0b0101_0000);
    assert_eq!(t.args, vec![0b0000_1100, 0b0000_0011]);
}

#[test]
fn template_example_apply() {
    let t = Opdef::new("0101aabb", "ab");
    assert_eq!(t.apply(&[0b11, 0b01]), 0b0101_1101);
    assert_eq!(t.apply(&[0b01, 0b11]), 0b0101_0111);
    assert_eq!(t.apply(&[0b10, 0b00]), 0b0101_1000);
}

#[test]
fn declared_order_decides_mask_order() {
    let t = Opdef::new("0101aabb", "ba");
    assert_eq!(t.args, vec![0b0000_0011, 0b0000_1100]);
    assert_eq!(t.apply(&[0b01, 0b11]), 0b0101_1101);
}

#[test]
fn split_argument_keeps_bit_order() {
    let t = Opdef::new("a1a0a", "a");
    assert_eq!(t.base, 0b01000);
    assert_eq!(t.args, vec![0b10101]);
    assert_eq!(t.apply(&[0b110]), 0b11100);
}

#[test]
fn zero_arguments_give_base() {
    let t = Opdef::new("1100aabbb1", "ab");
    assert_eq!(t.apply(&[0, 0]), t.base);
    assert_eq!(t.apply(&[]), t.base);
    assert_eq!(t.apply(&[0, 0, 0]), t.base);
    assert_eq!(t.base, 0b1100_000001);
}

#[test]
fn argument_count_mismatch_truncates() {
    let t = Opdef::new("0101aabb", "ab");
    assert_eq!(t.apply(&[0b11]), 0b0101_1100);
    assert_eq!(t.apply(&[0b11, 0b01, 0b11]), 0b0101_1101);
}

#[test]
fn patterns_longer_than_a_word_keep_low_bits() {
    let mut p = String::from("1");
    for _ in 0..64 {
        p.push('0');
    }
    let t = Opdef::new(&p, "");
    assert_eq!(t.base, 0);
    assert!(t.args.is_empty());
}

#[test]
fn instruction_without_shift_forwards_arguments() {
    let add = Idef { name: "add".to_string(), opdef: Opdef::new("0011aabb", "ab"), shift: 0 };
    assert_eq!(add.apply(&[0b10, 0b11]), 0b0011_1011);
    assert_eq!(add.name, "add");
}

#[test]
fn instruction_with_shift_uses_high_bits_of_first_argument() {
    let jmp = Idef { name: "jmp".to_string(), opdef: Opdef::new("0011aaaa", "a"), shift: 8 };
    assert_eq!(jmp.apply(&[0xdead]), 0b0011_1110);
    assert_eq!(jmp.apply(&[0xdead, 0xffff]), 0b0011_1110);
    let lo = Idef { name: "lo".to_string(), opdef: Opdef::new("aaaaaaaa", "a"), shift: 4 };
    assert_eq!(lo.apply(&[0b0000_1000_1100_1110]), 0b1000_1100);
}
