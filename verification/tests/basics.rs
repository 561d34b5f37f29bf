use zmachine::bits::{pack_word, unpack_word, BitField, ZWord};
use zmachine::zmath::{
    add_words, div_words, from_signed, mod_words, mul_words, sub_words, to_signed, ZSigned,
};

#[test]
fn it_works() {
    assert_eq!(2 + 2, 4);
}

#[test]
fn words_are_big_endian() {
    assert_eq!(pack_word(0x12, 0x34), 0x1234);
    assert_eq!(unpack_word(0x1234), (0x12, 0x34));
    assert_eq!(unpack_word(0xffff), (0xff, 0xff));
    assert_eq!(pack_word(0, 0), 0);
}

#[test]
fn zword_conversions() {
    let w: ZWord = (0xab, 0xcd).into();
    assert_eq!(u16::from(w), 0xabcd);
    let pair: (u8, u8) = ZWord::from(0x0102u16).into();
    assert_eq!(pair, (1, 2));
}

#[test]
fn bit_field_reads_its_bits() {
    // 1 01010 00111 11111
    let word: u16 = 0b1_01010_00111_11111;
    assert_eq!(BitField::<5, 10>::new(word).value_of(), 0b01010);
    assert_eq!(BitField::<5, 5>::new(word).value_of(), 0b00111);
    assert_eq!(BitField::<5, 0>::new(word).value_of(), 0b11111);
    assert_eq!(BitField::<1, 15>::new(word).value_of(), 1);
    assert!(BitField::<1, 15>::new(word).is_set());
    assert!(BitField::<5, 0>::new(word).is_set());
    assert!(!BitField::<5, 5>::new(word).is_set());
    assert_eq!(BitField::<16, 0>::new(word).value_of(), word);
}

#[test]
fn bit_field_writes_only_its_bits() {
    let mut field = BitField::<5, 5>::new(0xffff);
    field.set(0);
    assert_eq!(field.val, 0xffff & !(0x1f << 5));
    field.set(0x2a);
    // the value is cut to five bits
    assert_eq!(field.value_of(), 0x0a);
    let mut out: u16 = 0x8001;
    BitField::<5, 5>::new(0x03e0).write(&mut out);
    assert_eq!(out, 0x83e1);
}

#[test]
fn addition_and_subtraction_wrap() {
    assert_eq!(add_words(0x7fff, 1), 0x8000);
    assert_eq!(sub_words(0x8000, 1), 0x7fff);
    assert_eq!(add_words(0xffff, 1), 0);
    assert_eq!(sub_words(0, 1), 0xffff);
}

#[test]
fn packed_arithmetic() {
    assert_eq!(add_words(0x0003, 0x0004), 0x0007);
    assert_eq!(mul_words(0x0003, 0x0004), 0x000c);
    assert_eq!(div_words(from_signed(-8), 3), Some(0xfffe));
    assert_eq!(mod_words(from_signed(-7), 3), Some(0xffff));
}

#[test]
fn division_rounds_toward_zero() {
    assert_eq!(div_words(7, from_signed(-2)), Some(from_signed(-3)));
    assert_eq!(mod_words(7, from_signed(-2)), Some(1));
    assert_eq!(div_words(from_signed(-7), from_signed(-2)), Some(3));
    assert_eq!(mod_words(from_signed(-7), from_signed(-2)), Some(from_signed(-1)));
    assert_eq!(div_words(0x8000, 0xffff), Some(0x8000));
    assert_eq!(mod_words(0x8000, 0xffff), Some(0));
    assert_eq!(div_words(1, 0), None);
    assert_eq!(mod_words(1, 0), None);
}

#[test]
fn multiplication_wraps() {
    assert_eq!(mul_words(0x4000, 4), 0);
    assert_eq!(mul_words(from_signed(-1), from_signed(-1)), 1);
    assert_eq!(mul_words(from_signed(-300), 300), from_signed((-90000i32 & 0xffff) as u16 as i16));
    assert_eq!(mul_words(0x8000, 0x8000), 0);
}

#[test]
fn signed_values() {
    assert_eq!(to_signed(0xffff), -1);
    assert_eq!(to_signed(0x8000), -32768);
    assert_eq!(to_signed(0x7fff), 32767);
    assert_eq!(from_signed(-2), 0xfffe);
    assert_eq!(ZSigned::from(0xfffeu16).value(), -2);
    assert_eq!(ZSigned::from(5u16).value(), 5);
}
