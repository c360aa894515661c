use succinct::int_vec::block_type::BlockType;

#[test]
fn element_mask() {
    assert_eq!(0b00011111, u8::element_mask(5));
    assert_eq!(0b0011111111111111, u16::element_mask(14));
}

#[test]
fn block_type_nth_mask() {
    assert_eq!(0b10000000, u8::nth_mask(0));
    assert_eq!(0b01000000, u8::nth_mask(1));
    assert_eq!(0b00100000, u8::nth_mask(2));
    assert_eq!(0b00000001, u8::nth_mask(7));
}

#[test]
fn block_type_get_bits() {
    assert_eq!(0b0, 0b0100110001110000u16.get_bits(0, 0));
    assert_eq!(0b010, 0b0100110001110000u16.get_bits(0, 3));
    assert_eq!(0b110001, 0b0100110001110000u16.get_bits(4, 6));
    assert_eq!(0b10000, 0b0100110001110000u16.get_bits(11, 5));
    assert_eq!(0b0100110001110000, 0b0100110001110000u16.get_bits(0, 16));
}

#[test]
fn block_type_set_bits() {
    assert_eq!(0b0111111111000001, 0b0110001111000001u16.set_bits(3, 3, 0b111));
    assert_eq!(0b0101110111000001, 0b0110001111000001u16.set_bits(2, 5, 0b01110));
    assert_eq!(0b0110001111000001, 0b0110001111000001u16.set_bits(2, 0, 0b01110));
    assert_eq!(0b0110001110101010, 0b0110001111000001u16.set_bits(8, 8, 0b10101010));
    assert_eq!(0b0000000000000010, 0b0110001111000001u16.set_bits(0, 16, 0b10));
}

#[test]
fn block_type_get_bit() {
    assert!(!0b00000000u8.get_bit(0));
    assert!(!0b00000000u8.get_bit(1));
    assert!(!0b00000000u8.get_bit(2));
    assert!(!0b00000000u8.get_bit(3));
    assert!(!0b00000000u8.get_bit(7));
    assert!(0b10101010u8.get_bit(0));
    assert!(!0b10101010u8.get_bit(1));
    assert!(0b10101010u8.get_bit(2));
    assert!(!0b10101010u8.get_bit(3));
    assert!(!0b10101010u8.get_bit(7));
}

#[test]
fn block_type_set_bit() {
    assert_eq!(0b00100000, 0b00000000u8.set_bit(2, true));
    assert_eq!(0b00000000, 0b00000000u8.set_bit(2, false));
    assert_eq!(0b10101010, 0b10101010u8.set_bit(0, true));
    assert_eq!(0b00101010, 0b10101010u8.set_bit(0, false));
    assert_eq!(0b10101011, 0b10101010u8.set_bit(7, true));
    assert_eq!(0b10101010, 0b10101010u8.set_bit(7, false));
}
