use quickcheck::{quickcheck, TestResult};
use succinct::storage::{Address, BlockType};

#[test]
fn low_mask() {
    assert_eq!(0b00011111, u8::low_mask(5));
    assert_eq!(0b0011111111111111, u16::low_mask(14));
    assert_eq!(0b1111111111111111, u16::low_mask(16));
}

#[test]
fn storage_nth_mask() {
    assert_eq!(0b10000000, u8::nth_mask(7));
    assert_eq!(0b01000000, u8::nth_mask(6));
    assert_eq!(0b00100000, u8::nth_mask(5));
    assert_eq!(0b00000010, u8::nth_mask(1));
    assert_eq!(0b00000001, u8::nth_mask(0));
}

#[test]
fn storage_get_bits() {
    assert_eq!(0b0, 0b0100110001110000u16.get_bits(0, 0));
    assert_eq!(0b010, 0b0100110001110000u16.get_bits(13, 3));
    assert_eq!(0b110001, 0b0100110001110000u16.get_bits(6, 6));
    assert_eq!(0b10000, 0b0100110001110000u16.get_bits(0, 5));
    assert_eq!(0b0100110001110000, 0b0100110001110000u16.get_bits(0, 16));
}

#[test]
fn with_bits() {
    assert_eq!(0b0111111111000001, 0b0110001111000001u16.with_bits(10, 3, 0b111));
    assert_eq!(0b0101110111000001, 0b0110001111000001u16.with_bits(9, 5, 0b01110));
    assert_eq!(0b0110001111000001, 0b0110001111000001u16.with_bits(14, 0, 0b01110));
    assert_eq!(0b0110001110101010, 0b0110001111000001u16.with_bits(0, 8, 0b10101010));
    assert_eq!(0b0000000000000010, 0b0110001111000001u16.with_bits(0, 16, 0b10));
}

#[test]
fn storage_get_bit() {
    assert!(!0b00000000u8.get_bit(0));
    assert!(!0b00000000u8.get_bit(1));
    assert!(!0b00000000u8.get_bit(2));
    assert!(!0b00000000u8.get_bit(3));
    assert!(!0b00000000u8.get_bit(7));
    assert!(!0b10101010u8.get_bit(0));
    assert!(0b10101010u8.get_bit(1));
    assert!(!0b10101010u8.get_bit(2));
    assert!(0b10101010u8.get_bit(3));
    assert!(0b10101010u8.get_bit(7));
}

#[test]
fn with_bit() {
    assert_eq!(0b00100000, 0b00000000u8.with_bit(5, true));
    assert_eq!(0b00000000, 0b00000000u8.with_bit(5, false));
    assert_eq!(0b10101010, 0b10101010u8.with_bit(7, true));
    assert_eq!(0b00101010, 0b10101010u8.with_bit(7, false));
    assert_eq!(0b10101011, 0b10101010u8.with_bit(0, true));
    assert_eq!(0b10101010, 0b10101010u8.with_bit(0, false));
}

#[test]
fn floor_lg() {
    assert_eq!(0, 1u32.floor_lg());
    assert_eq!(1, 2u32.floor_lg());
    assert_eq!(1, 3u32.floor_lg());
    assert_eq!(2, 4u32.floor_lg());
    assert_eq!(2, 5u32.floor_lg());
    assert_eq!(2, 7u32.floor_lg());
    assert_eq!(3, 8u32.floor_lg());

    fn prop(n: u64) -> TestResult {
        // Past 2^63 the property's own power of two overflows.
        if n == 0 || n >= 1 << 63 {
            return TestResult::discard();
        }

        TestResult::from_bool(
            2u64.pow(n.floor_lg() as u32) <= n && 2u64.pow(n.floor_lg() as u32 + 1) > n,
        )
    }

    quickcheck(prop as fn(u64) -> TestResult);
}

#[test]
fn ceil_lg() {
    assert_eq!(0, 1u32.ceil_lg());
    assert_eq!(1, 2u32.ceil_lg());
    assert_eq!(2, 3u32.ceil_lg());
    assert_eq!(2, 4u32.ceil_lg());
    assert_eq!(3, 5u32.ceil_lg());
    assert_eq!(3, 7u32.ceil_lg());
    assert_eq!(3, 8u32.ceil_lg());
    assert_eq!(4, 9u32.ceil_lg());

    fn prop(n: u64) -> TestResult {
        // Past 2^63 the property's own power of two overflows.
        if n <= 1 || n > 1 << 63 {
            return TestResult::discard();
        }

        TestResult::from_bool(
            2u64.pow(n.ceil_lg() as u32) >= n && 2u64.pow(n.ceil_lg() as u32 - 1) < n,
        )
    }

    quickcheck(prop as fn(u64) -> TestResult);
}

#[test]
fn ceil_div() {
    assert_eq!(6, 12u32.ceil_div(2));
    assert_eq!(4, 12u32.ceil_div(3));
    assert_eq!(3, 12u32.ceil_div(4));
    assert_eq!(3, 12u32.ceil_div(5));
    assert_eq!(2, 12u32.ceil_div(6));
    assert_eq!(2, 12u32.ceil_div(7));
    assert_eq!(2, 12u32.ceil_div(11));
    assert_eq!(1, 12u32.ceil_div(12));

    fn prop(n: u64, m: u64) -> TestResult {
        // Where `n + m` overflows, so would the rounded-up quotient times `m`.
        if n == 0 || m == 0 || n.checked_add(m).is_none() {
            return TestResult::discard();
        }

        TestResult::from_bool(m * n.ceil_div(m) >= n && m * (n.ceil_div(m) - 1) < n)
    }

    quickcheck(prop as fn(u64, u64) -> TestResult);
}

#[test]
fn address_round_trip() {
    let a = Address::new::<u32>(77);
    assert_eq!(2, a.block_index);
    assert_eq!(13, a.bit_offset);
    assert_eq!(77, a.bit_index::<u32>());
}

#[test]
fn block_arithmetic() {
    assert_eq!(3, u8::lg_nbits());
    assert_eq!(6, u64::lg_nbits());
    assert_eq!(2, u16::div_nbits(37));
    assert_eq!(3, u16::ceil_div_nbits(37));
    assert_eq!(5, u16::mod_nbits(37));
    assert_eq!(48, u16::mul_nbits(3));
    assert_eq!(16, u16::last_block_bits(32));
    assert_eq!(5, u16::last_block_bits(37));
    assert_eq!(Some(5), u8::checked_ceil_div_nbits(37));
}
