use quickcheck::quickcheck;
use succinct::broadword::{count_ones, le8, u_le8, u_nz8};

#[test]
fn count_ones_1() {
    assert_eq!(1, count_ones(1));
}

fn count_ones_prop(word: u64) -> bool {
    count_ones(word) == word.count_ones() as usize
}

#[test]
fn count_ones_works() {
    quickcheck(count_ones_prop as fn(u64) -> bool);
}

#[test]
fn u_gt_0_works() {
    assert_eq!(b(0, 0, 0, 0, 0, 0, 0, 0), u_nz8(u(0, 0, 0, 0, 0, 0, 0, 0)));

    assert_eq!(b(1, 1, 0, 1, 0, 1, 1, 1), u_nz8(u(45, 12, 0, 129, 0, 3, 80, 1)));

    assert_eq!(b(1, 1, 1, 1, 1, 1, 1, 1), u_nz8(u(1, 2, 3, 4, 5, 6, 7, 8)));

    assert_eq!(b(1, 1, 1, 1, 0, 1, 1, 1), u_nz8(0xFF_FF_FF_FF_00_FF_FF_FF));
}

#[test]
fn le8_works() {
    assert_eq!(
        b(1, 1, 1, 1, 0, 0, 0, 0),
        le8(i(0, 0, 0, 0, 0, 0, 0, 0), i(3, 2, 1, 0, -1, -2, -3, -4))
    );

    assert_eq!(
        b(0, 0, 0, 1, 1, 1, 1, 1),
        le8(i(3, 2, 1, 0, -1, -2, -3, -4), i(0, 0, 0, 0, 0, 0, 0, 0))
    );

    assert_eq!(
        b(0, 0, 1, 1, 1, 1, 1, 1),
        le8(i(19, 18, 17, 16, 15, 0, -1, -2), i(17, 17, 17, 17, 17, 17, 17, 17))
    );

    assert_eq!(
        b(1, 1, 0, 0, 0, 0, 0, 0),
        le8(i(-9, -8, -7, 0, 1, 2, 3, 4), i(-8, -8, -8, -8, -8, -8, -8, -8))
    );

    assert_eq!(
        b(0, 1, 0, 1, 1, 0, 1, 0),
        le8(i(8, 3, 46, 0, 0, 0, -6, -1), i(7, 3, 24, 1, 0, -9, 5, -2))
    );
}

#[test]
fn u_le8_works() {
    assert_eq!(
        b(1, 1, 1, 1, 1, 1, 1, 1),
        u_le8(u(0, 0, 0, 0, 0, 0, 0, 0), u(7, 6, 5, 4, 3, 2, 1, 0))
    );

    assert_eq!(
        b(1, 0, 0, 0, 0, 0, 0, 0),
        u_le8(u(0, 1, 2, 3, 4, 5, 6, 7), u(0, 0, 0, 0, 0, 0, 0, 0))
    );

    assert_eq!(
        b(0, 0, 1, 1, 1, 1, 1, 1),
        u_le8(u(19, 18, 17, 16, 15, 14, 13, 12), u(17, 17, 17, 17, 17, 17, 17, 17))
    );

    assert_eq!(
        b(0, 1, 0, 1, 1, 0, 1, 0),
        u_le8(u(8, 3, 46, 0, 0, 9, 3, 2), u(7, 3, 24, 1, 0, 0, 5, 1))
    );
}

/// Signed comparisons whose difference does not fit a byte.
#[test]
fn le8_wide_difference() {
    assert_eq!(
        b(0, 1, 1, 0, 1, 1, 1, 1),
        le8(i(1, -128, -128, 127, 0, 5, -1, 100), i(-128, 5, 127, -128, 0, 5, 0, 100))
    );
}

#[test]
fn count_ones_all() {
    assert_eq!(0, count_ones(0));
    assert_eq!(64, count_ones(!0));
    assert_eq!(32, count_ones(0xAAAA_AAAA_AAAA_AAAA));
}

fn b(a: u64, b: u64, c: u64, d: u64, e: u64, f: u64, g: u64, h: u64) -> u64 {
    (a << 63) | (b << 55) | (c << 47) | (d << 39) | (e << 31) | (f << 23) | (g << 15) | (h << 7)
}

fn u(a: u8, b: u8, c: u8, d: u8, e: u8, f: u8, g: u8, h: u8) -> u64 {
    ((a as u64) << 56)
        | ((b as u64) << 48)
        | ((c as u64) << 40)
        | ((d as u64) << 32)
        | ((e as u64) << 24)
        | ((f as u64) << 16)
        | ((g as u64) << 8)
        | (h as u64)
}

fn i(a: i8, b: i8, c: i8, d: i8, e: i8, f: i8, g: i8, h: i8) -> u64 {
    u(a as u8, b as u8, c as u8, d as u8, e as u8, f as u8, g as u8, h as u8)
}
