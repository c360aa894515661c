use std::collections::VecDeque;
use succinct::stream::{BitRead, BitWrite};

#[test]
fn read_bit() {
    let mut vd = VecDeque::new();
    vd.push_back(true);
    vd.push_back(true);
    vd.push_back(false);

    assert_eq!(Some(true), vd.read_bit().unwrap());
    assert_eq!(Some(true), vd.read_bit().unwrap());
    assert_eq!(Some(false), vd.read_bit().unwrap());
    assert_eq!(None, vd.read_bit().unwrap());
}

#[test]
fn write_bit() {
    let mut vd = VecDeque::new();

    vd.write_bit(false).unwrap();
    vd.write_bit(true).unwrap();
    vd.write_bit(true).unwrap();

    assert_eq!(Some(false), vd.pop_front());
    assert_eq!(Some(true), vd.pop_front());
    assert_eq!(Some(true), vd.pop_front());
    assert_eq!(None, vd.pop_front());
}

#[test]
fn read_int() {
    let mut vd = VecDeque::new();

    vd.write_bit(false).unwrap();
    assert_eq!(Some(Some(0)), vd.read_int::<u64>(1).ok());

    vd.write_bit(true).unwrap();
    assert_eq!(Some(Some(1)), vd.read_int::<u64>(1).ok());

    vd.write_bit(true).unwrap();
    vd.write_bit(false).unwrap();
    assert_eq!(Some(Some(1)), vd.read_int::<u64>(2).ok());

    vd.write_bit(false).unwrap();
    vd.write_bit(true).unwrap();
    assert_eq!(Some(Some(2)), vd.read_int::<u64>(2).ok());

    vd.write_bit(true).unwrap();
    vd.write_bit(true).unwrap();
    assert_eq!(Some(Some(3)), vd.read_int::<u64>(2).ok());

    vd.write_bit(true).unwrap();
    vd.write_bit(true).unwrap();
    vd.write_bit(false).unwrap();
    vd.write_bit(false).unwrap();
    assert_eq!(Some(Some(3)), vd.read_int::<u64>(4).ok());
}

#[test]
fn read_int_be() {
    let mut vd = VecDeque::new();

    vd.write_bit(false).unwrap();
    assert_eq!(Some(Some(0)), vd.read_int_be::<u64>(1).ok());

    vd.write_bit(true).unwrap();
    assert_eq!(Some(Some(1)), vd.read_int_be::<u64>(1).ok());

    vd.write_bit(true).unwrap();
    vd.write_bit(false).unwrap();
    assert_eq!(Some(Some(2)), vd.read_int_be::<u64>(2).ok());

    vd.write_bit(false).unwrap();
    vd.write_bit(true).unwrap();
    assert_eq!(Some(Some(1)), vd.read_int_be::<u64>(2).ok());

    vd.write_bit(true).unwrap();
    vd.write_bit(true).unwrap();
    assert_eq!(Some(Some(3)), vd.read_int_be::<u64>(2).ok());

    vd.write_bit(true).unwrap();
    vd.write_bit(true).unwrap();
    vd.write_bit(false).unwrap();
    vd.write_bit(false).unwrap();
    assert_eq!(Some(Some(12)), vd.read_int_be::<u64>(4).ok());
}

#[test]
fn write_int() {
    let mut vd = VecDeque::new();

    vd.write_int(5, 6u64).unwrap();
    vd.write_int(5, 7u64).unwrap();
    vd.write_int(5, 2u64).unwrap();
    vd.write_int(4, 3u64).unwrap();
    vd.write_int(4, 1u64).unwrap();
    vd.write_int(4, 0u64).unwrap();
    vd.write_int(4, 6u64).unwrap();

    assert_eq!(Some(Some(6)), vd.read_int::<u64>(5).ok());
    assert_eq!(Some(Some(7)), vd.read_int::<u64>(5).ok());
    assert_eq!(Some(Some(2)), vd.read_int::<u64>(5).ok());
    assert_eq!(Some(Some(3)), vd.read_int::<u64>(4).ok());
    assert_eq!(Some(Some(1)), vd.read_int::<u64>(4).ok());
    assert_eq!(Some(Some(0)), vd.read_int::<u64>(4).ok());
    assert_eq!(Some(Some(6)), vd.read_int::<u64>(4).ok());
}

#[test]
fn write_int_be() {
    let mut vd = VecDeque::new();

    vd.write_int_be(5, 6u64).unwrap();
    vd.write_int_be(5, 7u64).unwrap();
    vd.write_int_be(5, 2u64).unwrap();
    vd.write_int_be(4, 3u64).unwrap();
    vd.write_int_be(4, 1u64).unwrap();
    vd.write_int_be(4, 0u64).unwrap();
    vd.write_int_be(4, 6u64).unwrap();

    assert_eq!(Some(Some(6)), vd.read_int_be::<u64>(5).ok());
    assert_eq!(Some(Some(7)), vd.read_int_be::<u64>(5).ok());
    assert_eq!(Some(Some(2)), vd.read_int_be::<u64>(5).ok());
    assert_eq!(Some(Some(3)), vd.read_int_be::<u64>(4).ok());
    assert_eq!(Some(Some(1)), vd.read_int_be::<u64>(4).ok());
    assert_eq!(Some(Some(0)), vd.read_int_be::<u64>(4).ok());
    assert_eq!(Some(Some(6)), vd.read_int_be::<u64>(4).ok());
}

#[test]
fn read_int_runs_out() {
    let mut vd = VecDeque::new();
    vd.write_bit(true).unwrap();
    assert!(vd.read_int::<u8>(3).is_err());
    let mut empty: VecDeque<bool> = VecDeque::new();
    assert_eq!(None, empty.read_int::<u8>(3).unwrap());
}
