use succinct::rank::rank9::Level2;
use succinct::rank::{BitRankSupport, Rank9, RankSupport};
use succinct::SpaceUsage;

#[test]
fn prim_rank1() {
    assert_eq!(0, 0b00000000u8.rank1(0));
    assert_eq!(0, 0b00000000u8.rank1(7));
    assert_eq!(1, 0b01010101u8.rank1(0));
    assert_eq!(1, 0b01010101u8.rank1(1));
    assert_eq!(2, 0b01010101u8.rank1(2));
    assert_eq!(2, 0b01010101u8.rank1(3));

    assert_eq!(3, 0b00001111u8.rank1(2));
    assert_eq!(4, 0b00001111u8.rank1(3));
    assert_eq!(4, 0b00001111u8.rank1(4));
    assert_eq!(4, 0b00001111u8.rank1(5));
    assert_eq!(4, 0b00001111u8.rank1(7));

    assert_eq!(0, 0b11110000u8.rank1(0));
    assert_eq!(0, 0b11110000u8.rank1(3));
    assert_eq!(1, 0b11110000u8.rank1(4));
    assert_eq!(2, 0b11110000u8.rank1(5));
    assert_eq!(4, 0b11110000u8.rank1(7));
}

#[test]
fn rank0() {
    assert_eq!(1, 0b00000000u8.rank0(0));
    assert_eq!(8, 0b00000000u8.rank0(7));
    assert_eq!(0, 0b01010101u8.rank0(0));
    assert_eq!(1, 0b01010101u8.rank0(1));
    assert_eq!(1, 0b01010101u8.rank0(2));
    assert_eq!(2, 0b01010101u8.rank0(3));
}

#[test]
fn rank() {
    assert_eq!(1, 0b00000000u8.rank(0, false));
    assert_eq!(8, 0b00000000u8.rank(7, false));
    assert_eq!(0, 0b01010101u8.rank(0, false));
    assert_eq!(1, 0b01010101u8.rank(1, false));
    assert_eq!(1, 0b01010101u8.rank(2, false));
    assert_eq!(2, 0b01010101u8.rank(3, false));

    assert_eq!(0, 0b00000000u8.rank(0, true));
    assert_eq!(0, 0b00000000u8.rank(7, true));
    assert_eq!(1, 0b01010101u8.rank(0, true));
    assert_eq!(1, 0b01010101u8.rank(1, true));
    assert_eq!(2, 0b01010101u8.rank(2, true));
    assert_eq!(2, 0b01010101u8.rank(3, true));
}

#[test]
fn prim_rank_wide_blocks() {
    assert_eq!(64, (!0u64).rank1(63));
    assert_eq!(32, 0xFFFF_0000_FFFF_0000u64.rank1(63));
    assert_eq!(16, 0xFFFF_0000_FFFF_0000u64.rank0(31));
    assert_eq!(64, 0u64.limit());
}

#[test]
fn level2() {
    let mut l2 = Level2(0b0_110010000_000000000_000000001_000001110_000001000_100000000_000000101);

    assert_eq!(0, l2.get(0));
    assert_eq!(5, l2.get(1));
    assert_eq!(256, l2.get(2));
    assert_eq!(8, l2.get(3));
    assert_eq!(14, l2.get(4));
    assert_eq!(1, l2.get(5));
    assert_eq!(0, l2.get(6));
    assert_eq!(400, l2.get(7));

    l2.set(3, 45);

    assert_eq!(0, l2.get(0));
    assert_eq!(5, l2.get(1));
    assert_eq!(256, l2.get(2));
    assert_eq!(45, l2.get(3));
    assert_eq!(14, l2.get(4));
    assert_eq!(1, l2.get(5));
    assert_eq!(0, l2.get(6));
    assert_eq!(400, l2.get(7));

    l2.set(7, 511);

    assert_eq!(0, l2.get(0));
    assert_eq!(5, l2.get(1));
    assert_eq!(256, l2.get(2));
    assert_eq!(45, l2.get(3));
    assert_eq!(14, l2.get(4));
    assert_eq!(1, l2.get(5));
    assert_eq!(0, l2.get(6));
    assert_eq!(511, l2.get(7));
}

#[test]
fn rank9_rank1() {
    let vec = vec![0b00000000000001110000000000000001u64; 1024];
    let rank = Rank9::new(vec);

    assert_eq!(1, rank.rank1(0));
    assert_eq!(1, rank.rank1(1));
    assert_eq!(1, rank.rank1(2));
    assert_eq!(1, rank.rank1(7));
    assert_eq!(2, rank.rank1(16));
    assert_eq!(3, rank.rank1(17));
    assert_eq!(4, rank.rank1(18));
    assert_eq!(4, rank.rank1(19));
    assert_eq!(4, rank.rank1(20));

    assert_eq!(16, rank.rank1(4 * 64 - 1));
    assert_eq!(17, rank.rank1(4 * 64));
    assert_eq!(2048, rank.rank1(512 * 64 - 1));
    assert_eq!(2049, rank.rank1(512 * 64));

    assert_eq!(4096, rank.rank1(1024 * 64 - 1));
}

// This test is a sanity check that we aren't taking up too much
// space with the metadata.
#[test]
fn rank9_space() {
    for i in 0..50 {
        let vec = vec![0u64; 1000 + i];
        let vec_bytes = vec.total_bytes() as f64;
        let rank = Rank9::new(vec);

        assert!(rank.total_bytes() as f64 / vec_bytes < 1.3);
    }
}

#[test]
fn rank9_rank0_and_limit() {
    let vec = vec![0b1011u64; 10];
    let rank = Rank9::new(vec);
    assert_eq!(640, rank.limit());
    assert_eq!(1, rank.rank0(2));
    assert_eq!(3, rank.rank(3, true));
    assert_eq!(61 * 10, rank.rank(639, false));
    assert_eq!(vec![0b1011u64; 10], rank.into_inner());
}
