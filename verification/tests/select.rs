use succinct::rank::{BitRankSupport, JacobsonRank, Rank9, RankSupport};
use succinct::select::{BinSearchSelect, SelectSupport, SelectSupport0, SelectSupport1};

#[test]
fn select1() {
    let vec = vec![0b00000000000001110000000000000001u32; 1024];
    let rank = JacobsonRank::new(vec);
    let select = BinSearchSelect::new(rank);

    assert_eq!(1, select.rank1(0));
    assert_eq!(1, select.rank1(1));
    assert_eq!(1, select.rank1(2));
    assert_eq!(1, select.rank1(15));
    assert_eq!(2, select.rank1(16));
    assert_eq!(3, select.rank1(17));
    assert_eq!(4, select.rank1(18));
    assert_eq!(4, select.rank1(19));
    assert_eq!(4, select.rank1(20));
    assert_eq!(5, select.rank1(32));

    assert_eq!(Some(0), select.select1(0));
    assert_eq!(Some(16), select.select1(1));
    assert_eq!(Some(17), select.select1(2));
    assert_eq!(Some(18), select.select1(3));
    assert_eq!(Some(32), select.select1(4));
    assert_eq!(Some(3200), select.select1(400));
    assert_eq!(Some(3216), select.select1(401));

    assert_eq!(Some(8 * 4092), select.select1(4092));
    assert_eq!(Some(8 * 4092 + 16), select.select1(4093));
    assert_eq!(Some(8 * 4092 + 17), select.select1(4094));
    assert_eq!(Some(8 * 4092 + 18), select.select1(4095));
    assert_eq!(None, select.select1(4096))
}

#[test]
fn select2() {
    let vec = vec![0b10101010101010101010101010101010u32; 1024];
    let rank = JacobsonRank::new(vec);
    let select = BinSearchSelect::new(rank);

    assert_eq!(Some(1), select.select1(0));
    assert_eq!(Some(3), select.select1(1));
    assert_eq!(Some(5), select.select1(2));
    assert_eq!(Some(7), select.select1(3));
    assert_eq!(Some(919), select.select1(459));
}

#[test]
fn select3() {
    let vec = vec![0b11111111111111111111111111111111u32; 1024];
    let rank = JacobsonRank::new(vec);
    let select = BinSearchSelect::new(rank);

    assert_eq!(Some(0), select.select1(0));
    assert_eq!(Some(1), select.select1(1));
    assert_eq!(Some(2), select.select1(2));
    assert_eq!(Some(32767), select.select1(32767));
    assert_eq!(None, select.select1(32768));
}

#[test]
fn select_zeros_and_values() {
    let vec = vec![0b0110u64; 4];
    let select = BinSearchSelect::new(Rank9::new(vec.clone()));

    assert_eq!(Some(0), select.select0(0));
    assert_eq!(Some(3), select.select0(1));
    assert_eq!(Some(64), select.select0(62));
    assert_eq!(None, select.select0(62 * 4));
    assert_eq!(Some(1), select.select(0, true));
    assert_eq!(Some(66), select.select(3, true));
    assert_eq!(None, select.select(8, true));
    assert_eq!(None, select.select1(u64::MAX));
    assert_eq!(256, select.limit());
    assert_eq!(2, select.rank(3, true));
    assert_eq!(vec, select.into_inner().into_inner());
}
