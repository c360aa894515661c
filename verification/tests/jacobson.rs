use succinct::rank::{BitRankSupport, JacobsonRank, RankSupport};
use succinct::{BitVec, SpaceUsage};

#[test]
fn jacobson_rank1() {
    let vec = vec![0b00000000000001110000000000000001u32; 1024];
    let rank = JacobsonRank::new(vec);

    assert_eq!(1, rank.rank1(0));
    assert_eq!(1, rank.rank1(1));
    assert_eq!(1, rank.rank1(2));
    assert_eq!(1, rank.rank1(7));
    assert_eq!(2, rank.rank1(16));
    assert_eq!(3, rank.rank1(17));
    assert_eq!(4, rank.rank1(18));
    assert_eq!(4, rank.rank1(19));
    assert_eq!(4, rank.rank1(20));

    assert_eq!(16, rank.rank1(4 * 32 - 1));
    assert_eq!(17, rank.rank1(4 * 32));
    assert_eq!(2048, rank.rank1(512 * 32 - 1));
    assert_eq!(2049, rank.rank1(512 * 32));

    assert_eq!(4096, rank.rank1(1024 * 32 - 1));
}

// This test is a sanity check that we aren't taking up too much
// space with the metadata.
#[test]
fn jacobson_space() {
    for i in 0..50 {
        let vec = vec![0b10000000000000001110000000000000u32; 1000 + i];
        let rank = JacobsonRank::new(&*vec);

        assert!((rank.total_bytes() as f64 / vec.total_bytes() as f64) < 1.5);
    }
}

#[test]
fn jacobson_rank0_rank_and_store() {
    let vec = vec![0b1011u8; 100];
    let rank = JacobsonRank::new(vec.clone());
    assert_eq!(800, rank.limit());
    assert_eq!(800, rank.bit_len());
    assert_eq!(1, rank.rank0(2));
    assert_eq!(3, rank.rank(3, true));
    assert_eq!(5 * 100, rank.rank(799, false));
    assert_eq!(3 * 100, rank.rank1(799));
    assert_eq!(&vec, rank.inner());
    assert_eq!(vec, rank.into_inner());
}

#[test]
fn jacobson_small_store() {
    let rank = JacobsonRank::new(vec![0b10u8]);
    assert_eq!(0, rank.rank1(0));
    assert_eq!(1, rank.rank1(1));
    assert_eq!(1, rank.rank1(7));
    assert_eq!(7, rank.rank0(7));
}
