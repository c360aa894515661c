use quickcheck::quickcheck;
use std::collections::hash_map::DefaultHasher;
use std::hash::Hasher;
use succinct::rsdict::helpers::{bit_num, get_bit, pop_count, select_raw};
use succinct::rsdict::block_code::{code_length, decode_bit, encode, rank};
use succinct::rsdict::RsDict;
use succinct::select::{SelectSupport, SelectSupport0, SelectSupport1};
use succinct::SpaceUsage;

// QuickCheck doesn't generate uniform integer input, so let's hash
// the blocks before turning them into a bitset.
fn hash_u64(x: u64) -> u64 {
    let mut h = DefaultHasher::new();
    h.write_u64(x);
    h.finish()
}

// Ask quickcheck to generate blocks of 64 bits so we get test
// coverage for ranges spanning multiple small blocks.
fn test_rsdict(blocks: Vec<u64>) -> (Vec<bool>, RsDict) {
    let mut bits = Vec::with_capacity(blocks.len() * 64);
    let to_pop = blocks.get(0).unwrap_or(&0) % 64;
    for block in blocks {
        for i in 0..4 {
            let block = hash_u64(block.wrapping_add(i));
            if block % 2 != 0 {
                for j in 0..64 {
                    let bit = (block >> j) & 1 != 0;
                    bits.push(bit);
                }
            }
        }
    }
    for _ in 0..to_pop {
        bits.pop();
    }
    let mut rs_dict = RsDict::with_capacity(bits.len());
    for &bit in &bits {
        rs_dict.push(bit);
    }
    (bits, rs_dict)
}

#[test]
fn rsdict_doc_example() {
    let mut r = RsDict::new();
    r.push(false);
    r.push(true);
    r.push(true);
    r.push(false);

    // There's one bit set to the left of index 2.
    assert_eq!(r.rank(2, true), 1);

    // The index of the second (zero-indexed as 1) bit is 3.
    assert_eq!(r.select(1, false), Some(3));
}

#[test]
fn qc_from_blocks() {
    fn prop(blocks: Vec<u64>) -> bool {
        let (bits, rs_dict) = test_rsdict(blocks);
        let blocks: Vec<u64> = (0..(bits.len() / 64))
            .map(|i| {
                let mut block = 0u64;
                for j in 0..64 {
                    if bits[i * 64 + j] {
                        block |= 1 << j;
                    }
                }
                block
            })
            .collect();
        let mut block_rs_dict = RsDict::from_blocks(&blocks);
        for i in (bits.len() / 64 * 64)..bits.len() {
            block_rs_dict.push(bits[i]);
        }
        // The two representations agree field by field.
        format!("{:?}", rs_dict) == format!("{:?}", block_rs_dict)
    }

    quickcheck(prop as fn(Vec<u64>) -> bool);
}

#[test]
fn qc_rank() {
    fn prop(blocks: Vec<u64>) -> bool {
        let (bits, rs_dict) = test_rsdict(blocks);

        let mut one_rank = 0;
        let mut zero_rank = 0;

        // Check that rank(i) matches our naively computed ranks for all indices
        for (i, &inp_bit) in bits.iter().enumerate() {
            if rs_dict.rank(i as u64, false) != zero_rank || rs_dict.rank(i as u64, true) != one_rank {
                return false;
            }
            if inp_bit {
                one_rank += 1;
            } else {
                zero_rank += 1;
            }
        }
        true
    }

    quickcheck(prop as fn(Vec<u64>) -> bool);
}

#[test]
fn qc_select() {
    fn prop(blocks: Vec<u64>) -> bool {
        let (bits, rs_dict) = test_rsdict(blocks);

        let mut one_rank = 0usize;
        let mut zero_rank = 0usize;

        // Check `select(r)` for ranks "in bounds" within the bitvector against
        // our naively computed ranks.
        for (i, &inp_bit) in bits.iter().enumerate() {
            if inp_bit {
                if rs_dict.select(one_rank as u64, true) != Some(i as u64) {
                    return false;
                }
                one_rank += 1;
            } else {
                if rs_dict.select(zero_rank as u64, false) != Some(i as u64) {
                    return false;
                }
                zero_rank += 1;
            }
        }
        // Check all of the "out of bounds" ranks up until `bits.len()`
        for r in (one_rank + 1)..bits.len() {
            if rs_dict.select(r as u64, true) != None {
                return false;
            }
        }
        for r in (zero_rank + 1)..bits.len() {
            if rs_dict.select(r as u64, false) != None {
                return false;
            }
        }
        true
    }

    quickcheck(prop as fn(Vec<u64>) -> bool);
}

#[test]
fn qc_get_bit() {
    fn prop(blocks: Vec<u64>) -> bool {
        let (bits, rs_dict) = test_rsdict(blocks);
        bits.iter().enumerate().all(|(i, &bit)| rs_dict.get_bit(i as u64) == bit)
    }

    quickcheck(prop as fn(Vec<u64>) -> bool);
}

#[test]
fn qc_bit_and_one_rank() {
    fn prop(blocks: Vec<u64>) -> bool {
        let mut one_rank = 0;
        let (bits, rs_dict) = test_rsdict(blocks);
        for (i, &bit) in bits.iter().enumerate() {
            let (rs_bit, rs_rank) = rs_dict.bit_and_one_rank(i as u64);
            if (rs_bit, rs_rank) != (bit, one_rank) {
                return false;
            }
            if bit {
                one_rank += 1;
            }
        }
        true
    }

    quickcheck(prop as fn(Vec<u64>) -> bool);
}

#[test]
fn rsdict_counts_and_blocks() {
    let mut r = RsDict::new();
    assert!(r.is_empty());
    for i in 0..3000u64 {
        r.push(i % 3 == 0);
    }
    assert_eq!(3000, r.len());
    assert_eq!(1000, r.count_ones());
    assert_eq!(2000, r.count_zeros());
    assert_eq!(3000, r.limit());
    assert_eq!(1000, r.rank1(5000));
    assert_eq!(2000, r.rank0(3000));
    assert_eq!(1, r.rank1(1));
    assert_eq!(Some(2997), r.select1(999));
    assert_eq!(None, r.select1(1000));
    assert_eq!(Some(2999), r.select0(1999));
    assert_eq!(None, r.select0(2000));
    assert!(r.get_bit(2100));
    assert!(!r.get_bit(2101));
    assert_eq!((true, 700), r.bit_and_one_rank(2100));
    assert!(r.heap_bytes() > 0);

    // A whole block of ones and one of zeros take no code bits.
    let d = RsDict::from_blocks(&[!0u64, 0, 0b1011]);
    assert_eq!(192, d.len());
    assert_eq!(67, d.count_ones());
    assert_eq!(64, d.rank(64, true));
    assert_eq!(Some(128), d.select1(64));
    assert_eq!(Some(131), d.select1(66));
    assert_eq!(Some(64), d.select0(0));
    assert_eq!(Some(131), d.select(66, true));
}

#[test]
fn rsdict_helpers() {
    assert!(get_bit(0b100, 2));
    assert!(!get_bit(0b100, 1));
    assert_eq!(3, bit_num(3, 10, true));
    assert_eq!(7, bit_num(3, 10, false));
    assert_eq!(3, pop_count(0b1011));
    assert_eq!(64, pop_count(!0));
    assert_eq!(1, select_raw(0b1010, 1));
    assert_eq!(3, select_raw(0b1010, 2));
    assert_eq!(0, select_raw(0b1010, 3));
}

#[test]
fn block_code_lengths() {
    assert_eq!(0, code_length(0));
    assert_eq!(6, code_length(1));
    assert_eq!(11, code_length(2));
    assert_eq!(61, code_length(32));
    assert_eq!(6, code_length(63));
    assert_eq!(0, code_length(64));
}

#[test]
fn block_code_round_trip() {
    let blocks = [
        0u64,
        !0u64,
        1,
        1 << 63,
        0b1011,
        0x8000_0000_0000_0001,
        0xdead_beef_0bad_f00d,
        0x5555_5555_5555_5555,
    ];
    for &block in blocks.iter() {
        let class = block.count_ones() as u8;
        let (len, code) = encode(block, class);
        assert!(len == 64 || code >> len == 0);
        for pos in 0..64u64 {
            assert_eq!((block >> pos) & 1 == 1, decode_bit(code, class, pos));
            assert_eq!((block & ((1u128 << pos) - 1) as u64).count_ones() as u64, rank(code, class, pos));
        }
    }
    // The ones at positions 0 and 2 (class 2) have index binom(0, 1) + binom(2, 2) = 1.
    assert_eq!((11, 1), encode(0b101, 2));
}
