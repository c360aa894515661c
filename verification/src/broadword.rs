//! Broadword operations treating `u64` as a parallel vector.

use vstd::prelude::*;

verus! {

use crate::bits::{popcount, lemma_popcount_low_bit, lemma_popcount_octet_split};

/// Has the lowest bit of every octet set: `0x0101010101010101`.
pub const L8: u64 = 0x0101010101010101;

/// Has the highest bit of every octet set: `0x8080808080808080`.
pub const H8: u64 = 0x8080808080808080;

/// The `k`th octet of `x`, counting from the least significant.
pub open spec fn octet(x: u64, k: u64) -> u64 {
    (x >> (8 * k)) & 0xff
}

/// The sum of the eight low bits of `y`.
pub open spec fn bit_sum8(y: u64) -> u64 {
    ((y & 1) + ((y >> 1) & 1) + ((y >> 2) & 1) + ((y >> 3) & 1) + ((y >> 4) & 1) + ((y >> 5) & 1)
        + ((y >> 6) & 1) + ((y >> 7) & 1)) as u64
}

proof fn lemma_swar_lane(x: u64, x1: u64, x2: u64, x3: u64, k: u64)
    by (bit_vector)
    requires
        k < 8,
        x1 == (x - ((x & 0xAAAAAAAAAAAAAAAA) >> 1)) as u64,
        x2 == ((x1 & 0x3333333333333333) + ((x1 >> 2) & 0x3333333333333333)) as u64,
        x3 == ((x2 + (x2 >> 4)) as u64) & 0x0F0F0F0F0F0F0F0F,
    ensures
        (x3 >> (8 * k)) & 0xff == bit_sum8((x >> (8 * k)) & 0xff),
{
}

proof fn lemma_swar_sum(x3: u64, w: u64)
    by (bit_vector)
    requires
        x3 & 0xF0F0F0F0F0F0F0F0 == 0,
        (x3 & 0xff) <= 8,
        ((x3 >> 8) & 0xff) <= 8,
        ((x3 >> 16) & 0xff) <= 8,
        ((x3 >> 24) & 0xff) <= 8,
        ((x3 >> 32) & 0xff) <= 8,
        ((x3 >> 40) & 0xff) <= 8,
        ((x3 >> 48) & 0xff) <= 8,
        ((x3 >> 56) & 0xff) <= 8,
        w == ((x3 * 0x0101010101010101) % 0x10000000000000000) as u64,
    ensures
        w >> 56 == (x3 & 0xff) + ((x3 >> 8) & 0xff) + ((x3 >> 16) & 0xff) + ((x3 >> 24) & 0xff) + (
        (x3 >> 32) & 0xff) + ((x3 >> 40) & 0xff) + ((x3 >> 48) & 0xff) + ((x3 >> 56) & 0xff),
{
}

proof fn lemma_octet_value_bv(y: u64)
    by (bit_vector)
    requires
        y < 256,
    ensures
        (y >> 1) >> 1 == y >> 2,
        (y >> 2) >> 1 == y >> 3,
        (y >> 3) >> 1 == y >> 4,
        (y >> 4) >> 1 == y >> 5,
        (y >> 5) >> 1 == y >> 6,
        (y >> 6) >> 1 == y >> 7,
        (y >> 7) >> 1 == 0,
        bit_sum8(y) == (y & 1) + ((y >> 1) & 1) + ((y >> 2) & 1) + ((y >> 3) & 1) + ((y >> 4) & 1)
            + ((y >> 5) & 1) + ((y >> 6) & 1) + ((y >> 7) & 1),
{
}

proof fn lemma_octets_bv(x: u64)
    by (bit_vector)
    ensures
        octet(x, 0) < 256,
        octet(x, 1) < 256,
        octet(x, 2) < 256,
        octet(x, 3) < 256,
        octet(x, 4) < 256,
        octet(x, 5) < 256,
        octet(x, 6) < 256,
        octet(x, 7) < 256,
        (x >> 8) >> 8 == x >> 16,
        (x >> 16) >> 8 == x >> 24,
        (x >> 24) >> 8 == x >> 32,
        (x >> 32) >> 8 == x >> 40,
        (x >> 40) >> 8 == x >> 48,
        (x >> 48) >> 8 == x >> 56,
        x & 0xff == octet(x, 0),
        (x >> 8) & 0xff == octet(x, 1),
        (x >> 16) & 0xff == octet(x, 2),
        (x >> 24) & 0xff == octet(x, 3),
        (x >> 32) & 0xff == octet(x, 4),
        (x >> 40) & 0xff == octet(x, 5),
        (x >> 48) & 0xff == octet(x, 6),
        x >> 56 == octet(x, 7),
{
}

proof fn lemma_popcount_octet_value(y: u64)
    requires
        y < 256,
    ensures
        popcount(y as nat) == bit_sum8(y),
{
    lemma_popcount_low_bit(y);
    lemma_popcount_low_bit(y >> 1);
    lemma_popcount_low_bit(y >> 2);
    lemma_popcount_low_bit(y >> 3);
    lemma_popcount_low_bit(y >> 4);
    lemma_popcount_low_bit(y >> 5);
    lemma_popcount_low_bit(y >> 6);
    lemma_popcount_low_bit(y >> 7);
    lemma_octet_value_bv(y);
    assert(popcount(0) == 0);
}

proof fn lemma_popcount_octets(x: u64)
    ensures
        popcount(x as nat) == bit_sum8(octet(x, 0)) + bit_sum8(octet(x, 1)) + bit_sum8(octet(x, 2))
            + bit_sum8(octet(x, 3)) + bit_sum8(octet(x, 4)) + bit_sum8(octet(x, 5)) + bit_sum8(
            octet(x, 6)) + bit_sum8(octet(x, 7)),
{
    lemma_octets_bv(x);
    lemma_popcount_octet_value(octet(x, 0));
    lemma_popcount_octet_value(octet(x, 1));
    lemma_popcount_octet_value(octet(x, 2));
    lemma_popcount_octet_value(octet(x, 3));
    lemma_popcount_octet_value(octet(x, 4));
    lemma_popcount_octet_value(octet(x, 5));
    lemma_popcount_octet_value(octet(x, 6));
    lemma_popcount_octet_value(octet(x, 7));
    assert(popcount(octet(x, 0) as nat) == bit_sum8(octet(x, 0)));
    assert(popcount(octet(x, 1) as nat) == bit_sum8(octet(x, 1)));
    assert(popcount(octet(x, 2) as nat) == bit_sum8(octet(x, 2)));
    assert(popcount(octet(x, 3) as nat) == bit_sum8(octet(x, 3)));
    assert(popcount(octet(x, 4) as nat) == bit_sum8(octet(x, 4)));
    assert(popcount(octet(x, 5) as nat) == bit_sum8(octet(x, 5)));
    assert(popcount(octet(x, 6) as nat) == bit_sum8(octet(x, 6)));
    assert(popcount(octet(x, 7) as nat) == bit_sum8(octet(x, 7)));
    lemma_popcount_octet_split(x);
    lemma_popcount_octet_split(x >> 8);
    lemma_popcount_octet_split(x >> 16);
    lemma_popcount_octet_split(x >> 24);
    lemma_popcount_octet_split(x >> 32);
    lemma_popcount_octet_split(x >> 40);
    lemma_popcount_octet_split(x >> 48);

}

/// The first step of the parallel count: two-bit sums.
spec fn swar1(x: u64) -> u64 {
    (x - ((x & 0xAAAAAAAAAAAAAAAA) >> 1)) as u64
}

/// The second step: four-bit sums.
spec fn swar2(x: u64) -> u64 {
    ((swar1(x) & 0x3333333333333333) + ((swar1(x) >> 2) & 0x3333333333333333)) as u64
}

/// The third step: octet sums.
spec fn swar3(x: u64) -> u64 {
    ((swar2(x) + (swar2(x) >> 4)) as u64) & 0x0F0F0F0F0F0F0F0F
}

proof fn lemma_swar_steps_bv(x: u64)
    by (bit_vector)
    ensures
        (x & 0xAAAAAAAAAAAAAAAA) >> 1 <= x,
        (swar1(x) & 0x3333333333333333) + ((swar1(x) >> 2) & 0x3333333333333333) <= u64::MAX,
        swar2(x) + (swar2(x) >> 4) <= u64::MAX,
        swar3(x) & 0xF0F0F0F0F0F0F0F0 == 0,
        forall|y: u64| #[trigger] bit_sum8(y) <= 8,
{
}

/// Counts the number of ones in a `u64`.
///
/// Uses the broadword algorithm from Vigna.
pub fn count_ones(x: u64) -> (r: usize)
    ensures
        r == popcount(x as nat),
{
    let ghost x0 = x;
    proof {
        lemma_octets_bv(x0);
        lemma_swar_steps_bv(x0);
    }
    let mut x = x;
    x = x.wrapping_sub((x & 0xAAAAAAAAAAAAAAAA) >> 1);
    let ghost x1 = x;
    x = (x & 0x3333333333333333).wrapping_add((x >> 2) & 0x3333333333333333);
    let ghost x2 = x;
    x = x.wrapping_add(x >> 4) & 0x0F0F0F0F0F0F0F0F;
    let ghost x3 = x;
    let w = x.wrapping_mul(L8);
    proof {
        lemma_swar_lane(x0, x1, x2, x3, 0);
        lemma_swar_lane(x0, x1, x2, x3, 1);
        lemma_swar_lane(x0, x1, x2, x3, 2);
        lemma_swar_lane(x0, x1, x2, x3, 3);
        lemma_swar_lane(x0, x1, x2, x3, 4);
        lemma_swar_lane(x0, x1, x2, x3, 5);
        lemma_swar_lane(x0, x1, x2, x3, 6);
        lemma_swar_lane(x0, x1, x2, x3, 7);
        lemma_octets_bv(x3);
        lemma_swar_sum(x3, w);
        lemma_popcount_octets(x0);
    }
    (w >> 56) as usize
}

/// Whether the flag bit (the highest bit) of octet `k` of `r` is set.
pub open spec fn lane_flag(r: u64, k: u64) -> bool {
    (r >> (8 * k + 7)) & 1 == 1
}

/// Octet `k` of `x` read as a two's-complement signed byte.
pub open spec fn signed_octet(x: u64, k: u64) -> int {
    if octet(x, k) < 128 {
        octet(x, k) as int
    } else {
        octet(x, k) - 256
    }
}

proof fn lemma_u_le8_lane(x: u64, y: u64, r: u64, k: u64)
    by (bit_vector)
    requires
        k < 8,
        r == ((((((y | 0x8080808080808080) - (x & !0x8080808080808080u64)) as u64) | (x ^ y)) ^ (x
            & !y)) & 0x8080808080808080),
    ensures
        ((r >> (8 * k + 7)) & 1 == 1) <==> ((x >> (8 * k)) & 0xff) <= ((y >> (8 * k)) & 0xff),
        r & !0x8080808080808080u64 == 0,
{
}

proof fn lemma_flip_octet(x: u64, k: u64)
    by (bit_vector)
    requires
        k < 8,
    ensures
        ((x >> (8 * k)) & 0xff) < 128 ==> (((x ^ 0x8080808080808080u64) >> (8 * k)) & 0xff) == ((x
            >> (8 * k)) & 0xff) + 128,
        ((x >> (8 * k)) & 0xff) >= 128 ==> (((x ^ 0x8080808080808080u64) >> (8 * k)) & 0xff) == ((x
            >> (8 * k)) & 0xff) - 128,
{
}

proof fn lemma_u_nz8_lane(x: u64, r: u64, k: u64)
    by (bit_vector)
    requires
        k < 8,
        r == (((((x | 0x8080808080808080) - 0x0101010101010101) as u64) | x) & 0x8080808080808080),
    ensures
        ((r >> (8 * k + 7)) & 1 == 1) <==> ((x >> (8 * k)) & 0xff) != 0,
        r & !0x8080808080808080u64 == 0,
{
}

proof fn lemma_lanes_pre_bv(x: u64, y: u64)
    by (bit_vector)
    ensures
        (y | 0x8080808080808080u64) >= (x & !0x8080808080808080u64),
        (x | 0x8080808080808080u64) >= 0x0101010101010101u64,
{
}

proof fn lemma_octet_parts(x: u64, k: u64)
    requires
        k < 8,
    ensures
        octet(x, k) < 256,
        (x >> (8 * k)) & 0x7f == octet(x, k) % 128,
        ((x >> (8 * k)) & 0x80 != 0) == (octet(x, k) >= 128),
        octet(x, k) >= 128 ==> octet(x, k) % 128 == octet(x, k) - 128,
        octet(x, k) < 128 ==> octet(x, k) % 128 == octet(x, k),
{
    assert(((x >> (8 * k)) & 0xff) < 256 && (x >> (8 * k)) & 0x7f == ((x >> (8 * k)) & 0xff) % 128
        && (((x >> (8 * k)) & 0x80 != 0) == (((x >> (8 * k)) & 0xff) >= 128))) by (bit_vector);
}

/// Parallel ≤, treating a `u64` as a vector of 8 `u8`s.
///
/// The result has the high bit of octet `k` set exactly when octet `k` of `x` is at most
/// octet `k` of `y`; every other bit is clear.
pub fn u_le8(x: u64, y: u64) -> (r: u64)
    ensures
        r & !H8 == 0,
        forall|k: u64| k < 8 ==> (lane_flag(r, k) <==> octet(x, k) <= octet(y, k)),
{
    proof {
        lemma_lanes_pre_bv(x, y);
    }
    let r = ((((y | H8).wrapping_sub(x & !H8)) | (x ^ y)) ^ (x & !y)) & H8;
    proof {
        lemma_u_le8_lane(x, y, r, 0);
        assert forall|k: u64| k < 8 implies (lane_flag(r, k) <==> octet(x, k) <= octet(y, k)) by {
            lemma_u_le8_lane(x, y, r, k);
        }
    }
    r
}

/// Parallel ≤, treating a `u64` as a vector of 8 `i8`s.
///
/// The result has the high bit of octet `k` set exactly when octet `k` of `x`, read as a
/// signed byte, is at most octet `k` of `y`; every other bit is clear. Flipping the sign bits
/// turns the signed order into the unsigned one.
pub fn le8(x: u64, y: u64) -> (r: u64)
    ensures
        r & !H8 == 0,
        forall|k: u64| k < 8 ==> (lane_flag(r, k) <==> signed_octet(x, k) <= signed_octet(y, k)),
{
    let r = u_le8(x ^ H8, y ^ H8);
    proof {
        assert forall|k: u64| k < 8 implies (lane_flag(r, k) <==> signed_octet(x, k)
            <= signed_octet(y, k)) by {
            lemma_flip_octet(x, k);
            lemma_flip_octet(y, k);
            lemma_octet_parts(x, k);
            lemma_octet_parts(y, k);
        }
    }
    r
}

/// Parallel >0, treating a `u64` as a vector of 8 `u8`s.
///
/// The result has the high bit of octet `k` set exactly when octet `k` of `x` is nonzero;
/// every other bit is clear.
pub fn u_nz8(x: u64) -> (r: u64)
    ensures
        r & !H8 == 0,
        forall|k: u64| k < 8 ==> (lane_flag(r, k) <==> octet(x, k) != 0),
{
    proof {
        lemma_lanes_pre_bv(x, x);
    }
    let r = ((x | H8).wrapping_sub(L8) | x) & H8;
    proof {
        lemma_u_nz8_lane(x, r, 0);
        assert forall|k: u64| k < 8 implies (lane_flag(r, k) <==> octet(x, k) != 0) by {
            lemma_u_nz8_lane(x, r, k);
        }
    }
    r
}

} // verus!
