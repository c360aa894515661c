//! Bit helpers on 64-bit small blocks.

use vstd::prelude::*;

verus! {

use crate::bits::{
    bit_of,
    ones_below,
    popcount,
    lemma_ones_below_bounds,
    lemma_popcount_ones_below,
    lemma_word_facts,
    lemma_zero_bits,
};
use super::constants::SMALL_BLOCK_SIZE;

/// Bit `pos` of `block`.
pub fn get_bit(block: u64, pos: u8) -> (r: bool)
    requires
        pos < 64,
    ensures
        r == bit_of(block, pos as nat),
{
    ((block >> pos) & 1) == 1
}

/// `x` itself for ones, and `n - x` for zeros: turns a count of ones among `n` bits into the
/// count of the bit asked for.
pub fn bit_num(x: u64, n: u64, b: bool) -> (r: u64)
    requires
        !b ==> x <= n,
    ensures
        r == if b {
            x
        } else {
            (n - x) as u64
        },
{
    if b {
        x
    } else {
        n - x
    }
}

/// The number of ones of `x`.
pub fn pop_count(x: u64) -> (r: u8)
    ensures
        r == popcount(x as nat),
        r <= 64,
{
    proof {
        lemma_popcount_ones_below(x);
        lemma_ones_below_bounds(x, 0, 64);
    }
    crate::broadword::count_ones(x) as u8
}

/// The position of the `rank`th one of `code`, counting from one; zero where `code` has fewer
/// than `rank` ones.
pub fn select_raw(code: u64, rank: u8) -> (r: u8)
    requires
        rank > 0 || code == 0,
    ensures
        0 < rank <= ones_below(code, 64) ==> {
            &&& r < 64
            &&& bit_of(code, r as nat)
            &&& ones_below(code, r as nat) + 1 == rank
        },
        !(0 < rank <= ones_below(code, 64)) ==> r == 0,
{
    let ghost rank0 = rank as nat;
    let mut remaining = rank;
    let mut i: u64 = 0;
    while i < SMALL_BLOCK_SIZE
        invariant
            i <= 64,
            remaining as nat + ones_below(code, i as nat) == rank0,
            rank0 == rank as nat,
            rank0 > 0 ==> remaining > 0,
            rank0 == 0 ==> code == 0,
        decreases 64 - i,
    {
        proof {
            assert(ones_below(code, (i + 1) as nat) == ones_below(code, i as nat) + if bit_of(
                code,
                i as nat,
            ) {
                1nat
            } else {
                0nat
            });
        }
        if get_bit(code, i as u8) {
            proof {
                if rank0 == 0 {
                    lemma_zero_bits();
                }
            }
            remaining = remaining - 1;
            if remaining == 0 {
                proof {
                    lemma_ones_below_bounds(code, (i + 1) as nat, 64);
                }
                return i as u8;
            }
        }
        i = i + 1;
    }
    proof {
        if rank0 == 0 {
            lemma_zero_bits();
            assert forall|k: nat| k <= 64 implies ones_below(code, k) == 0 by {
                crate::bits::lemma_ones_below_full(k);
            }
        }
    }
    0
}

} // verus!
