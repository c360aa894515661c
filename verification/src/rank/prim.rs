//! A single block answers rank queries over its own bits.

use vstd::prelude::*;

verus! {

use crate::bits::{
    bit_of,
    popcount,
    ones_below,
    lemma_popcount_low_mask,
    lemma_popcount_ones_below,
    lemma_ones_below_stable,
    lemma_bits_from_fits,
};
use crate::storage::BlockType;
use crate::bit_vec::traits::{word_bits, is_block_of};
use super::traits::{
    RankSupport,
    BitRankSupport,
    count_in,
    lemma_count_bool,
    lemma_count_window,
    lemma_count_skip,
};

/// The ones among the first `k` bits of a word's bit sequence are its ones below `k`.
pub proof fn lemma_count_word_bits(w: u64, n: nat, k: nat)
    requires
        k <= n,
    ensures
        count_in(word_bits(w, n), true, k) == ones_below(w, k),
    decreases k,
{
    if k > 0 {
        lemma_count_word_bits(w, n, (k - 1) as nat);
    }
}

/// The ones of `w` at positions `0 ..= position`, by masking and counting.
pub proof fn lemma_rank_word(w: u64, n: nat, position: nat)
    requires
        position < n <= 64,
    ensures
        popcount((w & crate::bits::low_mask(position + 1)) as nat) == count_in(
            word_bits(w, n),
            true,
            position + 1,
        ),
{
    lemma_popcount_low_mask(w, position + 1);
    lemma_count_word_bits(w, n, position + 1);
}

/// The ones of `block` at positions `0 ..= position`.
fn block_rank1<B: BlockType>(block: B, position: u64) -> (r: u64)
    requires
        position < B::spec_nbits(),
    ensures
        r == count_in(word_bits(block.word(), B::spec_nbits()), true, (position + 1) as nat),
{
    proof {
        B::lemma_width();
        lemma_rank_word(block.word(), B::spec_nbits(), position as nat);
    }
    let mask = B::low_mask((position + 1) as usize);
    crate::broadword::count_ones(block.to_word() & mask.to_word()) as u64
}

/// The ones of block `p` of a bit sequence are those of the sequence's positions in the block.
pub proof fn lemma_block_ones<B: BlockType>(bits: Seq<bool>, p: nat, r: B, k: nat)
    requires
        is_block_of(bits, p as int, r),
        k <= B::spec_nbits(),
        p * B::spec_nbits() + k <= bits.len(),
    ensures
        count_in(word_bits(r.word(), B::spec_nbits()), true, k) + count_in(
            bits,
            true,
            p * B::spec_nbits(),
        ) == count_in(bits, true, p * B::spec_nbits() + k),
{
    let n = B::spec_nbits();
    let wb = word_bits(r.word(), n);
    assert forall|j: int| 0 <= j < k implies #[trigger] wb[j] == bits[p * n + j] by {
        assert(bit_of(r.word(), j as nat) == (j < n && p * n + j < bits.len() && bits[p * n
            + j]));
    }
    lemma_count_window(bits, wb, true, p * n, k);
}

/// A whole block's count of ones: the sequence's ones from the block's start to its end or the
/// sequence's end.
pub proof fn lemma_block_popcount<B: BlockType>(bits: Seq<bool>, p: nat, r: B)
    requires
        is_block_of(bits, p as int, r),
        p * B::spec_nbits() <= bits.len(),
    ensures
        popcount(r.word() as nat) + count_in(bits, true, p * B::spec_nbits()) == count_in(
            bits,
            true,
            if p * B::spec_nbits() + B::spec_nbits() <= bits.len() {
                p * B::spec_nbits() + B::spec_nbits()
            } else {
                bits.len()
            },
        ),
{
    B::lemma_width();
    let n = B::spec_nbits();
    let w = r.word();
    let k = if p * n + n <= bits.len() {
        n
    } else {
        (bits.len() - p * n) as nat
    };
    B::lemma_word(r);
    lemma_bits_from_fits(w, n);
    lemma_popcount_ones_below(w);
    lemma_ones_below_stable(w, n, 64);
    lemma_count_word_bits(w, n, n);
    let wb = word_bits(w, n);
    assert forall|j: int| k <= j < n implies #[trigger] wb[j] != true by {
        assert(bit_of(w, j as nat) == (j < n && p * n + j < bits.len() && bits[p * n + j]));
    }
    lemma_count_skip(wb, true, k, n);
    lemma_block_ones(bits, p, r, k);
}

impl<B: BlockType> RankSupport for B {
    type Over = bool;

    open spec fn spec_over(&self) -> Seq<bool> {
        word_bits(self.word(), B::spec_nbits())
    }

    fn rank(&self, position: u64, value: bool) -> (r: u64) {
        let ones = block_rank1(*self, position);
        if value {
            ones
        } else {
            proof {
                B::lemma_width();
                lemma_count_bool(self.spec_over(), (position + 1) as nat);
            }
            position + 1 - ones
        }
    }

    fn limit(&self) -> (r: u64) {
        proof {
            B::lemma_width();
        }
        B::nbits() as u64
    }
}

impl<B: BlockType> BitRankSupport for B {
    fn rank1(&self, position: u64) -> (r: u64) {
        block_rank1(*self, position)
    }
}

} // verus!
