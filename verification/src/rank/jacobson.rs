//! Jacobson's rank structure: ranks at the start of each large block, and within each large
//! block at the start of each small block, packed as integers of just the needed width.

use vstd::prelude::*;

verus! {

use vstd::arithmetic::power2::pow2;
use vstd::arithmetic::div_mod::{
    lemma_div_denominator,
    lemma_div_multiples_vanish,
    lemma_fundamental_div_mod,
    lemma_fundamental_div_mod_converse,
};
use crate::bits::{low_mask, popcount, lemma_low_mask_value};
use crate::storage::{BlockType, Address};
use crate::space_usage::{SpaceUsage, saturated};
use crate::internal::require;
use crate::bit_vec::traits::{BitVec, blocks_for, size_ok, lemma_blocks_for_pad};
use crate::int_vec::{IntVec, IntVector};
use super::traits::{RankSupport, BitRankSupport, count_in, lemma_count_le, ones_to, lemma_ones_between};
use super::prim::{lemma_block_ones, lemma_block_popcount};

/// A count up to `v` fits a width whose power of two exceeds `v`.
proof fn lemma_fits_width(x: nat, v: nat, width: nat)
    requires
        x <= v,
        0 < width <= 64,
        v < pow2(width),
    ensures
        x <= low_mask(width),
{
    if width < 64 {
        lemma_low_mask_value(width);
    } else {
        vstd::arithmetic::power2::lemma2_to64();
    }
}

/// A width from `ceil_lg` of a value between two and `2^60` is between one and sixty.
proof fn lemma_width_bound(v: nat, r: nat)
    requires
        2 <= v <= 0x1000_0000_0000_0000,
        r > 0,
        pow2((r - 1) as nat) < v <= pow2(r),
    ensures
        1 <= r <= 60,
{
    vstd::arithmetic::power2::lemma2_to64_rest();
    if r > 61 {
        vstd::arithmetic::power2::lemma_pow2_strictly_increases(60, (r - 1) as nat);
    }
}

/// An integer vector of `count` elements of `width <= 64` bits, where `count` is at most an
/// eighth of `n <= 2^59` plus one, fits the machine.
proof fn lemma_capacity_fits(n: nat, block: nat, count: nat, width: nat)
    requires
        n <= 0x0800_0000_0000_0000,
        n / 8 + 2 <= usize::MAX,
        block >= 8,
        count == n / block + 1,
        0 < width <= 64,
    ensures
        count * width + 63 <= u64::MAX,
        blocks_for(count * width, 64) <= usize::MAX,
        count <= n / 8 + 1,
{
    assert(count <= n / 8 + 1) by (nonlinear_arith)
        requires
            count == n / block + 1,
            block >= 8,
    {
        vstd::arithmetic::div_mod::lemma_div_is_ordered_by_denominator(n as int, 8, block as int);
    }
    assert(count * width <= count * 64) by (nonlinear_arith)
        requires
            width <= 64,
    ;
    crate::bit_vec::traits::lemma_blocks_for_exact(count, 64);
    crate::bit_vec::traits::lemma_blocks_for_mono(count * width, count * 64, 64);
}

/// The arithmetic of one step of the construction: where block `i` falls among the large
/// blocks.
proof fn lemma_step_facts(i: int, spl: int, nbits: int, lbs: int)
    requires
        i >= 0,
        spl >= 1,
        nbits > 0,
        lbs == nbits * spl,
    ensures
        (i * nbits) / lbs == i / spl,
        (i / spl) * lbs <= i * nbits < (i / spl) * lbs + lbs,
        i % spl == 0 ==> (i / spl) * lbs == i * nbits,
        i % spl != 0 ==> (i - 1) / spl == i / spl,
        i % spl == 0 ==> (i + spl - 1) / spl == i / spl,
        i % spl != 0 ==> (i + spl - 1) / spl == i / spl + 1,
        (i + 1 + spl - 1) / spl == i / spl + 1,
        (i + 1) % spl == if i % spl + 1 == spl {
            0
        } else {
            i % spl + 1
        },
{
    let d = spl;
    lemma_fundamental_div_mod(i, d);
    let q = i / d;
    let r = i % d;
    lemma_div_denominator(i * nbits, nbits, d);
    assert(i * nbits == nbits * i) by (nonlinear_arith);
    lemma_div_multiples_vanish(i, nbits);
    assert(q * lbs <= i * nbits < q * lbs + lbs) by (nonlinear_arith)
        requires
            i == d * q + r,
            0 <= r < d,
            lbs == nbits * d,
            nbits > 0,
    ;
    assert(r == 0 ==> q * lbs == i * nbits) by (nonlinear_arith)
        requires
            i == d * q + r,
            lbs == nbits * d,
    ;
    assert(i == q * d + r && i + d == (q + 1) * d + r) by (nonlinear_arith)
        requires
            i == d * q + r,
    ;
    if r != 0 {
        lemma_fundamental_div_mod_converse(i - 1, d, q, r - 1);
        lemma_fundamental_div_mod_converse(i + d - 1, d, q + 1, r - 1);
    } else {
        lemma_fundamental_div_mod_converse(i + d - 1, d, q, d - 1);
    }
    lemma_fundamental_div_mod_converse(i + d, d, q + 1, r);
    if r + 1 < d {
        lemma_fundamental_div_mod_converse(i + 1, d, q, r + 1);
    } else {
        lemma_fundamental_div_mod_converse(i + 1, d, q + 1, 0);
    }
}

/// Jacobson's rank structure for fast rank queries over a `BitVec`.
#[derive(Debug)]
pub struct JacobsonRank<Store: BitVec> {
    bit_store: Store,
    large_block_size: usize,
    large_block_ranks: IntVector<u64>,
    small_block_ranks: IntVector<u64>,
}

impl<Store: BitVec> JacobsonRank<Store> {
    /// The ranks are those of the stored bits: large block `k` holds the ones before it, and
    /// small block `i` the ones from its large block's start to it.
    #[verifier::type_invariant]
    spec fn inv(self) -> bool {
        let s = self.bit_store.spec_bits();
        let n = Store::Block::spec_nbits();
        let nb = blocks_for(s.len(), n);
        &&& size_ok(&self.bit_store)
        &&& self.large_block_size > 0
        &&& (self.large_block_size as nat) % n == 0
        &&& self.small_block_ranks.values().len() == nb + 1
        &&& self.large_block_ranks.values().len() > (nb * n) / (self.large_block_size as nat)
        &&& forall|k: int|
            0 <= k < self.large_block_ranks.values().len() ==> #[trigger] self.large_block_ranks.values()[k]
                == ones_to(s, (k * self.large_block_size) as nat)
        &&& forall|i: int|
            0 <= i < nb ==> #[trigger] self.small_block_ranks.values()[i] + ones_to(
                s,
                (((i * n) / (self.large_block_size as int)) * self.large_block_size) as nat,
            ) == ones_to(s, (i * n) as nat)
    }

    /// The underlying bit store.
    pub closed spec fn store(&self) -> Store {
        self.bit_store
    }

    /// Creates a new rank support structure for the given bit vector.
    ///
    /// The store must hold at least two bits (fewer leave no block size), at most `2^59`,
    /// and an eighth of its length, plus two, must fit a `usize`.
    #[verifier::rlimit(50)]
    #[verifier::spinoff_prover]
    pub fn new(bits: Store) -> (r: Self)
        requires
            size_ok(&bits),
            2 <= bits.spec_bits().len() <= 0x0800_0000_0000_0000,
            bits.spec_bits().len() / 8 + 2 <= usize::MAX,
        ensures
            r.store() == bits,
    {
        proof {
            Store::Block::lemma_width();
            vstd::arithmetic::power2::lemma2_to64();
            vstd::arithmetic::power2::lemma2_to64_rest();
        }
        let ghost s = bits.spec_bits();
        let ghost len = s.len();
        let ghost nbits = Store::Block::spec_nbits();
        let n = bits.bit_len();
        let lg_n = n.ceil_lg();
        proof {
            lemma_width_bound(n as nat, lg_n as nat);
        }
        proof {
            assert(lg_n * lg_n <= 3600) by (nonlinear_arith)
                requires
                    1 <= lg_n <= 60,
            ;
        }
        let lg2_n = lg_n * lg_n;
        let small_block_size = Store::Block::nbits();
        proof {
            crate::storage::lemma_usize_mask();
        }
        let small_per_large = lg2_n.ceil_div(small_block_size);
        proof {
            assert(1 <= small_per_large <= 3600) by (nonlinear_arith)
                requires
                    lg2_n == lg_n * lg_n,
                    1 <= lg_n <= 60,
                    small_per_large == (lg2_n + small_block_size - 1) as nat / small_block_size as nat,
                    small_block_size >= 8,
            ;
            assert(8 <= small_block_size * small_per_large <= 64 * 3600) by (nonlinear_arith)
                requires
                    1 <= small_per_large <= 3600,
                    8 <= small_block_size <= 64,
            ;
        }
        let large_block_size = small_block_size * small_per_large;
        let large_block_count = n / large_block_size as u64 + 1;
        let small_block_count = n / small_block_size as u64 + 1;
        let large_meta_size = (n + 1).ceil_lg();
        let small_meta_size = (large_block_size as u64 + 1).ceil_lg();
        proof {
            lemma_width_bound((n + 1) as nat, large_meta_size as nat);
            lemma_width_bound((large_block_size + 1) as nat, small_meta_size as nat);
            lemma_capacity_fits(n as nat, large_block_size as nat, large_block_count as nat, large_meta_size as nat);
            lemma_capacity_fits(n as nat, small_block_size as nat, small_block_count as nat, small_meta_size as nat);
        }
        let mut large_block_ranks = IntVector::with_capacity(large_meta_size, large_block_count);
        let mut small_block_ranks = IntVector::with_capacity(small_meta_size, small_block_count);
        let mut current_rank: u64 = 0;
        let mut last_large_rank: u64 = 0;
        let mut small_block_index: usize = 0;
        let nb = bits.block_len();
        let ghost lbs = large_block_size as nat;
        let ghost spl = small_per_large as nat;
        proof {
            lemma_blocks_for_pad(len, nbits);
            assert(nb <= len / 8 + 1) by (nonlinear_arith)
                requires
                    nb * nbits < len + nbits,
                    nbits >= 8,
            ;
            assert(ones_to(s, 0) == 0);
            assert(large_block_ranks.values().len() == 0);
            lemma_fundamental_div_mod_converse((spl - 1) as int, spl as int, 0, (spl - 1) as int);
        }
        let mut i: usize = 0;
        while i < nb
            invariant
                size_ok(&bits),
                s == bits.spec_bits(),
                len == s.len(),
                n == len,
                2 <= len <= 0x0800_0000_0000_0000,
                nbits == Store::Block::spec_nbits(),
                8 <= nbits <= 64,
                nb == blocks_for(len, nbits),
                nb <= len / 8 + 1,
                i <= nb,
                1 <= spl <= 3600,
                lbs == nbits * spl,
                small_per_large == spl,
                large_block_size == lbs,
                small_block_index as int == (i as int) % (spl as int),
                current_rank == ones_to(s, (i * nbits) as nat),
                i > 0 ==> last_large_rank == ones_to(s, ((((i - 1) as int) / (spl as int)) * lbs) as nat),
                0 < large_meta_size <= 60,
                len < pow2(large_meta_size as nat),
                0 < small_meta_size <= 64,
                lbs < pow2(small_meta_size as nat),
                large_block_ranks.spec_width() == large_meta_size,
                small_block_ranks.spec_width() == small_meta_size,
                large_block_ranks.values().len() == ((i + spl - 1) as int) / (spl as int),
                small_block_ranks.values().len() == i,
                forall|k: int|
                    0 <= k < large_block_ranks.values().len() ==> #[trigger] large_block_ranks.values()[k]
                        == ones_to(s, (k * lbs) as nat),
                forall|j: int|
                    0 <= j < i ==> #[trigger] small_block_ranks.values()[j] + ones_to(
                        s,
                        (((j * nbits) / (lbs as int)) * lbs) as nat,
                    ) == ones_to(s, (j * nbits) as nat),
            decreases nb - i,
        {
            proof {
                lemma_step_facts(i as int, spl as int, nbits as int, lbs as int);
                lemma_ones_between(s, 0, (i * nbits) as nat);
                lemma_count_le(s, true, if i * nbits <= len { (i * nbits) as nat } else { len });
            }
            if small_block_index == 0 {
                proof {
                    lemma_fits_width(current_rank as nat, len, large_meta_size as nat);
                    assert(large_block_ranks.values().len() * large_meta_size + 192 <= u64::MAX) by (nonlinear_arith)
                        requires
                            large_block_ranks.values().len() <= i,
                            i <= nb,
                            nb <= len / 8 + 1,
                            len <= 0x0800_0000_0000_0000,
                            large_meta_size <= 60,
                    ;
                }
                let ghost before = large_block_ranks.values();
                large_block_ranks.push(current_rank);
                last_large_rank = current_rank;
                proof {
                    assert forall|k: int|
                        0 <= k < large_block_ranks.values().len() implies #[trigger] large_block_ranks.values()[k]
                            == ones_to(s, (k * lbs) as nat) by {
                        if k == before.len() {
                            assert(k * lbs == i * nbits);
                        }
                    }
                }
            }
            proof {
                lemma_step_facts(i as int, spl as int, nbits as int, lbs as int);
                assert(last_large_rank == ones_to(s, (((i as int) / (spl as int)) * lbs) as nat));
                lemma_ones_between(s, (((i as int) / (spl as int)) * lbs) as nat, (i * nbits) as nat);
            }
            let excess_rank = current_rank - last_large_rank;
            proof {
                lemma_fits_width(excess_rank as nat, lbs, small_meta_size as nat);
                assert(small_block_ranks.values().len() * small_meta_size + 192 <= u64::MAX) by (nonlinear_arith)
                    requires
                        small_block_ranks.values().len() == i,
                        i <= nb,
                        nb <= len / 8 + 1,
                        len <= 0x0800_0000_0000_0000,
                        small_meta_size <= 64,
                ;
            }
            let ghost before_small = small_block_ranks.values();
            small_block_ranks.push(excess_rank);
            proof {
                lemma_blocks_for_pad(len, nbits);
                assert(i * nbits < len) by (nonlinear_arith)
                    requires
                        i < nb,
                        nb * nbits < len + nbits,
                        nbits > 0,
                ;
            }
            let block = bits.get_block(i);
            let count = crate::broadword::count_ones(block.to_word());
            proof {
                lemma_block_popcount(s, i as nat, block);
                assert((i + 1) * nbits == i * nbits + nbits) by (nonlinear_arith);
                lemma_ones_between(s, (i * nbits) as nat, ((i + 1) * nbits) as nat);
                assert forall|j: int|
                    0 <= j < i + 1 implies #[trigger] small_block_ranks.values()[j] + ones_to(
                        s,
                        (((j * nbits) / (lbs as int)) * lbs) as nat,
                    ) == ones_to(s, (j * nbits) as nat) by {
                    if j == i {
                        lemma_step_facts(i as int, spl as int, nbits as int, lbs as int);
                    } else {
                        assert(small_block_ranks.values()[j] == before_small[j]);
                    }
                }
            }
            current_rank = current_rank + count as u64;
            small_block_index = small_block_index + 1;
            if small_block_index == small_per_large {
                small_block_index = 0;
            }
            i = i + 1;
            proof {
                lemma_step_facts((i - 1) as int, spl as int, nbits as int, lbs as int);
            }
        }
        proof {
            lemma_step_facts(nb as int, spl as int, nbits as int, lbs as int);
            lemma_blocks_for_pad(len, nbits);
            lemma_ones_between(s, 0, (nb * nbits) as nat);
            lemma_count_le(s, true, len);
            lemma_fits_width(current_rank as nat, len, large_meta_size as nat);
            assert(large_block_ranks.values().len() * large_meta_size + 192 <= u64::MAX) by (nonlinear_arith)
                requires
                    large_block_ranks.values().len() <= nb,
                    nb <= len / 8 + 1,
                    len <= 0x0800_0000_0000_0000,
                    large_meta_size <= 60,
            ;
        }
        let ghost before_large = large_block_ranks.values();
        large_block_ranks.push(current_rank);
        proof {
            let kk = before_large.len() as int;
            assert(kk * lbs >= len) by (nonlinear_arith)
                requires
                    kk == ((nb + spl - 1) as int) / (spl as int),
                    lbs == nbits * spl,
                    nb * nbits >= len,
                    spl >= 1,
            {
                vstd::arithmetic::div_mod::lemma_fundamental_div_mod((nb + spl - 1) as int, spl as int);
            }
            assert(ones_to(s, (kk * lbs) as nat) == ones_to(s, (nb * nbits) as nat));
            assert forall|k: int|
                0 <= k < large_block_ranks.values().len() implies #[trigger] large_block_ranks.values()[k]
                    == ones_to(s, (k * lbs) as nat) by {
                if k < kk {
                    assert(large_block_ranks.values()[k] == before_large[k]);
                }
            }
            assert(large_block_ranks.values().len() > ((nb * nbits) as nat) / lbs) by (nonlinear_arith)
                requires
                    large_block_ranks.values().len() == ((nb + spl - 1) as int) / (spl as int) + 1,
                    lbs == nbits * spl,
                    spl >= 1,
                    nbits > 0,
            {
                vstd::arithmetic::div_mod::lemma_div_denominator((nb * nbits) as int, nbits as int, spl as int);
                vstd::arithmetic::div_mod::lemma_div_multiples_vanish(nb as int, nbits as int);
                vstd::arithmetic::div_mod::lemma_div_is_ordered(nb as int, (nb + spl - 1) as int, spl as int);
            }
            lemma_step_facts((nb - 1) as int, spl as int, nbits as int, lbs as int);
            lemma_ones_between(s, ((((nb - 1) as int) / (spl as int)) * lbs) as nat, (nb * nbits) as nat);
        }
        let excess_rank = current_rank - last_large_rank;
        proof {
            assert(small_block_ranks.values().len() * small_meta_size + 192 <= u64::MAX) by (nonlinear_arith)
                requires
                    small_block_ranks.values().len() == nb,
                    nb <= len / 8 + 1,
                    len <= 0x0800_0000_0000_0000,
                    small_meta_size <= 64,
            ;
            let k = ((nb - 1) as int) / (spl as int);
            vstd::arithmetic::div_mod::lemma_fundamental_div_mod((nb - 1) as int, spl as int);
            assert(nb * nbits <= k * lbs + lbs) by (nonlinear_arith)
                requires
                    nb - 1 == spl * k + (nb - 1) % (spl as int),
                    (nb - 1) % (spl as int) < spl,
                    lbs == nbits * spl,
                    nbits > 0,
            ;
            lemma_fits_width(excess_rank as nat, lbs, small_meta_size as nat);
        }
        let ghost before_small = small_block_ranks.values();
        small_block_ranks.push(excess_rank);
        proof {
            assert forall|j: int| 0 <= j < nb implies #[trigger] small_block_ranks.values()[j] + ones_to(
                s,
                (((j * nbits) / (lbs as int)) * lbs) as nat,
            ) == ones_to(s, (j * nbits) as nat) by {
                assert(small_block_ranks.values()[j] == before_small[j]);
            }
        }
        JacobsonRank {
            bit_store: bits,
            large_block_size: large_block_size,
            large_block_ranks: large_block_ranks,
            small_block_ranks: small_block_ranks,
        }
    }
}

impl<Store: BitVec> JacobsonRank<Store> {
    /// Borrows a reference to the underlying bit store.
    pub fn inner(&self) -> (r: &Store)
        ensures
            *r == self.store(),
    {
        &self.bit_store
    }

    /// Returns the underlying bit store.
    pub fn into_inner(self) -> (r: Store)
        ensures
            r == self.store(),
    {
        self.bit_store
    }

    /// The ones at positions `0 ..= position`.
    fn count_ones_to(&self, position: u64) -> (r: u64)
        requires
            position < self.bit_store.spec_bits().len(),
        ensures
            r == count_in(self.bit_store.spec_bits(), true, (position + 1) as nat),
    {
        proof {
            use_type_invariant(self);
            Store::Block::lemma_width();
        }
        let ghost s = self.bit_store.spec_bits();
        let ghost len = s.len();
        let ghost nbits = Store::Block::spec_nbits();
        let ghost lbs = self.large_block_size as nat;
        let ghost nb = blocks_for(len, nbits);
        require(position < self.bit_store.bit_len(), "JacobsonRank::rank1: out of bounds");
        let large_block = position / self.large_block_size as u64;
        proof {
            crate::bit_vec::traits::lemma_bit_in_range(position as nat, nbits, len);
        }
        let address = Address::new::<Store::Block>(position);
        proof {
            lemma_blocks_for_pad(len, nbits);
            lemma_fundamental_div_mod(position as int, nbits as int);
            let bi = address.block_index as int;
            let bo = address.bit_offset as int;
            assert(position == bi * nbits + bo) by (nonlinear_arith)
                requires
                    position == nbits * (position as int / nbits as int) + (position as int % nbits as int),
                    bi == position as int / nbits as int,
                    bo == position as int % nbits as int,
            ;
            assert(bi < nb) by (nonlinear_arith)
                requires
                    position == bi * nbits + bo,
                    0 <= bo,
                    position < len,
                    len <= nb * nbits,
                    nbits > 0,
            ;
            let spl = lbs / nbits;
            lemma_fundamental_div_mod(lbs as int, nbits as int);
            assert(lbs == nbits * spl);
            lemma_step_facts(bi, spl as int, nbits as int, lbs as int);
            lemma_div_denominator(position as int, nbits as int, spl as int);
            assert(large_block == bi / (spl as int));
            assert(large_block < self.large_block_ranks.values().len()) by {
                vstd::arithmetic::div_mod::lemma_div_is_ordered(position as int, (nb * nbits) as int, lbs as int);
            }
        }
        proof {
            self.large_block_ranks.lemma_elements_are_values();
            self.small_block_ranks.lemma_elements_are_values();
        }
        let large_rank = self.large_block_ranks.get(large_block);
        let small_rank = self.small_block_ranks.get(address.block_index as u64);
        let block = self.bit_store.get_block(address.block_index);
        let bits_rank = block.rank1(address.bit_offset as u64);
        proof {
            let bi = address.block_index as int;
            let bo = address.bit_offset as int;
            lemma_block_ones(s, bi as nat, block, (bo + 1) as nat);
            lemma_ones_between(s, (large_block * lbs) as nat, (bi * nbits) as nat);
            lemma_count_le(s, true, (position + 1) as nat);
        }
        large_rank + small_rank + bits_rank
    }
}

impl<Store: BitVec> BitRankSupport for JacobsonRank<Store> {
    fn rank1(&self, position: u64) -> (r: u64) {
        self.count_ones_to(position)
    }
}

impl<Store: BitVec> RankSupport for JacobsonRank<Store> {
    type Over = bool;

    open spec fn spec_over(&self) -> Seq<bool> {
        self.store().spec_bits()
    }

    fn rank(&self, position: u64, value: bool) -> (r: u64) {
        let ones = self.count_ones_to(position);
        if value {
            ones
        } else {
            proof {
                super::traits::lemma_count_bool(self.bit_store.spec_bits(), (position + 1) as nat);
            }
            position + 1 - ones
        }
    }

    fn limit(&self) -> (r: u64) {
        proof {
            use_type_invariant(self);
        }
        self.bit_store.bit_len()
    }
}

impl<Store: BitVec> BitVec for JacobsonRank<Store> {
    type Block = Store::Block;

    open spec fn spec_bits(&self) -> Seq<bool> {
        self.store().spec_bits()
    }

    fn bit_len(&self) -> (r: u64) {
        self.bit_store.bit_len()
    }

    fn block_len(&self) -> (r: usize) {
        self.bit_store.block_len()
    }

    fn get_block(&self, position: usize) -> (r: Store::Block) {
        self.bit_store.get_block(position)
    }

    fn get_bit(&self, position: u64) -> (r: bool) {
        self.bit_store.get_bit(position)
    }

    fn get_bits(&self, start: u64, count: usize) -> (r: Store::Block) {
        self.bit_store.get_bits(start, count)
    }
}

impl<Store: BitVec + SpaceUsage> SpaceUsage for JacobsonRank<Store> {
    open spec fn spec_stack_only() -> bool {
        false
    }

    closed spec fn spec_heap_floor(&self) -> nat {
        self.large_block_ranks.spec_heap_floor() + self.small_block_ranks.spec_heap_floor()
            + self.bit_store.spec_heap_floor()
    }

    closed spec fn spec_heap_outcome(&self, h: nat) -> bool {
        exists|a: nat, b: nat, c: nat|
            #![trigger self.large_block_ranks.spec_heap_outcome(a), self.small_block_ranks.spec_heap_outcome(b), self.bit_store.spec_heap_outcome(c)]
            self.large_block_ranks.spec_heap_outcome(a) && self.small_block_ranks.spec_heap_outcome(b)
                && self.bit_store.spec_heap_outcome(c) && h == saturated(a + b + c)
    }

    fn is_stack_only() -> (r: bool) {
        false
    }

    /// The rank vectors and what the store owns, saturating at `usize::MAX`.
    fn heap_bytes(&self) -> (r: usize) {
        self.large_block_ranks.heap_bytes().saturating_add(
            self.small_block_ranks.heap_bytes(),
        ).saturating_add(self.bit_store.heap_bytes())
    }
}

impl<Store: BitVec> JacobsonRank<Store> {
    /// The ranks before each large block.
    pub closed spec fn large_ranks(&self) -> IntVector<u64> {
        self.large_block_ranks
    }

    /// The ranks of each small block within its large block.
    pub closed spec fn small_ranks(&self) -> IntVector<u64> {
        self.small_block_ranks
    }
}

impl<Store: BitVec + SpaceUsage> JacobsonRank<Store> {
    /// A rank structure owns, on the heap, what its large-block ranks, its small-block ranks
    /// and its store own, each counted once, summed with saturation.
    pub proof fn lemma_heap_outcome(&self, h: nat)
        ensures
            self.spec_heap_outcome(h) <==> exists|a: nat, b: nat, c: nat|
                #![trigger self.large_ranks().spec_heap_outcome(a), self.small_ranks().spec_heap_outcome(b), self.store().spec_heap_outcome(c)]
                self.large_ranks().spec_heap_outcome(a) && self.small_ranks().spec_heap_outcome(b)
                    && self.store().spec_heap_outcome(c) && h == saturated(a + b + c),
    {
        assert(self.large_ranks() == self.large_block_ranks);
        assert(self.small_ranks() == self.small_block_ranks);
        assert(self.store() == self.bit_store);
        if self.spec_heap_outcome(h) {
            let (a, b, c) = choose|a: nat, b: nat, c: nat|
                #![trigger self.large_block_ranks.spec_heap_outcome(a), self.small_block_ranks.spec_heap_outcome(b), self.bit_store.spec_heap_outcome(c)]
                self.large_block_ranks.spec_heap_outcome(a) && self.small_block_ranks.spec_heap_outcome(b)
                    && self.bit_store.spec_heap_outcome(c) && h == saturated(a + b + c);
            assert(self.large_ranks().spec_heap_outcome(a) && self.small_ranks().spec_heap_outcome(b)
                && self.store().spec_heap_outcome(c));
        }
    }
}

} // verus!
