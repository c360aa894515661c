//! Vigna's rank9 structure: counts of ones per basic block of eight words, with the
//! counts within each basic block packed nine bits apiece.

use vstd::prelude::*;

verus! {

use crate::bits::popcount;
use crate::storage::BlockType;
use crate::space_usage::{SpaceUsage, saturated};
use crate::bit_vec::traits::{BitVec, blocks_for, size_ok, lemma_blocks_for_pad};
use super::traits::{
    RankSupport,
    BitRankSupport,
    count_in,
    lemma_count_mono,
    lemma_count_le,
    ones_to,
    lemma_ones_between,
};
use super::prim::{lemma_block_ones, lemma_block_popcount};

/// Field `t` of a packed word of subcounts: for `t` in `1 .. 8` the nine bits at bit
/// `9 * (t - 1)`; for `t == 0` the top bit.
pub open spec fn level2_field(w: u64, t: nat) -> u64 {
    if t == 0 {
        w >> 63u64
    } else {
        (w >> level2_shift(t as u64)) & 0x1FF
    }
}

/// The bits that field `t` can hold.
pub open spec fn level2_mask(t: nat) -> u64 {
    if t == 0 {
        1
    } else {
        0x1FF
    }
}

/// The bit position of field `t`.
pub open spec fn level2_shift(t: u64) -> u64 {
    if t == 0 {
        63
    } else {
        ((t - 1) * 9) as u64
    }
}

proof fn lemma_level2_bv(w: u64, v: u64, t: u64, tp: u64, u: u64)
    by (bit_vector)
    requires
        t < 8,
        u < 8,
        tp == (if t == 0 {
            0xffff_ffff_ffff_ffffu64
        } else {
            (t - 1) as u64
        }),
    ensures
        (0u64 >> level2_shift(u)) & 0x1FF == 0,
        0u64 >> 63u64 == 0,
        (tp >> 60u64) & 8 == (if t == 0 {
            8u64
        } else {
            0u64
        }),
        (w >> level2_shift(t)) & 0x1FF == (if t == 0 {
            w >> 63u64
        } else {
            (w >> level2_shift(t)) & 0x1FF
        }),
        ({
            let nw = (w & !(0x1FFu64 << level2_shift(t))) | ((v & 0x1FF) << level2_shift(t));
            (if u == 0 {
                nw >> 63u64
            } else {
                (nw >> level2_shift(u)) & 0x1FF
            }) == (if u == t {
                v & (if t == 0 {
                    1u64
                } else {
                    0x1FFu64
                })
            } else if u == 0 {
                w >> 63u64
            } else {
                (w >> level2_shift(u)) & 0x1FF
            })
        }),
{
}

/// Seven nine-bit counts packed in a word, with room for a top bit.
#[derive(Clone, Copy, Debug)]
pub struct Level2(pub u64);

impl Level2 {
    /// All fields zero.
    pub fn new() -> (r: Self)
        ensures
            forall|t: nat| t < 8 ==> #[trigger] level2_field(r.0, t) == 0,
    {
        let r = Level2(0);
        proof {
            assert forall|t: nat| t < 8 implies #[trigger] level2_field(r.0, t) == 0 by {
                lemma_level2_bv(0, 0, 0, 0xffff_ffff_ffff_ffffu64, t as u64);
            }
        }
        r
    }

    /// Gets field `t`.
    pub fn get(&self, t: usize) -> (r: u64)
        requires
            t < 8,
        ensures
            r == level2_field(self.0, t as nat),
    {
        let ghost t0 = t as u64;
        let t = (t as u64).wrapping_sub(1);
        proof {
            lemma_level2_bv(self.0, 0, t0, t, 0);
        }
        let shift = t.wrapping_add(t >> 60 & 8) * 9;
        proof {
            assert(shift == level2_shift(t0));
        }
        self.0 >> shift & 0x1FF
    }

    /// Sets field `t` to the bits of `value` that it can hold.
    pub fn set(&mut self, t: usize, value: u64)
        requires
            t < 8,
        ensures
            forall|u: nat|
                u < 8 ==> #[trigger] level2_field(final(self).0, u) == if u == t {
                    value & level2_mask(t as nat)
                } else {
                    level2_field(old(self).0, u)
                },
    {
        let ghost t0 = t as u64;
        let t = (t as u64).wrapping_sub(1);
        proof {
            lemma_level2_bv(self.0, value, t0, t, 0);
        }
        let shift = t.wrapping_add(t >> 60 & 8) * 9;
        proof {
            assert(shift == level2_shift(t0));
        }
        let old_part = self.0 & !(0x1FF << shift);
        let new_part = (value & 0x1FF) << shift;
        self.0 = old_part | new_part;
        proof {
            assert forall|u: nat| u < 8 implies #[trigger] level2_field(self.0, u) == if u == t0 {
                value & level2_mask(t0 as nat)
            } else {
                level2_field(old(self).0, u)
            } by {
                lemma_level2_bv(old(self).0, value, t0, t, u as u64);
            }
        }
    }
}

} // verus!

verus! {

/// The counts for one basic block: ones before it, and within it before each later word.
#[derive(Clone, Copy, Debug)]
struct Rank9Cell {
    level1: u64,
    level2: Level2,
}

/// The cells hold the counts of `bits`: for each basic block `b`, the ones before it, and for
/// each word `w` of it numbered below `set` overall, the ones from its start to that word.
spec fn cells_ok(bits: Seq<bool>, cells: Seq<Rank9Cell>, set: nat) -> bool {
    &&& forall|b: int| 0 <= b < cells.len() ==> #[trigger] cells[b].level1 == ones_to(bits, (512 * b) as nat)
    &&& forall|b: int| 0 <= b < cells.len() ==> level2_field(#[trigger] cells[b].level2.0, 0) == 0
    &&& forall|b: int, w: nat|
        0 <= b < cells.len() && 1 <= w < 8 && 8 * b + w < set ==> #[trigger] level2_field(
            cells[b].level2.0,
            w,
        ) == ones_to(bits, (512 * b + 64 * w) as nat) - ones_to(bits, (512 * b) as nat)
}

/// Vigna's rank structure for fast rank queries over a `BitVec`.
#[derive(Debug)]
pub struct Rank9<Store: BitVec<Block = u64>> {
    bit_store: Store,
    counts: Vec<Rank9Cell>,
}

/// Records the counts at word `i`: a new cell at the start of a basic block, else the count
/// within the basic block so far.
fn store_counts(result: &mut Vec<Rank9Cell>, i: usize, level1_count: u64, level2_count: &mut u64)
    requires
        old(result)@.len() == (i + 7) / 8,
        i % 8 != 0 ==> *old(level2_count) < 512,
    ensures
        i % 8 == 0 ==> {
            &&& final(result)@.len() == old(result)@.len() + 1
            &&& final(result)@.take(old(result)@.len() as int) == old(result)@
            &&& final(result)@.last().level1 == level1_count
            &&& forall|t: nat| t < 8 ==> #[trigger] level2_field(final(result)@.last().level2.0, t) == 0
            &&& *final(level2_count) == 0
        },
        i % 8 != 0 ==> {
            &&& final(result)@.len() == old(result)@.len()
            &&& forall|b: int|
                0 <= b < final(result)@.len() && b != i / 8 ==> #[trigger] final(result)@[b] == old(
                    result,
                )@[b]
            &&& final(result)@[(i / 8) as int].level1 == old(result)@[(i / 8) as int].level1
            &&& forall|t: nat|
                t < 8 ==> #[trigger] level2_field(final(result)@[(i / 8) as int].level2.0, t) == if t == i
                    % 8 {
                    *old(level2_count)
                } else {
                    level2_field(old(result)@[(i / 8) as int].level2.0, t)
                }
            &&& *final(level2_count) == *old(level2_count)
        },
{
    let basic_block_index = i / 8;
    let word_offset = i % 8;
    if word_offset == 0 {
        result.push(Rank9Cell { level1: level1_count, level2: Level2::new() });
        *level2_count = 0;
        proof {
            assert(result@.take(old(result)@.len() as int) =~= old(result)@);
        }
    } else {
        let mut cell = result[basic_block_index];
        cell.level2.set(word_offset, *level2_count);
        result.set(basic_block_index, cell);
        proof {
            let v = *level2_count;
            assert(v & 0x1FF == v) by (bit_vector)
                requires
                    v < 512,
            ;
        }
    }
}

impl<Store: BitVec<Block = u64>> Rank9<Store> {
    /// The counts are those of the stored bits, whose size fits the machine.
    #[verifier::type_invariant]
    spec fn inv(self) -> bool {
        &&& size_ok(&self.bit_store)
        &&& self.counts@.len() == blocks_for(self.bit_store.spec_bits().len(), 64) / 8 + 1
        &&& cells_ok(
            self.bit_store.spec_bits(),
            self.counts@,
            blocks_for(self.bit_store.spec_bits().len(), 64) + 1,
        )
    }

    /// The underlying bit store.
    pub closed spec fn store(&self) -> Store {
        self.bit_store
    }

    /// Creates a new rank9 structure.
    ///
    /// The store's words, plus eight, must be countable by a `usize`.
    pub fn new(bits: Store) -> (r: Self)
        requires
            size_ok(&bits),
            blocks_for(bits.spec_bits().len(), 64) + 8 <= usize::MAX,
        ensures
            r.store() == bits,
    {
        let ghost s = bits.spec_bits();
        let ghost len = s.len();
        let nb = bits.block_len();
        proof {
            crate::storage::lemma_usize_mask();
        }
        let bb_count = nb.ceil_div(8);
        let mut result: Vec<Rank9Cell> = Vec::with_capacity(bb_count + 1);
        let mut level1_count: u64 = 0;
        let mut level2_count: u64 = 0;
        let mut i: usize = 0;
        proof {
            assert(ones_to(s, 0) == 0);
        }
        while i < nb
            invariant
                size_ok(&bits),
                s == bits.spec_bits(),
                len == s.len(),
                nb == blocks_for(len, 64),
                nb + 8 <= usize::MAX,
                i <= nb,
                result@.len() == (i + 7) / 8,
                level1_count == ones_to(s, (64 * i) as nat),
                i == 0 ==> level2_count == 0,
                i > 0 ==> level2_count + result@[((i - 1) / 8) as int].level1 == level1_count,
                i > 0 ==> level2_count <= 64 * (i - 8 * ((i - 1) / 8)),
                cells_ok(s, result@, i as nat),
            decreases nb - i,
        {
            let ghost before = result@;
            proof {
                if i > 0 && i % 8 != 0 {
                    assert((i - 1) / 8 == i / 8);
                    assert(i - 8 * (i / 8) <= 7);
                }
            }
            store_counts(&mut result, i, level1_count, &mut level2_count);
            proof {
                lemma_blocks_for_pad(len, 64);
                assert(64 * i < len) by (nonlinear_arith)
                    requires
                        i < nb,
                        nb == blocks_for(len, 64),
                        nb * 64 < len + 64,
                ;
            }
            let block = bits.get_block(i);
            let word_count = crate::broadword::count_ones(block) as u64;
            proof {
                lemma_block_popcount(s, i as nat, block);
                lemma_ones_between(s, (64 * i) as nat, (64 * i + 64) as nat);
                assert(word_count + ones_to(s, (64 * i) as nat) == ones_to(s, (64 * (i + 1)) as nat));
                let e: nat = if 64 * (i + 1) <= len {
                    (64 * (i + 1)) as nat
                } else {
                    len
                };
                lemma_count_le(s, true, e);
                assert(ones_to(s, (64 * (i + 1)) as nat) <= len);
                let b = i / 8;
                assert forall|c: int| 0 <= c < result@.len() implies #[trigger] result@[c].level1 == ones_to(
                    s,
                    (512 * c) as nat,
                ) by {
                    if c < before.len() {
                        if i % 8 == 0 {
                            assert(result@[c] == result@.take(before.len() as int)[c]);
                        }
                    }
                }
                assert forall|c: int| 0 <= c < result@.len() implies level2_field(
                    #[trigger] result@[c].level2.0,
                    0,
                ) == 0 by {
                    if c < before.len() && i % 8 == 0 {
                        assert(result@[c] == result@.take(before.len() as int)[c]);
                    }
                }
                assert forall|c: int, w: nat|
                    0 <= c < result@.len() && 1 <= w < 8 && 8 * c + w < i + 1 implies #[trigger] level2_field(
                    result@[c].level2.0,
                    w,
                ) == ones_to(s, (512 * c + 64 * w) as nat) - ones_to(s, (512 * c) as nat) by {
                    if i % 8 == 0 {
                        if c < before.len() {
                            assert(result@[c] == result@.take(before.len() as int)[c]);
                        } else {
                            assert(8 * c == i);
                        }
                    } else if c != b {
                        assert(8 * c + w < i);
                    } else if w != i % 8 {
                        assert(8 * c + w < i);
                    } else {
                        assert(8 * c + w == i);
                        assert((i - 1) / 8 == b);
                    }
                }
            }
            level1_count = level1_count + word_count;
            level2_count = level2_count + word_count;
            i = i + 1;
            proof {
                assert((i - 1) / 8 == (i - 1) as int / 8);
            }
        }
        proof {
            if nb > 0 && nb % 8 != 0 {
                assert((nb - 1) / 8 == nb / 8);
                assert(nb - 8 * (nb / 8) <= 7);
            }
        }
        let ghost before = result@;
        store_counts(&mut result, nb, level1_count, &mut level2_count);
        proof {
            assert forall|c: int| 0 <= c < result@.len() implies #[trigger] result@[c].level1 == ones_to(
                s,
                (512 * c) as nat,
            ) by {
                if c < before.len() && nb % 8 == 0 {
                    assert(result@[c] == result@.take(before.len() as int)[c]);
                }
            }
            assert forall|c: int| 0 <= c < result@.len() implies level2_field(
                #[trigger] result@[c].level2.0,
                0,
            ) == 0 by {
                if c < before.len() && nb % 8 == 0 {
                    assert(result@[c] == result@.take(before.len() as int)[c]);
                }
            }
            assert forall|c: int, w: nat|
                0 <= c < result@.len() && 1 <= w < 8 && 8 * c + w < nb + 1 implies #[trigger] level2_field(
                result@[c].level2.0,
                w,
            ) == ones_to(s, (512 * c + 64 * w) as nat) - ones_to(s, (512 * c) as nat) by {
                if nb % 8 == 0 {
                    if c < before.len() {
                        assert(result@[c] == result@.take(before.len() as int)[c]);
                    } else {
                        assert(8 * c == nb);
                    }
                } else if c != nb / 8 {
                    assert(8 * c + w < nb);
                } else if w != nb % 8 {
                    assert(8 * c + w < nb);
                } else {
                    assert((nb - 1) / 8 == nb / 8);
                }
            }
        }
        Rank9 { bit_store: bits, counts: result }
    }

    /// Borrows a reference to the underlying bit store.
    pub fn inner(&self) -> (r: &Store)
        ensures
            *r == self.store(),
    {
        &self.bit_store
    }

    /// Returns the underlying bit store.
    pub fn into_inner(self) -> (r: Store)
        ensures
            r == self.store(),
    {
        self.bit_store
    }

    /// The ones at positions `0 ..= position`.
    fn count_ones_to(&self, position: u64) -> (r: u64)
        requires
            position < self.bit_store.spec_bits().len(),
        ensures
            r == count_in(self.bit_store.spec_bits(), true, (position + 1) as nat),
    {
        proof {
            use_type_invariant(self);
        }
        let ghost s = self.bit_store.spec_bits();
        let ghost len = s.len();
        let ghost nb = blocks_for(len, 64);
        proof {
            lemma_blocks_for_pad(len, 64);
            assert(position / 64 < nb) by (nonlinear_arith)
                requires
                    position < len,
                    len <= nb * 64,
            ;
        }
        let bb_index = (position / 512) as usize;
        let word_index = (position / 64) as usize;
        let word_offset = word_index % 8;
        let bit_offset = position % 64;
        proof {
            assert(bb_index == word_index / 8);
            assert(word_index == 8 * bb_index + word_offset);
            assert(position == 64 * word_index + bit_offset);
        }
        let cell = self.counts[bb_index];
        let bb_portion = cell.level1;
        let word_portion = cell.level2.get(word_offset);
        let block = self.bit_store.get_block(word_index);
        let bit_portion = block.rank1(bit_offset);
        proof {
            lemma_block_ones(s, word_index as nat, block, (bit_offset + 1) as nat);
            assert(512 * bb_index + 64 * word_offset == 64 * word_index);
            lemma_ones_between(s, (512 * bb_index) as nat, (64 * word_index) as nat);
            lemma_count_le(s, true, (position + 1) as nat);
        }
        bb_portion + word_portion + bit_portion
    }
}

impl<Store: BitVec<Block = u64>> BitRankSupport for Rank9<Store> {
    fn rank1(&self, position: u64) -> (r: u64) {
        self.count_ones_to(position)
    }
}

impl<Store: BitVec<Block = u64>> RankSupport for Rank9<Store> {
    type Over = bool;

    open spec fn spec_over(&self) -> Seq<bool> {
        self.store().spec_bits()
    }

    fn rank(&self, position: u64, value: bool) -> (r: u64) {
        let ones = self.count_ones_to(position);
        if value {
            ones
        } else {
            proof {
                super::traits::lemma_count_bool(self.bit_store.spec_bits(), (position + 1) as nat);
            }
            position + 1 - ones
        }
    }

    fn limit(&self) -> (r: u64) {
        proof {
            use_type_invariant(self);
        }
        self.bit_store.bit_len()
    }
}

impl<Store: BitVec<Block = u64>> BitVec for Rank9<Store> {
    type Block = u64;

    open spec fn spec_bits(&self) -> Seq<bool> {
        self.store().spec_bits()
    }

    fn bit_len(&self) -> (r: u64) {
        self.bit_store.bit_len()
    }

    fn block_len(&self) -> (r: usize) {
        self.bit_store.block_len()
    }

    fn get_block(&self, position: usize) -> (r: u64) {
        self.bit_store.get_block(position)
    }

    fn get_bit(&self, position: u64) -> (r: bool) {
        self.bit_store.get_bit(position)
    }

    fn get_bits(&self, start: u64, count: usize) -> (r: u64) {
        self.bit_store.get_bits(start, count)
    }
}

impl SpaceUsage for Rank9Cell {
    open spec fn spec_stack_only() -> bool {
        true
    }

    open spec fn spec_heap_floor(&self) -> nat {
        0
    }

    open spec fn spec_heap_outcome(&self, h: nat) -> bool {
        h == 0
    }

    fn is_stack_only() -> (r: bool) {
        true
    }

    fn heap_bytes(&self) -> (r: usize) {
        0
    }
}

impl SpaceUsage for Level2 {
    open spec fn spec_stack_only() -> bool {
        true
    }

    open spec fn spec_heap_floor(&self) -> nat {
        0
    }

    open spec fn spec_heap_outcome(&self, h: nat) -> bool {
        h == 0
    }

    fn is_stack_only() -> (r: bool) {
        true
    }

    fn heap_bytes(&self) -> (r: usize) {
        0
    }
}

impl<Store: BitVec<Block = u64> + SpaceUsage> SpaceUsage for Rank9<Store> {
    open spec fn spec_stack_only() -> bool {
        false
    }

    closed spec fn spec_heap_floor(&self) -> nat {
        self.bit_store.spec_heap_floor() + self.counts.spec_heap_floor()
    }

    closed spec fn spec_heap_outcome(&self, h: nat) -> bool {
        exists|a: nat, b: nat|
            #![trigger self.bit_store.spec_heap_outcome(a), self.counts.spec_heap_outcome(b)]
            self.bit_store.spec_heap_outcome(a) && self.counts.spec_heap_outcome(b) && h == saturated(a + b)
    }

    fn is_stack_only() -> (r: bool) {
        false
    }

    /// What the store owns plus the count buffer, saturating at `usize::MAX`.
    fn heap_bytes(&self) -> (r: usize) {
        self.bit_store.heap_bytes().saturating_add(self.counts.heap_bytes())
    }
}

impl<Store: BitVec<Block = u64> + SpaceUsage> Rank9<Store> {
    /// A rank9 structure owns, on the heap, what its store owns plus its count buffer's
    /// capacity in cells (at least the cells in use, within `isize::MAX` bytes), summed with
    /// saturation.
    proof fn lemma_heap_outcome(&self, h: nat)
        ensures
            self.spec_heap_outcome(h) <==> exists|a: nat, c: nat|
                #![trigger self.store().spec_heap_outcome(a), c * vstd::layout::size_of::<Rank9Cell>()]
                self.store().spec_heap_outcome(a) && c >= self.counts@.len() && c
                    * vstd::layout::size_of::<Rank9Cell>() <= isize::MAX && h == saturated(
                    a + c * vstd::layout::size_of::<Rank9Cell>(),
                ),
    {
        assert forall|b: nat| #[trigger] self.counts.spec_heap_outcome(b) <==> exists|c: nat|
            #![trigger c * vstd::layout::size_of::<Rank9Cell>()]
            c >= self.counts@.len() && c * vstd::layout::size_of::<Rank9Cell>() <= isize::MAX && b
                == c * vstd::layout::size_of::<Rank9Cell>() by {
            crate::space_usage::lemma_vec_heap_outcome_stack_only(&self.counts, b);
        }
        if self.spec_heap_outcome(h) {
            let (a, b) = choose|a: nat, b: nat|
                #![trigger self.bit_store.spec_heap_outcome(a), self.counts.spec_heap_outcome(b)]
                self.bit_store.spec_heap_outcome(a) && self.counts.spec_heap_outcome(b) && h
                    == saturated(a + b);
            let c = choose|c: nat|
                #![trigger c * vstd::layout::size_of::<Rank9Cell>()]
                c >= self.counts@.len() && c * vstd::layout::size_of::<Rank9Cell>() <= isize::MAX
                    && b == c * vstd::layout::size_of::<Rank9Cell>();
            assert(self.store().spec_heap_outcome(a) && c >= self.counts@.len() && c
                * vstd::layout::size_of::<Rank9Cell>() <= isize::MAX && h == saturated(
                a + c * vstd::layout::size_of::<Rank9Cell>(),
            ));
        }
        if exists|a: nat, c: nat|
            #![trigger self.store().spec_heap_outcome(a), c * vstd::layout::size_of::<Rank9Cell>()]
            self.store().spec_heap_outcome(a) && c >= self.counts@.len() && c
                * vstd::layout::size_of::<Rank9Cell>() <= isize::MAX && h == saturated(
                a + c * vstd::layout::size_of::<Rank9Cell>(),
            ) {
            let (a, c) = choose|a: nat, c: nat|
                #![trigger self.store().spec_heap_outcome(a), c * vstd::layout::size_of::<Rank9Cell>()]
                self.store().spec_heap_outcome(a) && c >= self.counts@.len() && c
                    * vstd::layout::size_of::<Rank9Cell>() <= isize::MAX && h == saturated(
                    a + c * vstd::layout::size_of::<Rank9Cell>(),
                );
            let b = c * vstd::layout::size_of::<Rank9Cell>();
            assert(self.counts.spec_heap_outcome(b));
            assert(self.bit_store.spec_heap_outcome(a) && self.counts.spec_heap_outcome(b) && h
                == saturated(a + b));
        }
    }
}

} // verus!
