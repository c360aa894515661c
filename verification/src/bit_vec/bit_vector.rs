//! An uncompressed, growable vector of bits.

use vstd::prelude::*;

verus! {

use crate::bits::{bit_of, lemma_bits_from_fits, lemma_zero_bits, lemma_low_mask_bits};
use crate::storage::BlockType;
use crate::space_usage::SpaceUsage;
use crate::internal::vector_base::{
    VectorBase,
    lemma_last_block_bound,
    lemma_block_count_fits,
    capacity_in_elements,
};
use super::traits::{
    BitVec,
    BitVecMut,
    BitVecPush,
    blocks_for,
    blocks_bits,
    is_block_of,
    overwrite,
    align_pad,
    word_bits,
    lemma_seq_bit_at,
    lemma_blocks_for_pad,
    lemma_blocks_for_exact,
    lemma_blocks_for_mono,
    lemma_align_pad,
};

/// Uncompressed vector of bits.
#[derive(Debug, PartialEq, Eq, PartialOrd, Ord, Hash)]
pub struct BitVector<Block: BlockType = usize>(VectorBase<Block>);

/// What a storage of one-bit elements tells of its bits.
proof fn lemma_storage<Block: BlockType>(v: &VectorBase<Block>)
    requires
        v.wf(1),
    ensures
        v.spec_len() <= v.bits().len(),
        v.bits().len() == v.blocks().len() * Block::spec_nbits(),
        v.blocks().len() == blocks_for(v.spec_len(), Block::spec_nbits()),
        v.blocks().len() <= usize::MAX,
        v.blocks().len() * Block::spec_nbits() <= v.spec_len() + Block::spec_nbits() - 1,
        v.spec_len() + Block::spec_nbits() <= u64::MAX,
        v.blocks().len() * Block::spec_nbits() + Block::spec_nbits() <= u64::MAX,
        forall|i: int| v.spec_len() <= i < v.bits().len() ==> !#[trigger] v.bits()[i],
{
    Block::lemma_width();
    lemma_last_block_bound(v, 1);
    lemma_block_count_fits(v);
    assert(v.spec_len() * 1 == v.spec_len());
    lemma_blocks_for_pad(v.spec_len(), Block::spec_nbits());
}

impl<Block: BlockType> BitVector<Block> {
    /// The storage holds one-bit elements.
    #[verifier::type_invariant]
    spec fn inv(self) -> bool {
        self.0.wf(1)
    }

    /// Creates a new, empty bit vector.
    pub fn new() -> (r: Self)
        ensures
            r.spec_bits() == Seq::<bool>::empty(),
    {
        proof {
            Block::lemma_width();
        }
        let r = BitVector(VectorBase::new());
        proof {
            assert(r.spec_bits() =~= Seq::<bool>::empty());
        }
        r
    }

    /// Creates a new, empty bit vector with space allocated for `capacity` bits.
    ///
    /// The number of blocks the capacity needs must fit a `usize`.
    pub fn with_capacity(capacity: u64) -> (r: Self)
        requires
            capacity + Block::spec_nbits() - 1 <= u64::MAX,
            blocks_for(capacity as nat, Block::spec_nbits()) <= usize::MAX,
        ensures
            r.spec_bits() == Seq::<bool>::empty(),
    {
        proof {
            Block::lemma_width();
            assert(capacity * 1 == capacity);
        }
        let r = BitVector(VectorBase::with_capacity(1, capacity));
        proof {
            assert(r.spec_bits() =~= Seq::<bool>::empty());
        }
        r
    }

    /// Creates a new, empty bit vector with space allocated for `capacity` blocks.
    pub fn block_with_capacity(capacity: usize) -> (r: Self)
        ensures
            r.spec_bits() == Seq::<bool>::empty(),
    {
        proof {
            Block::lemma_width();
        }
        let r = BitVector(VectorBase::block_with_capacity(capacity));
        proof {
            assert(r.spec_bits() =~= Seq::<bool>::empty());
        }
        r
    }

    /// Creates a new bit vector of `block_len` blocks, each initialized to `value`.
    pub fn block_with_fill(block_len: usize, value: Block) -> (r: Self)
        requires
            block_len * Block::spec_nbits() + Block::spec_nbits() <= u64::MAX,
        ensures
            r.spec_bits() == Seq::new(
                (block_len * Block::spec_nbits()) as nat,
                |i: int| bit_of(value.word(), (i % Block::spec_nbits() as int) as nat),
            ),
    {
        proof {
            Block::lemma_width();
        }
        let base = VectorBase::block_with_fill(1, block_len, value);
        proof {
            assert((block_len * Block::spec_nbits()) as nat / 1nat == block_len
                * Block::spec_nbits());
            lemma_storage(&base);
        }
        let r = BitVector(base);
        proof {
            assert(r.spec_bits() =~= Seq::new(
                (block_len * Block::spec_nbits()) as nat,
                |i: int| bit_of(value.word(), (i % Block::spec_nbits() as int) as nat),
            ));
        }
        r
    }

    /// Creates a new bit vector of `len` bits initialized to `value`.
    ///
    /// The blocks for `len` bits, plus one, must be countable in bits by a `u64`.
    pub fn with_fill(len: u64, value: bool) -> (r: Self)
        requires
            len + Block::spec_nbits() - 1 <= u64::MAX,
            blocks_for(len as nat, Block::spec_nbits()) <= usize::MAX,
            blocks_for(len as nat, Block::spec_nbits()) * Block::spec_nbits()
                + Block::spec_nbits() <= u64::MAX,
        ensures
            r.spec_bits() == Seq::new(len as nat, |i: int| value),
    {
        proof {
            Block::lemma_width();
            lemma_blocks_for_pad(len as nat, Block::spec_nbits());
        }
        let block_size = Block::checked_ceil_div_nbits(len).expect(
            "BitVector::with_fill: overflow",
        );
        let block_value = if value {
            Block::low_mask(Block::nbits())
        } else {
            Block::from_word(0)
        };
        proof {
            lemma_zero_bits();
            lemma_low_mask_bits(Block::spec_nbits());
            assert forall|j: nat| j < Block::spec_nbits() implies #[trigger] bit_of(
                block_value.word(),
                j,
            ) == value by {}
        }
        let result = Self::block_with_fill(block_size, block_value);
        proof {
            use_type_invariant(&result);
            lemma_storage(&result.0);
        }
        let ghost filled = result.spec_bits();
        proof {
            assert(block_size == blocks_for(len as nat, Block::spec_nbits()));
            assert(len <= block_size * Block::spec_nbits());
            assert(filled.len() == block_size * Block::spec_nbits());
            assert(filled.len() == result.0.spec_len());
        }
        let mut base = result.0;
        let ghost full = base.bits();
        base.truncate(1, len);
        proof {
            lemma_storage(&base);
            assert(len * 1 == len);
        }
        let r = BitVector(base);
        proof {
            assert forall|i: int| 0 <= i < len implies #[trigger] r.spec_bits()[i] == value by {
                assert(filled[i] == full[i]);
                assert(filled[i] == bit_of(
                    block_value.word(),
                    (i % Block::spec_nbits() as int) as nat,
                ));
            }
            assert(r.spec_bits() =~= Seq::new(len as nat, |i: int| value));
        }
        r
    }

    /// How many bits the bit vector can hold without reallocating, counted modulo `2^64`.
    pub fn capacity(&self) -> (r: u64)
        ensures
            exists|c: nat|
                c >= blocks_for(self.spec_bits().len(), Block::spec_nbits()) && r
                    == #[trigger] capacity_in_elements(c, Block::spec_nbits(), 1) && (c
                    * Block::spec_nbits() <= u64::MAX ==> r >= self.spec_bits().len()),
    {
        proof {
            use_type_invariant(self);
            lemma_storage(&self.0);
        }
        let r = self.0.capacity(1);
        proof {
            let n = Block::spec_nbits();
            let len = self.spec_bits().len();
            let c = choose|c: nat|
                c >= self.0.blocks().len() && r == #[trigger] capacity_in_elements(c, n, 1);
            if c * n <= u64::MAX {
                Block::lemma_width();
                lemma_blocks_for_pad(len, n);
                assert(len <= c * n) by (nonlinear_arith)
                    requires
                        len <= blocks_for(len, n) * n,
                        blocks_for(len, n) <= c,
                ;
                vstd::arithmetic::div_mod::lemma_small_mod(c * n, 0x1_0000_0000_0000_0000);
            }
        }
        r
    }

    /// How many blocks the bit vector can hold without reallocating.
    pub fn block_capacity(&self) -> (r: usize)
        ensures
            r >= blocks_for(self.spec_bits().len(), Block::spec_nbits()),
    {
        proof {
            use_type_invariant(self);
            lemma_storage(&self.0);
        }
        self.0.block_capacity()
    }

    /// Resizes to `block_len` blocks, filling new blocks with `value`; the length becomes
    /// `block_len * nbits()`.
    ///
    /// Bits past the old length in its last block read as clear.
    pub fn block_resize(&mut self, block_len: usize, value: Block)
        requires
            block_len * Block::spec_nbits() + Block::spec_nbits() <= u64::MAX,
        ensures
            final(self).spec_bits() == Seq::new(
                (block_len * Block::spec_nbits()) as nat,
                |i: int|
                    if i < old(self).spec_bits().len() {
                        old(self).spec_bits()[i]
                    } else if i < blocks_for(old(self).spec_bits().len(), Block::spec_nbits())
                        * Block::spec_nbits() {
                        false
                    } else {
                        bit_of(value.word(), (i % Block::spec_nbits() as int) as nat)
                    },
            ),
    {
        proof {
            use_type_invariant(&*self);
            lemma_storage(&self.0);
        }
        let mut base = VectorBase::new();
        std::mem::swap(&mut base, &mut self.0);
        base.block_resize(1, block_len, value);
        self.0 = base;
        proof {
            lemma_storage(&self.0);
            let n = Block::spec_nbits();
            assert((block_len * n) as nat / 1nat == block_len * n);
            assert(self.0.spec_len() * 1 == self.0.spec_len());
            let expected = Seq::new(
                (block_len * n) as nat,
                |i: int|
                    if i < old(self).spec_bits().len() {
                        old(self).spec_bits()[i]
                    } else if i < blocks_for(old(self).spec_bits().len(), n) * n {
                        false
                    } else {
                        bit_of(value.word(), (i % n as int) as nat)
                    },
            );
            assert forall|i: int| 0 <= i < expected.len() implies #[trigger] self.spec_bits()[i]
                == expected[i] by {
                if old(self).0.spec_len() <= i < old(self).0.bits().len() {
                    assert(!old(self).0.bits()[i]);
                }
            }
            assert(self.spec_bits() =~= expected);
        }
    }

    /// Resizes to `len` bits, filling new bits with `value`.
    ///
    /// The blocks for `len` bits must fit a `usize`, and `len` plus four blocks a `u64`.
    pub fn resize(&mut self, len: u64, value: bool)
        requires
            len + 4 * Block::spec_nbits() <= u64::MAX,
            blocks_for(len as nat, Block::spec_nbits()) <= usize::MAX,
        ensures
            final(self).spec_bits() == if len <= old(self).spec_bits().len() {
                old(self).spec_bits().take(len as int)
            } else {
                old(self).spec_bits() + Seq::new(
                    (len - old(self).spec_bits().len()) as nat,
                    |i: int| value,
                )
            },
    {
        proof {
            use_type_invariant(&*self);
            lemma_storage(&self.0);
            Block::lemma_width();
            lemma_blocks_for_pad(len as nat, Block::spec_nbits());
        }
        let ghost n = Block::spec_nbits();
        let ghost old_bits = self.spec_bits();
        let new_block_len = Block::checked_ceil_div_nbits(len).expect(
            "BitVector::resize: overflow",
        );
        proof {
            assert(new_block_len == blocks_for(len as nat, n));
            assert(len <= new_block_len * n);
        }
        proof {
            assert(self.spec_bits().len() == self.0.spec_len());
        }
        if len < self.bit_len() || !value {
            self.block_resize(new_block_len, Block::from_word(0));
            proof {
                lemma_zero_bits();
            }
            let ghost mid = self.spec_bits();
            self.truncate(len);
            proof {
                let expected = if len <= old_bits.len() {
                    old_bits.take(len as int)
                } else {
                    old_bits + Seq::new((len - old_bits.len()) as nat, |i: int| value)
                };
                assert forall|i: int| 0 <= i < len implies #[trigger] self.spec_bits()[i]
                    == expected[i] by {
                    assert(self.spec_bits()[i] == mid[i]);
                }
                assert(self.spec_bits() =~= expected);
            }
        } else {
            let trailing = Block::last_block_bits(self.bit_len());
            let remaining = Block::nbits() - trailing;
            proof {
                lemma_blocks_for_pad(old_bits.len(), n);
                assert(remaining == align_pad(old_bits.len(), n));
                lemma_align_pad(old_bits.len(), n, 0);
                lemma_blocks_for_exact(blocks_for(old_bits.len(), n), n);
                assert(old_bits + Seq::new(0, |i: int| true) =~= old_bits);
            }
            let mut k: usize = 0;
            while k < remaining
                invariant
                    n == Block::spec_nbits(),
                    0 < n <= 64,
                    k <= remaining,
                    remaining < n,
                    old_bits.len() <= len,
                    len + 4 * n <= u64::MAX,
                    blocks_for(len as nat, n) <= usize::MAX,
                    blocks_for((old_bits.len() + remaining) as nat, n) <= usize::MAX,
                    old_bits.len() + remaining == blocks_for(old_bits.len(), n) * n,
                    self.spec_bits() == old_bits + Seq::new(k as nat, |i: int| true),
                decreases remaining - k,
            {
                proof {
                    lemma_blocks_for_mono((old_bits.len() + k + 1) as nat, (old_bits.len() + remaining) as nat, n);
                }
                self.push_bit(true);
                k = k + 1;
                proof {
                    assert(self.spec_bits() =~= old_bits + Seq::new(k as nat, |i: int| true));
                }
            }
            let ghost padded = self.spec_bits();
            proof {
                lemma_blocks_for_pad(padded.len(), n);
                lemma_blocks_for_exact(blocks_for(old_bits.len(), n), n);
                lemma_blocks_for_mono(old_bits.len(), len as nat, n);
                lemma_low_mask_bits(n);
            }
            self.block_resize(new_block_len, Block::low_mask(Block::nbits()));
            let ghost mid = self.spec_bits();
            self.truncate(len);
            proof {
                let expected = old_bits + Seq::new((len - old_bits.len()) as nat, |i: int| value);
                assert forall|i: int| 0 <= i < len implies #[trigger] self.spec_bits()[i]
                    == expected[i] by {
                    assert(self.spec_bits()[i] == mid[i]);
                    if i >= old_bits.len() && i < padded.len() {
                        assert(padded[i]);
                    }
                }
                assert(self.spec_bits() =~= expected);
            }
        }
    }

    /// Reserves capacity for at least `additional` more bits.
    ///
    /// The blocks for the resulting length must fit a `usize`.
    pub fn reserve(&mut self, additional: u64)
        requires
            old(self).spec_bits().len() + additional + Block::spec_nbits() - 1 <= u64::MAX,
            blocks_for(
                (old(self).spec_bits().len() + additional) as nat,
                Block::spec_nbits(),
            ) <= usize::MAX,
        ensures
            final(self).spec_bits() == old(self).spec_bits(),
    {
        proof {
            use_type_invariant(&*self);
            lemma_storage(&self.0);
            assert((self.0.spec_len() + additional) * 1 == self.0.spec_len() + additional);
        }
        let mut base = VectorBase::new();
        std::mem::swap(&mut base, &mut self.0);
        base.reserve(1, additional);
        self.0 = base;
    }

    /// Reserves capacity for at least `additional` more blocks.
    pub fn block_reserve(&mut self, additional: usize)
        ensures
            final(self).spec_bits() == old(self).spec_bits(),
    {
        proof {
            use_type_invariant(&*self);
        }
        let mut base = VectorBase::new();
        std::mem::swap(&mut base, &mut self.0);
        base.block_reserve(additional);
        proof {
            assert(base.bits() == old(self).0.bits());
        }
        self.0 = base;
    }

    /// Reserves capacity for exactly `additional` more bits, if needed.
    ///
    /// The blocks for the resulting length must fit a `usize` and `isize::MAX` bytes.
    pub fn reserve_exact(&mut self, additional: u64)
        requires
            old(self).spec_bits().len() + additional + Block::spec_nbits() - 1 <= u64::MAX,
            blocks_for(
                (old(self).spec_bits().len() + additional) as nat,
                Block::spec_nbits(),
            ) <= usize::MAX,
            blocks_for(
                (old(self).spec_bits().len() + additional) as nat,
                Block::spec_nbits(),
            ) * (Block::spec_nbits() / 8) <= isize::MAX,
        ensures
            final(self).spec_bits() == old(self).spec_bits(),
    {
        proof {
            use_type_invariant(&*self);
            lemma_storage(&self.0);
            assert((self.0.spec_len() + additional) * 1 == self.0.spec_len() + additional);
        }
        let mut base = VectorBase::new();
        std::mem::swap(&mut base, &mut self.0);
        base.reserve_exact(1, additional);
        self.0 = base;
    }

    /// Reserves capacity for exactly `additional` more blocks, if needed.
    ///
    /// The resulting blocks must fit a `usize` and `isize::MAX` bytes.
    pub fn block_reserve_exact(&mut self, additional: usize)
        requires
            blocks_for(old(self).spec_bits().len(), Block::spec_nbits()) + additional
                <= usize::MAX,
            (blocks_for(old(self).spec_bits().len(), Block::spec_nbits()) + additional) * (
            Block::spec_nbits() / 8) <= isize::MAX,
        ensures
            final(self).spec_bits() == old(self).spec_bits(),
    {
        proof {
            use_type_invariant(&*self);
            lemma_storage(&self.0);
        }
        let mut base = VectorBase::new();
        std::mem::swap(&mut base, &mut self.0);
        base.block_reserve_exact(additional);
        self.0 = base;
    }

    /// Shrinks the capacity to just fit the bits.
    pub fn shrink_to_fit(&mut self)
        ensures
            final(self).spec_bits() == old(self).spec_bits(),
    {
        proof {
            use_type_invariant(&*self);
        }
        let mut base = VectorBase::new();
        std::mem::swap(&mut base, &mut self.0);
        base.shrink_to_fit();
        proof {
            assert(base.bits() == old(self).0.bits());
        }
        self.0 = base;
    }

    /// Shrinks to `len` bits; does nothing if `len` is not less than the length.
    pub fn truncate(&mut self, len: u64)
        ensures
            final(self).spec_bits() == if len < old(self).spec_bits().len() {
                old(self).spec_bits().take(len as int)
            } else {
                old(self).spec_bits()
            },
    {
        proof {
            use_type_invariant(&*self);
            lemma_storage(&self.0);
        }
        let mut base = VectorBase::new();
        std::mem::swap(&mut base, &mut self.0);
        base.truncate(1, len);
        self.0 = base;
        proof {
            lemma_storage(&self.0);
            if len < old(self).spec_bits().len() {
                assert(self.0.spec_len() * 1 == self.0.spec_len());
                assert(self.spec_bits() =~= old(self).spec_bits().take(len as int));
            }
        }
    }

    /// Shrinks to `block_len` blocks; does nothing if `block_len` is not less than the
    /// number of blocks.
    pub fn block_truncate(&mut self, block_len: usize)
        ensures
            final(self).spec_bits() == if block_len < blocks_for(
                old(self).spec_bits().len(),
                Block::spec_nbits(),
            ) {
                old(self).spec_bits().take(block_len * Block::spec_nbits())
            } else {
                old(self).spec_bits()
            },
    {
        proof {
            use_type_invariant(&*self);
            lemma_storage(&self.0);
            Block::lemma_width();
        }
        let mut base = VectorBase::new();
        std::mem::swap(&mut base, &mut self.0);
        base.block_truncate(1, block_len);
        self.0 = base;
        proof {
            lemma_storage(&self.0);
            let n = Block::spec_nbits();
            if block_len < old(self).0.blocks().len() {
                assert((block_len * n) as nat / 1nat == block_len * n);
                assert(self.0.spec_len() * 1 == self.0.spec_len());
                let ob = old(self).0.blocks().len();
                let ol = old(self).0.spec_len();
                assert(block_len * n < ol) by (nonlinear_arith)
                    requires
                        block_len < ob,
                        ob * n <= ol + n - 1,
                ;
                assert(self.spec_bits() =~= old(self).spec_bits().take(block_len * n));
            }
        }
    }

    /// Empties the vector, keeping its storage.
    pub fn clear(&mut self)
        ensures
            final(self).spec_bits() == Seq::<bool>::empty(),
    {
        proof {
            Block::lemma_width();
        }
        let mut base = VectorBase::new();
        std::mem::swap(&mut base, &mut self.0);
        base.clear();
        self.0 = base;
        proof {
            assert(self.spec_bits() =~= Seq::<bool>::empty());
        }
    }

    /// All the bits, in order.
    pub fn iter(&self) -> (r: Vec<bool>)
        ensures
            r@ == self.spec_bits(),
    {
        proof {
            use_type_invariant(self);
            lemma_storage(&self.0);
        }
        let len = self.0.len();
        let mut r: Vec<bool> = Vec::new();
        let mut i: u64 = 0;
        while i < len
            invariant
                self.0.wf(1),
                len == self.0.spec_len(),
                i <= len,
                r@ == self.spec_bits().take(i as int),
                self.0.spec_len() <= self.0.bits().len(),
                self.0.blocks().len() * Block::spec_nbits() + Block::spec_nbits() <= u64::MAX,
            decreases len - i,
        {
            let b = self.0.get_bit(i);
            r.push(b);
            i = i + 1;
            proof {
                assert(r@ =~= self.spec_bits().take(i as int));
            }
        }
        proof {
            assert(r@ =~= self.spec_bits());
        }
        r
    }
}

impl<Block: BlockType> Default for BitVector<Block> {
    fn default() -> (r: Self)
        ensures
            r.spec_bits() == Seq::<bool>::empty(),
    {
        BitVector::new()
    }
}

impl<Block: BlockType> Clone for BitVector<Block> {
    fn clone(&self) -> (r: Self)
        ensures
            r.spec_bits() == self.spec_bits(),
    {
        proof {
            use_type_invariant(self);
        }
        let base = self.0.clone();
        proof {
            assert(base.bits() == self.0.bits());
            assert(base.wf(1));
        }
        BitVector(base)
    }
}

impl<Block: BlockType> BitVec for BitVector<Block> {
    type Block = Block;

    closed spec fn spec_bits(&self) -> Seq<bool> {
        self.0.bits().take(self.0.spec_len() as int)
    }

    fn bit_len(&self) -> (r: u64) {
        proof {
            use_type_invariant(self);
            lemma_storage(&self.0);
        }
        self.0.len()
    }

    fn get_bit(&self, position: u64) -> (r: bool) {
        proof {
            use_type_invariant(self);
            lemma_storage(&self.0);
        }
        self.0.get_bit(position)
    }

    fn get_block(&self, position: usize) -> (r: Block) {
        proof {
            use_type_invariant(self);
            lemma_storage(&self.0);
            Block::lemma_width();
        }
        let r = self.0.get_block(position);
        proof {
            let n = Block::spec_nbits();
            Block::lemma_word(r);
            lemma_bits_from_fits(r.word(), n);
            assert forall|j: nat| #[trigger]
                bit_of(r.word(), j) == (j < n && position * n + j < self.spec_bits().len()
                    && self.spec_bits()[position * n + j]) by {
                if j < n {
                    lemma_seq_bit_at(self.0.blocks(), position as int, j as int);
                    assert(position * n + j < self.0.blocks().len() * n) by (nonlinear_arith)
                        requires
                            position < self.0.blocks().len(),
                            j < n,
                    ;
                    let k = position * n + j;
                    assert(self.0.bits()[k] == bit_of(r.word(), j));
                    if k >= self.0.spec_len() {
                        assert(!self.0.bits()[k]);
                    }
                }
            }
        }
        r
    }
}

impl<Block: BlockType> BitVecMut for BitVector<Block> {
    fn set_bit(&mut self, position: u64, value: bool) {
        proof {
            use_type_invariant(&*self);
            lemma_storage(&self.0);
        }
        let mut base = VectorBase::new();
        std::mem::swap(&mut base, &mut self.0);
        base.set_bit(position, value);
        self.0 = base;
        proof {
            lemma_storage(&self.0);
            assert(self.spec_bits() =~= old(self).spec_bits().update(position as int, value));
        }
    }

    fn set_block(&mut self, position: usize, value: Block) {
        proof {
            use_type_invariant(&*self);
            lemma_storage(&self.0);
        }
        let mut base = VectorBase::new();
        std::mem::swap(&mut base, &mut self.0);
        base.set_block(1, position, value);
        self.0 = base;
        proof {
            lemma_storage(&self.0);
            assert(old(self).0.spec_len() * 1 == old(self).0.spec_len());
            assert(self.spec_bits() =~= overwrite(
                old(self).spec_bits(),
                position * Block::spec_nbits(),
                Block::spec_nbits() as int,
                value.word(),
            ));
        }
    }
}

impl<Block: BlockType> BitVecPush for BitVector<Block> {
    fn push_bit(&mut self, value: bool) {
        proof {
            use_type_invariant(&*self);
            lemma_storage(&self.0);
        }
        let mut base = VectorBase::new();
        std::mem::swap(&mut base, &mut self.0);
        base.push_bit(value);
        self.0 = base;
        proof {
            lemma_storage(&self.0);
            assert(self.spec_bits() =~= old(self).spec_bits().push(value));
        }
    }

    fn pop_bit(&mut self) -> (r: Option<bool>) {
        proof {
            use_type_invariant(&*self);
            lemma_storage(&self.0);
        }
        let mut base = VectorBase::new();
        std::mem::swap(&mut base, &mut self.0);
        let r = base.pop_bit();
        self.0 = base;
        proof {
            lemma_storage(&self.0);
            if old(self).spec_bits().len() > 0 {
                assert(self.0.spec_len() * 1 == self.0.spec_len());
                assert(self.spec_bits() =~= old(self).spec_bits().drop_last());
            }
        }
        r
    }

    fn push_block(&mut self, value: Block) {
        proof {
            use_type_invariant(&*self);
            lemma_storage(&self.0);
            Block::lemma_width();
        }
        let ghost n = Block::spec_nbits();
        let ghost old_len = self.0.spec_len();
        let ghost old_bits = self.0.bits();
        let mut base = VectorBase::new();
        std::mem::swap(&mut base, &mut self.0);
        base.push_block(1, value);
        self.0 = base;
        proof {
            lemma_storage(&self.0);
            lemma_storage(&self.0);
            lemma_blocks_for_pad(old_len, n);
            assert((self.0.blocks().len() * n) / 1nat == self.0.blocks().len() * n);
            assert(self.0.spec_len() * 1 == self.0.spec_len());
            let ob = old(self).0.blocks().len();
            assert(self.0.blocks().len() * n == old_bits.len() + n) by (nonlinear_arith)
                requires
                    self.0.blocks().len() == ob + 1,
                    old_bits.len() == ob * n,
            ;
            let expected = old(self).spec_bits() + Seq::new(align_pad(old_len, n), |i: int| false)
                + word_bits(value.word(), n);
            assert forall|i: int| 0 <= i < self.spec_bits().len() implies #[trigger] self.spec_bits()[i]
                == expected[i] by {
                if i < old_bits.len() {
                    if i >= old_len {
                        assert(!old_bits[i]);
                    }
                }
            }
            assert(self.spec_bits() =~= expected);
        }
    }
}

impl<Block: BlockType> SpaceUsage for BitVector<Block> {
    open spec fn spec_stack_only() -> bool {
        false
    }

    closed spec fn spec_heap_floor(&self) -> nat {
        self.0.spec_heap_floor()
    }

    closed spec fn spec_heap_outcome(&self, h: nat) -> bool {
        self.0.spec_heap_outcome(h)
    }

    fn is_stack_only() -> (r: bool) {
        false
    }

    /// The block buffer, at least the blocks in use.
    fn heap_bytes(&self) -> (r: usize)
        ensures
            r >= blocks_for(self.spec_bits().len(), Block::spec_nbits()) * vstd::layout::size_of::<
                Block,
            >(),
            exists|c: nat|
                #![trigger c * vstd::layout::size_of::<Block>()]
                c >= blocks_for(self.spec_bits().len(), Block::spec_nbits()) && c
                    * vstd::layout::size_of::<Block>() <= isize::MAX && r == c
                    * vstd::layout::size_of::<Block>(),
    {
        proof {
            use_type_invariant(self);
            lemma_storage(&self.0);
            lemma_last_block_bound(&self.0, 1);
        }
        self.0.heap_bytes()
    }
}

impl<Block: BlockType> BitVector<Block> {
    /// The storage that holds the bits.
    pub closed spec fn storage(&self) -> VectorBase<Block> {
        self.0
    }

    /// A bit vector owns, on the heap, what its storage owns: its block capacity, at least
    /// the blocks in use and within `isize::MAX` bytes.
    pub proof fn lemma_heap_outcome(&self, h: nat)
        ensures
            self.spec_heap_outcome(h) <==> self.storage().spec_heap_outcome(h),
            self.spec_heap_outcome(h) <==> exists|c: nat|
                #![trigger c * vstd::layout::size_of::<Block>()]
                c >= self.storage().blocks().len() && c * vstd::layout::size_of::<Block>()
                    <= isize::MAX && h == c * vstd::layout::size_of::<Block>(),
    {
        self.0.lemma_heap_outcome(h);
    }
}

} // verus!
