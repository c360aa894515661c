//! Blocks addressed from the most significant bit: bit 0 is the highest bit.

use vstd::prelude::*;

verus! {

use crate::bits::{bit_of, low_mask, get_bits_word, with_bits_word, with_bit_word};
use crate::storage;

/// Block operations that number bits from the most significant end.
pub trait BlockType: Sized {
    /// The bits of the block, zero-extended to 64 bits.
    spec fn block_word(self) -> u64;

    /// The number of bits in a block.
    spec fn block_nbits() -> nat;

    /// The number of bits in a block.
    fn nbits() -> (r: usize)
        ensures
            r == Self::block_nbits(),
    ;

    /// The mask of `element_bits` ones in the lowest positions.
    fn element_mask(element_bits: usize) -> (r: Self)
        requires
            element_bits <= Self::block_nbits(),
        ensures
            r.block_word() == low_mask(element_bits as nat),
    ;

    /// The mask with only bit `bit_index` set, counting from the most significant bit.
    fn nth_mask(bit_index: usize) -> (r: Self)
        requires
            bit_index < Self::block_nbits(),
        ensures
            forall|j: nat| #[trigger]
                bit_of(r.block_word(), j) == (j == Self::block_nbits() - 1 - bit_index),
    ;

    /// Extracts `len` bits starting at bit `start`, counting from the most significant bit.
    fn get_bits(self, start: usize, len: usize) -> (r: Self)
        requires
            start + len <= Self::block_nbits(),
        ensures
            r.block_word() == get_bits_word(
                self.block_word(),
                (Self::block_nbits() - start - len) as nat,
                len as nat,
            ),
    ;

    /// Sets `len` bits starting at bit `start`, counting from the most significant bit, to
    /// the low bits of `value`.
    fn set_bits(self, start: usize, len: usize, value: Self) -> (r: Self)
        requires
            start + len <= Self::block_nbits(),
        ensures
            r.block_word() == with_bits_word(
                self.block_word(),
                (Self::block_nbits() - start - len) as nat,
                len as nat,
                value.block_word(),
            ),
    ;

    /// Extracts bit `bit_index`, counting from the most significant bit.
    fn get_bit(self, bit_index: usize) -> (r: bool)
        requires
            bit_index < Self::block_nbits(),
        ensures
            r == bit_of(self.block_word(), (Self::block_nbits() - 1 - bit_index) as nat),
    ;

    /// Sets bit `bit_index`, counting from the most significant bit, to `bit_value`.
    fn set_bit(self, bit_index: usize, bit_value: bool) -> (r: Self)
        requires
            bit_index < Self::block_nbits(),
        ensures
            r.block_word() == with_bit_word(
                self.block_word(),
                (Self::block_nbits() - 1 - bit_index) as nat,
                bit_value,
            ),
    ;
}

/// Every storage block numbers its bits from the top as well, by converting offsets.
impl<B: storage::BlockType> BlockType for B {
    open spec fn block_word(self) -> u64 {
        storage::BlockType::word(self)
    }

    open spec fn block_nbits() -> nat {
        <B as storage::BlockType>::spec_nbits()
    }

    fn nbits() -> (r: usize) {
        <B as storage::BlockType>::nbits()
    }

    fn element_mask(element_bits: usize) -> (r: B) {
        <B as storage::BlockType>::low_mask(element_bits)
    }

    fn nth_mask(bit_index: usize) -> (r: B) {
        proof {
            <B as storage::BlockType>::lemma_width();
        }
        <B as storage::BlockType>::nth_mask(<B as storage::BlockType>::nbits() - bit_index - 1)
    }

    fn get_bits(self, start: usize, len: usize) -> (r: B) {
        proof {
            <B as storage::BlockType>::lemma_width();
        }
        if len == 0 {
            return <B as storage::BlockType>::from_word(0);
        }
        let limit = start + len;
        <B as storage::BlockType>::get_bits(self, <B as storage::BlockType>::nbits() - limit, len)
    }

    fn set_bits(self, start: usize, len: usize, value: B) -> (r: B) {
        proof {
            <B as storage::BlockType>::lemma_width();
        }
        if len == 0 {
            return self;
        }
        let limit = start + len;
        let after_bits = <B as storage::BlockType>::nbits() - limit;
        <B as storage::BlockType>::with_bits(self, after_bits, len, value)
    }

    fn get_bit(self, bit_index: usize) -> (r: bool) {
        proof {
            <B as storage::BlockType>::lemma_width();
        }
        <B as storage::BlockType>::get_bit(self, <B as storage::BlockType>::nbits() - bit_index - 1)
    }

    fn set_bit(self, bit_index: usize, bit_value: bool) -> (r: B) {
        proof {
            <B as storage::BlockType>::lemma_width();
        }
        <B as storage::BlockType>::with_bit(
            self,
            <B as storage::BlockType>::nbits() - bit_index - 1,
            bit_value,
        )
    }
}

} // verus!
