//! A single block is a bit vector of `nbits()` bits.

use vstd::prelude::*;

verus! {

use crate::bits::{bit_of, lemma_bits_from_fits};
use crate::storage::BlockType;
use crate::internal::require;
use super::traits::{BitVec, BitVecMut, blocks_for, word_bits, overwrite, lemma_blocks_for_exact};

impl<B: BlockType> BitVec for B {
    type Block = B;

    open spec fn spec_bits(&self) -> Seq<bool> {
        word_bits(self.word(), B::spec_nbits())
    }

    fn bit_len(&self) -> (r: u64) {
        proof {
            B::lemma_width();
        }
        B::nbits() as u64
    }

    fn block_len(&self) -> (r: usize) {
        proof {
            B::lemma_width();
            lemma_blocks_for_exact(1, B::spec_nbits());
        }
        1
    }

    fn get_bit(&self, position: u64) -> (r: bool) {
        proof {
            B::lemma_width();
        }
        require(position < self.bit_len(), "prim::get_bit: out of bounds");
        BlockType::get_bit(*self, position as usize)
    }

    fn get_block(&self, position: usize) -> (r: B) {
        proof {
            B::lemma_width();
            lemma_blocks_for_exact(1, B::spec_nbits());
            B::lemma_word(*self);
            lemma_bits_from_fits(self.word(), B::spec_nbits());
        }
        require(position == 0, "prim::get_block: out of bounds");
        *self
    }

    fn get_bits(&self, start: u64, count: usize) -> (r: B) {
        proof {
            B::lemma_width();
        }
        require(start + count as u64 <= B::nbits() as u64, "prim::get_bits: out of bounds");
        BlockType::get_bits(*self, start as usize, count)
    }
}

impl<B: BlockType> BitVecMut for B {
    fn set_bit(&mut self, position: u64, value: bool) {
        proof {
            B::lemma_width();
        }
        require(position < self.bit_len(), "prim::set_bit: out of bounds");
        *self = self.with_bit(position as usize, value);
        proof {
            assert(self.spec_bits() =~= old(self).spec_bits().update(position as int, value));
        }
    }

    fn set_block(&mut self, position: usize, value: B) {
        proof {
            B::lemma_width();
            lemma_blocks_for_exact(1, B::spec_nbits());
        }
        require(position == 0, "prim::set_block: out of bounds");
        *self = value;
        proof {
            assert(self.spec_bits() =~= overwrite(
                old(self).spec_bits(),
                position * B::spec_nbits(),
                B::spec_nbits() as int,
                value.word(),
            ));
        }
    }

    fn set_bits(&mut self, start: u64, count: usize, value: B) {
        proof {
            B::lemma_width();
        }
        require(start + count as u64 <= B::nbits() as u64, "prim::set_bits: out of bounds");
        *self = self.with_bits(start as usize, count, value);
        proof {
            assert(self.spec_bits() =~= overwrite(
                old(self).spec_bits(),
                start as int,
                count as int,
                value.word(),
            ));
        }
    }
}

} // verus!
