//! A bit buffer reads bits from, or writes bits to, an integer vector at a position.

use vstd::prelude::*;

verus! {

use crate::storage::BlockType;
use crate::bits::{lemma_word_facts, lemma_width_masks, lemma_low_mask_mono};
use crate::bit_vec::traits::{BitVec, BitVecMut, blocks_for, word_bits, overwrite, lemma_bit_in_range};
use crate::int_vec::int_vector::IntVector;
use crate::errors::out_of_bounds;
use super::traits::{BitRead, BitWrite};

/// A bit buffer can be used to read bits from or write bits to an underlying bit vector.
///
/// The position, where the next read or write occurs, never passes the end of the vector.
#[derive(Debug)]
pub struct BitBuffer<Block: BlockType = usize> {
    data: IntVector<Block>,
    pos: u64,
}

/// `bits` with `count` clear bits appended.
pub open spec fn zero_extend(bits: Seq<bool>, count: nat) -> Seq<bool> {
    bits + word_bits(0, count)
}

/// What a write of `value` at `pos` makes of `bits`, whose elements are `width` bits wide:
/// the bit at `pos` is overwritten, and a write at the end first appends a zero element.
pub open spec fn written_at(bits: Seq<bool>, pos: nat, width: nat, value: bool) -> Seq<bool> {
    if pos < bits.len() {
        bits.update(pos as int, value)
    } else {
        zero_extend(bits, width).update(pos as int, value)
    }
}

impl<Block: BlockType> BitBuffer<Block> {
    /// The position is within the vector.
    #[verifier::type_invariant]
    spec fn inv(self) -> bool {
        self.pos <= self.data.spec_bits().len()
    }

    /// The underlying vector.
    pub closed spec fn spec_data(&self) -> IntVector<Block> {
        self.data
    }

    /// The position of the next read or write.
    pub closed spec fn spec_pos(&self) -> nat {
        self.pos as nat
    }

    /// Creates a new, empty bit buffer.
    pub fn new() -> (r: Self)
        ensures
            r.spec_data().spec_width() == 1,
            r.spec_data().values() == Seq::<nat>::empty(),
            r.spec_pos() == 0,
    {
        proof {
            Block::lemma_width();
        }
        Self::with_capacity(0)
    }

    /// Creates a new, empty bit buffer with the given capacity (in bits) preallocated.
    ///
    /// The capacity, rounded up to whole blocks, must fit a `u64`, and its blocks a `usize`.
    pub fn with_capacity(capacity: u64) -> (r: Self)
        requires
            capacity + Block::spec_nbits() - 1 <= u64::MAX,
            blocks_for(capacity as nat, Block::spec_nbits()) <= usize::MAX,
        ensures
            r.spec_data().spec_width() == 1,
            r.spec_data().values() == Seq::<nat>::empty(),
            r.spec_pos() == 0,
    {
        proof {
            Block::lemma_width();
        }
        let data = IntVector::<Block>::with_capacity(1, capacity);
        proof {
            use_type_invariant(&data);
            data.lemma_bit_bounds();
        }
        BitBuffer { data: data, pos: 0 }
    }

    /// Creates a new bit buffer for reading from a bit vector.
    pub fn from(input: IntVector<Block>) -> (r: Self)
        ensures
            r.spec_data() == input,
            r.spec_pos() == 0,
    {
        BitBuffer { data: input, pos: 0 }
    }

    /// Creates a new bit buffer for appending to a bit vector.
    pub fn append(vec: IntVector<Block>) -> (r: Self)
        ensures
            r.spec_data() == vec,
            r.spec_pos() == vec.spec_bits().len(),
    {
        proof {
            use_type_invariant(&vec);
            vec.lemma_bit_bounds();
        }
        let len = vec.bit_len();
        BitBuffer { data: vec, pos: len }
    }

    /// Returns the bit vector underlying the bit buffer.
    pub fn into_inner(self) -> (r: IntVector<Block>)
        ensures
            r == self.spec_data(),
    {
        self.data
    }

    /// Gives access to the bit vector underlying the bit buffer.
    pub fn inner(&self) -> (r: &IntVector<Block>)
        ensures
            *r == self.spec_data(),
    {
        &self.data
    }

    /// The position in the bit buffer where the next read or write will occur.
    pub fn position(&self) -> (r: u64)
        ensures
            r == self.spec_pos(),
            r <= self.spec_data().spec_bits().len(),
    {
        proof {
            use_type_invariant(self);
        }
        self.pos
    }

    /// Moves the position for the next read or write; a position past the end is refused
    /// with an error of kind `NotFound`.
    pub fn seek(&mut self, position: u64) -> (r: Result<(), std::io::Error>)
        ensures
            r is Ok <==> position <= old(self).spec_data().spec_bits().len(),
            final(self).spec_data() == old(self).spec_data(),
            final(self).spec_pos() == if r is Ok {
                position as nat
            } else {
                old(self).spec_pos()
            },
    {
        proof {
            use_type_invariant(&*self);
            use_type_invariant(&self.data);
            self.data.lemma_bit_bounds();
        }
        if position <= self.data.bit_len() {
            self.pos = position;
            Ok(())
        } else {
            out_of_bounds("BitBuffer::seek")
        }
    }
}

impl<Block: BlockType> Clone for BitBuffer<Block> {
    fn clone(&self) -> (r: Self)
        ensures
            r.spec_data().spec_width() == self.spec_data().spec_width(),
            r.spec_data().values() == self.spec_data().values(),
            r.spec_pos() == self.spec_pos(),
    {
        proof {
            use_type_invariant(self);
            use_type_invariant(&self.data);
            self.data.lemma_bit_bounds();
        }
        let data = self.data.clone();
        proof {
            use_type_invariant(&data);
            data.lemma_bit_bounds();
        }
        BitBuffer { data: data, pos: self.pos }
    }
}

/// The buffer's bits are those of its vector.
impl<Block: BlockType> BitVec for BitBuffer<Block> {
    type Block = Block;

    open spec fn spec_bits(&self) -> Seq<bool> {
        self.spec_data().spec_bits()
    }

    fn bit_len(&self) -> (r: u64) {
        self.data.bit_len()
    }

    fn block_len(&self) -> (r: usize) {
        self.data.block_len()
    }

    fn get_block(&self, position: usize) -> (r: Block) {
        self.data.get_block(position)
    }
}

impl<Block: BlockType> BitVecMut for BitBuffer<Block> {
    fn set_block(&mut self, position: usize, value: Block) {
        proof {
            use_type_invariant(&*self);
            use_type_invariant(&self.data);
            self.data.lemma_bit_bounds();
        }
        let pos = self.pos;
        self.pos = 0;
        let mut data = IntVector::<Block>::new(1);
        std::mem::swap(&mut data, &mut self.data);
        data.set_block(position, value);
        self.data = data;
        self.pos = pos;
    }
}

/// Reads take the bits from the position on, one at a time; they never fail.
impl<Block: BlockType> BitRead for BitBuffer<Block> {
    open spec fn spec_unread(&self) -> Seq<bool> {
        self.spec_data().spec_bits().skip(self.spec_pos() as int)
    }

    open spec fn spec_reads_succeed(&self) -> bool {
        true
    }

    fn read_bit(&mut self) -> (r: Result<Option<bool>, std::io::Error>)
        ensures
            final(self).spec_data() == old(self).spec_data(),
    {
        proof {
            use_type_invariant(&*self);
            use_type_invariant(&self.data);
            self.data.lemma_bit_bounds();
        }
        if self.pos < self.data.bit_len() {
            let result = self.data.get_bit(self.pos);
            self.pos = self.pos + 1;
            proof {
                let s = old(self).spec_data().spec_bits();
                assert(s.skip(old(self).spec_pos() as int).drop_first() =~= s.skip(
                    self.spec_pos() as int,
                ));
            }
            Ok(Some(result))
        } else {
            Ok(None)
        }
    }
}

/// Writes overwrite the bit at the position and move past it; a write at the end first
/// grows the vector by a zero element.
///
/// The bits before the position are the ones written. A write at the end fails, with an
/// error of kind `NotFound`, only when the grown vector's bits, plus three blocks, would
/// not fit a `u64`.
impl<Block: BlockType> BitWrite for BitBuffer<Block> {
    open spec fn spec_written(&self) -> Seq<bool> {
        self.spec_data().spec_bits().take(self.spec_pos() as int)
    }

    open spec fn spec_writes_succeed(&self) -> bool {
        false
    }

    fn write_bit(&mut self, value: bool) -> (r: Result<(), std::io::Error>)
        ensures
            r is Err <==> old(self).spec_pos() == old(self).spec_data().spec_bits().len()
                && old(self).spec_data().spec_bits().len() + 3 * Block::spec_nbits() > u64::MAX,
            r is Err ==> *final(self) == *old(self),
            r is Ok ==> {
                &&& final(self).spec_pos() == old(self).spec_pos() + 1
                &&& final(self).spec_data().spec_width() == old(self).spec_data().spec_width()
                &&& final(self).spec_data().spec_bits() == written_at(
                    old(self).spec_data().spec_bits(),
                    old(self).spec_pos(),
                    old(self).spec_data().spec_width(),
                    value,
                )
            },
    {
        proof {
            use_type_invariant(&*self);
            use_type_invariant(&self.data);
            self.data.lemma_bit_bounds();
            Block::lemma_width();
        }
        let ghost before = self.data.spec_bits();
        let pos = self.pos;
        self.pos = 0;
        let mut data = IntVector::<Block>::new(1);
        std::mem::swap(&mut data, &mut self.data);
        let len = data.bit_len();
        let nbits = Block::nbits() as u64;
        if pos >= len {
            if len > u64::MAX - 3 * nbits {
                self.data = data;
                self.pos = pos;
                return out_of_bounds("BitBuffer::write_bit");
            }
            let zero = Block::from_word(0);
            data.push(zero);
            proof {
                use_type_invariant(&data);
                data.lemma_bit_bounds();
                assert(word_bits(zero.word(), data.spec_width()) == word_bits(0, data.spec_width()));
            }
        }
        let ghost grown = data.spec_bits();
        proof {
            lemma_width_masks();
            lemma_low_mask_mono(1, Block::spec_nbits());
        }
        let bit = Block::from_word(if value {
            1
        } else {
            0
        });
        proof {
            lemma_bit_in_range(pos as nat, Block::spec_nbits(), grown.len());
            lemma_word_facts(bit.word(), 0, 0);
            assert(overwrite(grown, pos as int, 1, bit.word()) =~= grown.update(pos as int, value));
        }
        data.set_random(pos, 1, 0, bit);
        self.data = data;
        self.pos = pos + 1;
        proof {
            let s = self.spec_data().spec_bits();
            assert(s.take(self.spec_pos() as int) =~= s.take(pos as int).push(value));
            assert(s.take(pos as int) =~= before.take(pos as int));
        }
        Ok(())
    }
}

} // verus!
