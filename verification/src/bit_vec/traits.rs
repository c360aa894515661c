//! Read-only, mutable and growable bit vector interfaces.

use vstd::prelude::*;

verus! {

use crate::storage::{BlockType, Address};
use crate::bits::{
    bit_of,
    with_bit_word,
    low_mask,
    valid_width,
    lemma_zero_bits,
    lemma_fits_from_bits,
    lemma_or_shift_bits,
    lemma_with_bit_word,
    lemma_low_mask_value,
    lemma_shr_bits,
    lemma_bits_from_fits,
    lemma_word_facts,
};
use crate::internal::require;

/// Bit `i` of a block sequence, `nbits` bits per block, least significant bit first.
pub open spec fn seq_bit<B: BlockType>(s: Seq<B>, i: int) -> bool {
    bit_of(s[i / (B::spec_nbits() as int)].word(), (i % (B::spec_nbits() as int)) as nat)
}

/// All the bits of a block sequence.
pub open spec fn blocks_bits<B: BlockType>(s: Seq<B>) -> Seq<bool> {
    Seq::new(s.len() * B::spec_nbits(), |i: int| seq_bit(s, i))
}

/// `r` holds block `p` of `bits`: its bit `j` is bit `p * nbits + j`, or clear past the end.
pub open spec fn is_block_of<B: BlockType>(bits: Seq<bool>, p: int, r: B) -> bool {
    forall|j: nat|
        #[trigger] bit_of(r.word(), j) == (j < B::spec_nbits() && p * B::spec_nbits() + j
            < bits.len() && bits[p * B::spec_nbits() + j])
}

/// The number of blocks needed for `len` bits.
pub open spec fn blocks_for(len: nat, n: nat) -> nat {
    ((len + n - 1) as nat / n) as nat
}

/// More bits never need fewer blocks.
pub proof fn lemma_blocks_for_mono(a: nat, b: nat, n: nat)
    requires
        n > 0,
        a <= b,
    ensures
        blocks_for(a, n) <= blocks_for(b, n),
{
    vstd::arithmetic::div_mod::lemma_div_is_ordered((a + n - 1) as int, (b + n - 1) as int, n as int);
}

/// `l` blocks are what `b` bits need when they hold more than `l - 1` blocks' worth.
pub proof fn lemma_blocks_for_eq(b: nat, n: nat, l: nat)
    requires
        n > 0,
        l > 0,
        (l - 1) * n < b <= l * n,
    ensures
        blocks_for(b, n) == l,
{
    assert(((b + n - 1) as nat) / n == l) by (nonlinear_arith)
        requires
            n > 0,
            l > 0,
            (l - 1) * n < b <= l * n,
    {
        vstd::arithmetic::div_mod::lemma_fundamental_div_mod_converse(
            (b + n - 1) as int,
            n as int,
            l as int,
            (b + n - 1 - l * n) as int,
        );
    }
}

/// A whole number of blocks needs exactly that many blocks.
pub proof fn lemma_blocks_for_exact(b: nat, n: nat)
    requires
        n > 0,
    ensures
        blocks_for(b * n, n) == b,
{
    assert(((b * n + n - 1) as nat) / n == b) by (nonlinear_arith)
        requires
            n > 0,
    {
        vstd::arithmetic::div_mod::lemma_fundamental_div_mod_converse(
            (b * n + n - 1) as int,
            n as int,
            b as int,
            (n - 1) as int,
        );
    }
}

/// The blocks for `len` bits hold them with less than a block to spare, the spare being
/// the padding to the next block boundary.
pub proof fn lemma_blocks_for_pad(len: nat, n: nat)
    requires
        n > 0,
    ensures
        blocks_for(len, n) * n == len + align_pad(len, n),
        len <= blocks_for(len, n) * n < len + n,
{
    let q = len / n;
    let r = len % n;
    vstd::arithmetic::div_mod::lemma_fundamental_div_mod(len as int, n as int);
    if r == 0 {
        assert(len == q * n) by (nonlinear_arith)
            requires
                len == n * q + r,
                r == 0,
        ;
        lemma_blocks_for_exact(q, n);
    } else {
        assert(q * n < len <= (q + 1) * n) by (nonlinear_arith)
            requires
                len == n * q + r,
                0 < r < n,
        ;
        lemma_blocks_for_eq(len, n, q + 1);
        assert((q + 1) * n == len + (n - r)) by (nonlinear_arith)
            requires
                len == n * q + r,
        ;
    }
}

/// A block that starts before `len` is one of the `blocks_for(len, n)` blocks.
pub proof fn lemma_block_in_range(p: nat, n: nat, len: nat)
    requires
        n > 0,
        p * n < len,
    ensures
        p < blocks_for(len, n),
{
    assert(p < ((len + n - 1) as nat / n)) by (nonlinear_arith)
        requires
            n > 0,
            p * n < len,
    ;
}

/// The vector's length, plus a block, fits a `u64`, and its block count a `usize`.
pub open spec fn size_ok<V: BitVec + ?Sized>(v: &V) -> bool {
    &&& v.spec_bits().len() + V::Block::spec_nbits() <= u64::MAX
    &&& blocks_for(v.spec_bits().len(), V::Block::spec_nbits()) <= usize::MAX
}

/// A bit index before `len` has its block among the `blocks_for(len, n)` blocks.
pub proof fn lemma_bit_in_range(i: nat, n: nat, len: nat)
    requires
        n > 0,
        i < len,
    ensures
        i / n < blocks_for(len, n),
        (i / n) * n <= i,
{
    assert(i / n < ((len + n - 1) as nat / n) && (i / n) * n <= i) by (nonlinear_arith)
        requires
            n > 0,
            i < len,
    ;
}

/// Bit `p * n + j` of a block sequence is bit `j` of block `p`.
pub proof fn lemma_seq_bit_at<B: BlockType>(s: Seq<B>, p: int, j: int)
    requires
        0 <= p,
        0 <= j < B::spec_nbits(),
    ensures
        (p * B::spec_nbits() + j) / (B::spec_nbits() as int) == p,
        (p * B::spec_nbits() + j) % (B::spec_nbits() as int) == j,
        seq_bit(s, p * B::spec_nbits() + j) == bit_of(s[p].word(), j as nat),
{
    B::lemma_width();
    let n = B::spec_nbits() as int;
    vstd::arithmetic::div_mod::lemma_fundamental_div_mod_converse(p * n + j, n, p, j);
}

/// Bit `i` lies in block `p` exactly when `p * n <= i < p * n + n`.
pub proof fn lemma_in_block(i: int, p: int, n: int)
    requires
        0 <= i,
        0 <= p,
        n > 0,
    ensures
        (i / n == p) <==> (p * n <= i < p * n + n),
        i / n == p ==> i % n == i - p * n,
{
    vstd::arithmetic::div_mod::lemma_fundamental_div_mod(i, n);
    if p * n <= i < p * n + n {
        vstd::arithmetic::div_mod::lemma_fundamental_div_mod_converse(i, n, p, i - p * n);
    }
    if i / n == p {
        assert(p * n <= i < p * n + n) by (nonlinear_arith)
            requires
                i == n * (i / n) + i % n,
                0 <= i % n < n,
                i / n == p,
        ;
    }
}

/// `bits` with the `count` bits starting at `start` replaced by the low bits of `w`.
pub open spec fn overwrite(bits: Seq<bool>, start: int, count: int, w: u64) -> Seq<bool> {
    Seq::new(
        bits.len(),
        |i: int|
            if start <= i < start + count {
                bit_of(w, (i - start) as nat)
            } else {
                bits[i]
            },
    )
}

/// Read-only bit vector operations.
///
/// The vector is the sequence `spec_bits()`; its blocks lay the bits out `nbits()` per
/// block, least significant first, with clear bits past the end.
pub trait BitVec {
    /// The underlying block type used to store the bits of the vector.
    type Block: BlockType;

    /// The bits of the vector.
    spec fn spec_bits(&self) -> Seq<bool>;

    /// The length of the vector in bits.
    fn bit_len(&self) -> (r: u64)
        requires
            self.spec_bits().len() + Self::Block::spec_nbits() <= u64::MAX,
            blocks_for(self.spec_bits().len(), Self::Block::spec_nbits()) <= usize::MAX,
        ensures
            r == self.spec_bits().len(),
    ;

    /// The length of the vector in blocks.
    fn block_len(&self) -> (r: usize)
        requires
            self.spec_bits().len() + Self::Block::spec_nbits() <= u64::MAX,
            blocks_for(self.spec_bits().len(), Self::Block::spec_nbits()) <= usize::MAX,
        ensures
            r == blocks_for(self.spec_bits().len(), Self::Block::spec_nbits()),
    {
        proof {
            Self::Block::lemma_width();
        }
        let n = Self::Block::nbits() as u64;
        let r = self.bit_len().ceil_div(n);
        proof {
            assert(r <= usize::MAX);
        }
        r as usize
    }

    /// Gets the bit at `position`.
    fn get_bit(&self, position: u64) -> (r: bool)
        requires
            self.spec_bits().len() + Self::Block::spec_nbits() <= u64::MAX,
            blocks_for(self.spec_bits().len(), Self::Block::spec_nbits()) <= usize::MAX,
            position < self.spec_bits().len(),
        ensures
            r == self.spec_bits()[position as int],
    {
        proof {
            Self::Block::lemma_width();
        }
        require(position < self.bit_len(), "BitVec::get_bit: out of bounds");
        proof {
            lemma_bit_in_range(position as nat, Self::Block::spec_nbits(), self.spec_bits().len());
        }
        let address = Address::new::<Self::Block>(position);
        proof {
            let n = Self::Block::spec_nbits();
            vstd::arithmetic::div_mod::lemma_fundamental_div_mod(position as int, n as int);
            assert(address.block_index * n + address.bit_offset == position) by (nonlinear_arith)
                requires
                    position == n * (position as int / n as int) + (position as int % n as int),
                    address.block_index == position as int / n as int,
                    address.bit_offset == position as int % n as int,
            ;
        }
        let block = self.get_block(address.block_index);
        let r = block.get_bit(address.bit_offset);
        proof {
            assert(bit_of(block.word(), address.bit_offset as nat) == self.spec_bits()[position as int]);
        }
        r
    }

    /// Gets the block at `position`.
    ///
    /// If the length is not a multiple of `nbits()`, the bits of the last block past the end
    /// are clear.
    fn get_block(&self, position: usize) -> (r: Self::Block)
        requires
            self.spec_bits().len() + Self::Block::spec_nbits() <= u64::MAX,
            blocks_for(self.spec_bits().len(), Self::Block::spec_nbits()) <= usize::MAX,
            position < blocks_for(self.spec_bits().len(), Self::Block::spec_nbits()),
        ensures
            is_block_of(self.spec_bits(), position as int, r),
    ;

    /// Gets `count` bits starting at bit index `start`, interpreted as a little-endian
    /// integer.
    fn get_bits(&self, start: u64, count: usize) -> (r: Self::Block)
        requires
            self.spec_bits().len() + Self::Block::spec_nbits() <= u64::MAX,
            blocks_for(self.spec_bits().len(), Self::Block::spec_nbits()) <= usize::MAX,
            start + count <= self.spec_bits().len(),
            count <= Self::Block::spec_nbits(),
            start as nat / Self::Block::spec_nbits() < blocks_for(
                self.spec_bits().len(),
                Self::Block::spec_nbits(),
            ),
        ensures
            forall|j: nat| #[trigger]
                bit_of(r.word(), j) == (j < count && self.spec_bits()[start + j]),
    {
        proof {
            Self::Block::lemma_width();
        }
        require(start + count as u64 <= self.bit_len(), "BitVec::get_bits: out of bounds");
        let address = Address::new::<Self::Block>(start);
        let n = Self::Block::nbits();
        let margin = n - address.bit_offset;
        proof {
            vstd::arithmetic::div_mod::lemma_fundamental_div_mod(start as int, n as int);
            assert(address.block_index * n + address.bit_offset == start) by (nonlinear_arith)
                requires
                    start == n * (start as int / n as int) + (start as int % n as int),
                    address.block_index == start as int / n as int,
                    address.bit_offset == start as int % n as int,
            ;
        }
        if margin >= count {
            let block = self.get_block(address.block_index);
            let r = block.get_bits(address.bit_offset, count);
            proof {
                assert forall|j: nat| #[trigger]
                    bit_of(r.word(), j) == (j < count && self.spec_bits()[start + j]) by {
                    if j < count {
                        assert(bit_of(block.word(), (address.bit_offset + j) as nat) == self.spec_bits()[start
                            + j]);
                    }
                }
            }
            return r;
        }
        let extra = count - margin;
        proof {
            assert((address.block_index + 1) * n == start + margin) by (nonlinear_arith)
                requires
                    address.block_index * n + address.bit_offset == start,
                    margin == n - address.bit_offset,
            ;
            lemma_block_in_range(address.block_index as nat, n as nat, self.spec_bits().len());
            lemma_block_in_range(
                (address.block_index + 1) as nat,
                n as nat,
                self.spec_bits().len(),
            );
        }
        let block1 = self.get_block(address.block_index);
        let block2 = self.get_block(address.block_index + 1);
        let low_bits = block1.get_bits(address.bit_offset, margin);
        let high_bits = block2.get_bits(0, extra);
        let w = (high_bits.to_word() << (margin as u64)) | low_bits.to_word();
        proof {
            let ghost len = self.spec_bits().len();
            assert forall|j: nat| n <= j < 64 implies !#[trigger] bit_of(low_bits.word(), j) by {}
            lemma_fits_from_bits(low_bits.word(), margin as nat);
            lemma_or_shift_bits(high_bits.word(), low_bits.word(), margin as nat);
            assert forall|j: nat| #[trigger]
                bit_of(w, j) == (j < count && self.spec_bits()[start + j]) by {
                if j < 64 {
                    if j < margin {
                        assert(bit_of(block1.word(), (address.bit_offset + j) as nat)
                            == self.spec_bits()[start + j]);
                    } else if j < count {
                        assert(bit_of(block2.word(), (j - margin) as nat) == (
                        self.spec_bits()[start + j]));
                    }
                }
            }
            assert forall|j: nat| n <= j < 64 implies !#[trigger] bit_of(w, j) by {}
            lemma_fits_from_bits(w, n as nat);
        }
        Self::Block::from_word(w)
    }
}

/// Mutable bit vector operations that don't affect the length.
pub trait BitVecMut: BitVec {
    /// Sets the bit at `position` to `value`.
    fn set_bit(&mut self, position: u64, value: bool)
        requires
            old(self).spec_bits().len() + Self::Block::spec_nbits() <= u64::MAX,
            blocks_for(old(self).spec_bits().len(), Self::Block::spec_nbits()) <= usize::MAX,
            position < old(self).spec_bits().len(),
        ensures
            final(self).spec_bits() == old(self).spec_bits().update(position as int, value),
    {
        proof {
            Self::Block::lemma_width();
        }
        require(position < self.bit_len(), "BitVecMut::set_bit: out of bounds");
        proof {
            lemma_bit_in_range(position as nat, Self::Block::spec_nbits(), self.spec_bits().len());
        }
        let address = Address::new::<Self::Block>(position);
        let ghost n = Self::Block::spec_nbits();
        let ghost p = address.block_index as int;
        proof {
            vstd::arithmetic::div_mod::lemma_fundamental_div_mod(position as int, n as int);
            assert(address.block_index * n + address.bit_offset == position) by (nonlinear_arith)
                requires
                    position == n * (position as int / n as int) + (position as int % n as int),
                    address.block_index == position as int / n as int,
                    address.bit_offset == position as int % n as int,
            ;
        }
        let ghost old_bits = self.spec_bits();
        let old_block = self.get_block(address.block_index);
        let new_block = old_block.with_bit(address.bit_offset, value);
        self.set_block(address.block_index, new_block);
        proof {
            assert forall|i: int| 0 <= i < old_bits.len() implies #[trigger] self.spec_bits()[i]
                == old_bits.update(position as int, value)[i] by {
                if p * n <= i < p * n + n {
                    assert(bit_of(new_block.word(), (i - p * n) as nat) == (if i - p * n
                        == address.bit_offset {
                        value
                    } else {
                        bit_of(old_block.word(), (i - p * n) as nat)
                    }));
                }
            }
            assert(self.spec_bits() =~= old_bits.update(position as int, value));
        }
    }

    /// Sets the block at `position` to `value`.
    ///
    /// Bits of `value` that fall past the end of the vector are not stored.
    fn set_block(&mut self, position: usize, value: Self::Block)
        requires
            old(self).spec_bits().len() + Self::Block::spec_nbits() <= u64::MAX,
            blocks_for(old(self).spec_bits().len(), Self::Block::spec_nbits()) <= usize::MAX,
            position < blocks_for(old(self).spec_bits().len(), Self::Block::spec_nbits()),
        ensures
            final(self).spec_bits() == overwrite(
                old(self).spec_bits(),
                position * Self::Block::spec_nbits(),
                Self::Block::spec_nbits() as int,
                value.word(),
            ),
    ;

    /// Sets `count` bits starting at bit index `start` to the low bits of `value`.
    fn set_bits(&mut self, start: u64, count: usize, value: Self::Block)
        requires
            old(self).spec_bits().len() + Self::Block::spec_nbits() <= u64::MAX,
            blocks_for(old(self).spec_bits().len(), Self::Block::spec_nbits()) <= usize::MAX,
            start + count <= old(self).spec_bits().len(),
            count <= Self::Block::spec_nbits(),
            start as nat / Self::Block::spec_nbits() < blocks_for(
                old(self).spec_bits().len(),
                Self::Block::spec_nbits(),
            ),
        ensures
            final(self).spec_bits() == overwrite(
                old(self).spec_bits(),
                start as int,
                count as int,
                value.word(),
            ),
    {
        proof {
            Self::Block::lemma_width();
        }
        require(start + count as u64 <= self.bit_len(), "BitVecMut::set_bits: out of bounds");
        let address = Address::new::<Self::Block>(start);
        let n = Self::Block::nbits();
        let margin = n - address.bit_offset;
        let ghost old_bits = self.spec_bits();
        let ghost len = old_bits.len();
        let ghost p = address.block_index as int;
        proof {
            vstd::arithmetic::div_mod::lemma_fundamental_div_mod(start as int, n as int);
            assert(address.block_index * n + address.bit_offset == start) by (nonlinear_arith)
                requires
                    start == n * (start as int / n as int) + (start as int % n as int),
                    address.block_index == start as int / n as int,
                    address.bit_offset == start as int % n as int,
            ;
        }
        if margin >= count {
            let old_block = self.get_block(address.block_index);
            let new_block = old_block.with_bits(address.bit_offset, count, value);
            self.set_block(address.block_index, new_block);
            proof {
                assert forall|i: int| 0 <= i < len implies #[trigger] self.spec_bits()[i]
                    == overwrite(old_bits, start as int, count as int, value.word())[i] by {
                    if p * n <= i < p * n + n {
                        assert(bit_of(old_block.word(), (i - p * n) as nat) == old_bits[i]);
                    }
                }
                assert(self.spec_bits() =~= overwrite(
                    old_bits,
                    start as int,
                    count as int,
                    value.word(),
                ));
            }
            return ;
        }
        let extra = count - margin;
        proof {
            assert((address.block_index + 1) * n == start + margin) by (nonlinear_arith)
                requires
                    address.block_index * n + address.bit_offset == start,
                    margin == n - address.bit_offset,
            ;
            lemma_block_in_range((address.block_index + 1) as nat, n as nat, len);
        }
        let old_block1 = self.get_block(address.block_index);
        let old_block2 = self.get_block(address.block_index + 1);
        let vw = value.to_word();
        proof {
            Self::Block::lemma_word(value);
            lemma_shr_bits(vw, margin as nat);
            lemma_bits_from_fits(vw, n as nat);
            assert forall|j: nat| n <= j < 64 implies !#[trigger] bit_of(vw >> (margin as u64), j) by {
                assert(!bit_of(vw, (j + margin) as nat));
            }
            lemma_fits_from_bits(vw >> (margin as u64), n as nat);
        }
        let high_bits = Self::Block::from_word(vw >> (margin as u64));
        let new_block1 = old_block1.with_bits(address.bit_offset, margin, value);
        let new_block2 = old_block2.with_bits(0, extra, high_bits);
        self.set_block(address.block_index, new_block1);
        let ghost mid_bits = self.spec_bits();
        self.set_block(address.block_index + 1, new_block2);
        proof {
            assert forall|i: int| 0 <= i < len implies #[trigger] self.spec_bits()[i]
                == overwrite(old_bits, start as int, count as int, value.word())[i] by {
                if p * n <= i < p * n + n {
                    assert(bit_of(old_block1.word(), (i - p * n) as nat) == old_bits[i]);
                } else if (p + 1) * n <= i < (p + 1) * n + n {
                    assert(bit_of(old_block2.word(), (i - (p + 1) * n) as nat) == old_bits[i]);
                    assert((p + 1) * n == p * n + n) by (nonlinear_arith);
                    if i < start + count {
                        assert(bit_of(high_bits.word(), (i - (p + 1) * n) as nat) == bit_of(
                            vw,
                            (i - start) as nat,
                        ));
                    }
                }
            }
            assert(self.spec_bits() =~= overwrite(
                old_bits,
                start as int,
                count as int,
                value.word(),
            ));
        }
    }
}

/// How many bits take a vector of `len` bits to the next block boundary.
pub open spec fn align_pad(len: nat, n: nat) -> nat {
    if len % n == 0 {
        0
    } else {
        (n - len % n) as nat
    }
}

/// The `n` low bits of `w`, least significant first.
pub open spec fn word_bits(w: u64, n: nat) -> Seq<bool> {
    Seq::new(n, |j: int| bit_of(w, j as nat))
}

/// Up to the padding, a length is block-aligned exactly at the padding.
pub proof fn lemma_align_pad(len: nat, n: nat, k: nat)
    requires
        n > 0,
        k <= align_pad(len, n),
    ensures
        ((len + k) % n == 0) == (k == align_pad(len, n)),
        align_pad(len, n) < n,
{
    let q = len / n;
    let r = len % n;
    vstd::arithmetic::div_mod::lemma_fundamental_div_mod(len as int, n as int);
    if r == 0 {
        assert(len + k == len);
    } else {
        if k < n - r {
            vstd::arithmetic::div_mod::lemma_fundamental_div_mod_converse(
                (len + k) as int,
                n as int,
                q as int,
                (r + k) as int,
            );
        } else {
            assert(len + k == (q + 1) * n) by (nonlinear_arith)
                requires
                    len == n * q + r,
                    k == n - r,
            ;
            vstd::arithmetic::div_mod::lemma_fundamental_div_mod_converse(
                (len + k) as int,
                n as int,
                (q + 1) as int,
                0,
            );
        }
    }
}

/// Bit vector operations that change the length.
pub trait BitVecPush: BitVecMut {
    /// Adds the given bit to the end of the bit vector.
    fn push_bit(&mut self, value: bool)
        requires
            old(self).spec_bits().len() + 3 * Self::Block::spec_nbits() <= u64::MAX,
            blocks_for(old(self).spec_bits().len() + 1, Self::Block::spec_nbits()) <= usize::MAX,
        ensures
            final(self).spec_bits() == old(self).spec_bits().push(value),
    ;

    /// Removes and returns the last bit, if any.
    fn pop_bit(&mut self) -> (r: Option<bool>)
        requires
            old(self).spec_bits().len() + Self::Block::spec_nbits() <= u64::MAX,
            blocks_for(old(self).spec_bits().len(), Self::Block::spec_nbits()) <= usize::MAX,
        ensures
            old(self).spec_bits().len() == 0 ==> r == None::<bool> && final(self).spec_bits()
                == old(self).spec_bits(),
            old(self).spec_bits().len() > 0 ==> r == Some(old(self).spec_bits().last())
                && final(self).spec_bits() == old(self).spec_bits().drop_last(),
    ;

    /// Pushes `value` zero or more times until the size of the bit vector is block-aligned.
    fn align_block(&mut self, value: bool)
        requires
            old(self).spec_bits().len() + 4 * Self::Block::spec_nbits() <= u64::MAX,
            blocks_for(
                old(self).spec_bits().len() + Self::Block::spec_nbits(),
                Self::Block::spec_nbits(),
            ) <= usize::MAX,
        ensures
            final(self).spec_bits() == old(self).spec_bits() + Seq::new(
                align_pad(old(self).spec_bits().len(), Self::Block::spec_nbits()),
                |i: int| value,
            ),
    {
        proof {
            Self::Block::lemma_width();
        }
        let ghost n = Self::Block::spec_nbits();
        let ghost old_bits = self.spec_bits();
        let ghost pad = align_pad(old_bits.len(), n);
        proof {
            lemma_align_pad(old_bits.len(), n, 0);
            assert(old_bits + Seq::new(0, |i: int| value) =~= old_bits);
            lemma_blocks_for_mono(old_bits.len(), old_bits.len() + n, n);
        }
        let mut k: usize = 0;
        while Self::Block::mod_nbits(self.bit_len()) != 0
            invariant
                n == Self::Block::spec_nbits(),
                n > 0,
                n <= 64,
                pad == align_pad(old_bits.len(), n),
                pad < n,
                k <= pad,
                old_bits.len() + 4 * n <= u64::MAX,
                blocks_for(old_bits.len() + n, n) <= usize::MAX,
                blocks_for(self.spec_bits().len(), n) <= usize::MAX,
                self.spec_bits() == old_bits + Seq::new(k as nat, |i: int| value),
            decreases pad - k,
        {
            proof {
                lemma_align_pad(old_bits.len(), n, k as nat);
                assert(k < pad);
                lemma_blocks_for_mono((old_bits.len() + k + 1) as nat, old_bits.len() + n, n);
            }
            self.push_bit(value);
            k = k + 1;
            proof {
                assert(self.spec_bits() =~= old_bits + Seq::new(k as nat, |i: int| value));
                lemma_blocks_for_mono(self.spec_bits().len(), old_bits.len() + n, n);
            }
        }
        proof {
            lemma_align_pad(old_bits.len(), n, k as nat);
        }
    }

    /// Pushes the given block onto the end of the bit vector.
    ///
    /// If the end of the bit vector is not currently block-aligned, it pads with 0s up to the
    /// next block before pushing.
    fn push_block(&mut self, value: Self::Block)
        requires
            old(self).spec_bits().len() + 5 * Self::Block::spec_nbits() <= u64::MAX,
            blocks_for(
                old(self).spec_bits().len() + 2 * Self::Block::spec_nbits(),
                Self::Block::spec_nbits(),
            ) <= usize::MAX,
        ensures
            final(self).spec_bits() == old(self).spec_bits() + Seq::new(
                align_pad(old(self).spec_bits().len(), Self::Block::spec_nbits()),
                |i: int| false,
            ) + word_bits(value.word(), Self::Block::spec_nbits()),
    {
        proof {
            Self::Block::lemma_width();
            lemma_blocks_for_mono(
                old(self).spec_bits().len() + Self::Block::spec_nbits(),
                old(self).spec_bits().len() + 2 * Self::Block::spec_nbits(),
                Self::Block::spec_nbits(),
            );
        }
        let ghost n = Self::Block::spec_nbits();
        self.align_block(false);
        let ghost aligned = self.spec_bits();
        proof {
            lemma_align_pad(old(self).spec_bits().len(), n, 0);
            assert(aligned + word_bits(value.word(), 0) =~= aligned);
        }
        let nbits = Self::Block::nbits();
        let mut v = value.to_word();
        proof {
            lemma_word_facts(v, 0, 0);
        }
        let mut i: usize = 0;
        while i < nbits
            invariant
                n == Self::Block::spec_nbits(),
                nbits == n,
                n <= 64,
                i <= n,
                aligned.len() + 4 * n <= u64::MAX,
                aligned.len() <= old(self).spec_bits().len() + n,
                blocks_for(aligned.len() + n, n) <= usize::MAX,
                v == value.word() >> (i as u64),
                self.spec_bits() == aligned + word_bits(value.word(), i as nat),
            decreases n - i,
        {
            proof {
                lemma_blocks_for_mono((aligned.len() + i + 1) as nat, aligned.len() + n, n);
                lemma_shr_bits(value.word(), i as nat);
                lemma_word_facts(v, 0, 0);
                assert(bit_of(v, 0) == bit_of(value.word(), i as nat));
            }
            self.push_bit(v & 1 != 0);
            proof {
                let vv = value.word();
                let ii = i as u64;
                lemma_word_facts(vv, 0, ii);
                assert(self.spec_bits() =~= aligned + word_bits(value.word(), (i + 1) as nat));
            }
            v = v >> 1;
            i = i + 1;
        }
    }
}

/// The blocks of a `Vec` hold its bits: the vector's length is the number of blocks times
/// the block size.
impl<Block: BlockType> BitVec for Vec<Block> {
    type Block = Block;

    open spec fn spec_bits(&self) -> Seq<bool> {
        blocks_bits(self@)
    }

    fn bit_len(&self) -> (r: u64) {
        proof {
            Block::lemma_width();
        }
        self.len() as u64 * Block::nbits() as u64
    }

    fn block_len(&self) -> (r: usize) {
        proof {
            Block::lemma_width();
            lemma_blocks_for_exact(self.len() as nat, Block::spec_nbits());
        }
        self.len()
    }

    fn get_block(&self, position: usize) -> (r: Block) {
        proof {
            Block::lemma_width();
            lemma_blocks_for_exact(self.len() as nat, Block::spec_nbits());
        }
        let r = self[position];
        proof {
            Block::lemma_word(r);
            lemma_bits_from_fits(r.word(), Block::spec_nbits());
            assert forall|j: nat| #[trigger]
                bit_of(r.word(), j) == (j < Block::spec_nbits() && position * Block::spec_nbits()
                    + j < self.spec_bits().len() && self.spec_bits()[position * Block::spec_nbits()
                    + j]) by {
                if j < Block::spec_nbits() {
                    lemma_seq_bit_at(self@, position as int, j as int);
                    assert(position * Block::spec_nbits() + j < self.len() * Block::spec_nbits())
                        by (nonlinear_arith)
                        requires
                            position < self.len(),
                            j < Block::spec_nbits(),
                    ;
                }
            }
        }
        r
    }
}

/// The blocks of a slice hold its bits, as for a `Vec`.
impl<Block: BlockType> BitVec for [Block] {
    type Block = Block;

    open spec fn spec_bits(&self) -> Seq<bool> {
        blocks_bits(self@)
    }

    fn bit_len(&self) -> (r: u64) {
        proof {
            Block::lemma_width();
        }
        self.len() as u64 * Block::nbits() as u64
    }

    fn block_len(&self) -> (r: usize) {
        proof {
            Block::lemma_width();
            lemma_blocks_for_exact(self.len() as nat, Block::spec_nbits());
        }
        self.len()
    }

    fn get_block(&self, position: usize) -> (r: Block) {
        proof {
            Block::lemma_width();
            lemma_blocks_for_exact(self.len() as nat, Block::spec_nbits());
        }
        let r = self[position];
        proof {
            Block::lemma_word(r);
            lemma_bits_from_fits(r.word(), Block::spec_nbits());
            assert forall|j: nat| #[trigger]
                bit_of(r.word(), j) == (j < Block::spec_nbits() && position * Block::spec_nbits()
                    + j < self.spec_bits().len() && self.spec_bits()[position * Block::spec_nbits()
                    + j]) by {
                if j < Block::spec_nbits() {
                    lemma_seq_bit_at(self@, position as int, j as int);
                    assert(position * Block::spec_nbits() + j < self.len() * Block::spec_nbits())
                        by (nonlinear_arith)
                        requires
                            position < self.len(),
                            j < Block::spec_nbits(),
                    ;
                }
            }
        }
        r
    }
}

/// A borrowed slice holds the bits of its blocks.
impl<'a, Block: BlockType> BitVec for &'a [Block] {
    type Block = Block;

    open spec fn spec_bits(&self) -> Seq<bool> {
        blocks_bits(self@)
    }

    fn bit_len(&self) -> (r: u64) {
        proof {
            Block::lemma_width();
        }
        self.len() as u64 * Block::nbits() as u64
    }

    fn block_len(&self) -> (r: usize) {
        proof {
            Block::lemma_width();
            lemma_blocks_for_exact(self.len() as nat, Block::spec_nbits());
        }
        self.len()
    }

    fn get_block(&self, position: usize) -> (r: Block) {
        proof {
            Block::lemma_width();
            lemma_blocks_for_exact(self.len() as nat, Block::spec_nbits());
        }
        let r = self[position];
        proof {
            Block::lemma_word(r);
            lemma_bits_from_fits(r.word(), Block::spec_nbits());
            assert forall|j: nat| #[trigger]
                bit_of(r.word(), j) == (j < Block::spec_nbits() && position * Block::spec_nbits()
                    + j < self.spec_bits().len() && self.spec_bits()[position * Block::spec_nbits()
                    + j]) by {
                if j < Block::spec_nbits() {
                    lemma_seq_bit_at(self@, position as int, j as int);
                    assert(position * Block::spec_nbits() + j < self.len() * Block::spec_nbits())
                        by (nonlinear_arith)
                        requires
                            position < self.len(),
                            j < Block::spec_nbits(),
                    ;
                }
            }
        }
        r
    }
}

impl<Block: BlockType> BitVecMut for Vec<Block> {
    fn set_block(&mut self, position: usize, value: Block) {
        proof {
            Block::lemma_width();
            lemma_blocks_for_exact(old(self).len() as nat, Block::spec_nbits());
        }
        let ghost old_bits = self.spec_bits();
        self.set(position, value);
        proof {
            let n = Block::spec_nbits() as int;
            assert forall|i: int| 0 <= i < old_bits.len() implies #[trigger] self.spec_bits()[i]
                == overwrite(old_bits, position * n, n, value.word())[i] by {
                lemma_in_block(i, position as int, n);
                vstd::arithmetic::div_mod::lemma_fundamental_div_mod(i, n);
            }
            assert(self.spec_bits() =~= overwrite(old_bits, position * n, n, value.word()));
        }
    }
}


impl<Block: BlockType> BitVecMut for [Block] {
    fn set_block(&mut self, position: usize, value: Block) {
        proof {
            Block::lemma_width();
            lemma_blocks_for_exact(old(self).len() as nat, Block::spec_nbits());
        }
        let ghost old_bits = self.spec_bits();
        self[position] = value;
        proof {
            let n = Block::spec_nbits() as int;
            assert forall|i: int| 0 <= i < old_bits.len() implies #[trigger] self.spec_bits()[i]
                == overwrite(old_bits, position * n, n, value.word())[i] by {
                lemma_in_block(i, position as int, n);
                vstd::arithmetic::div_mod::lemma_fundamental_div_mod(i, n);
            }
            assert(self.spec_bits() =~= overwrite(old_bits, position * n, n, value.word()));
        }
    }
}

/// A `Vec<bool>` holds one bit per element; its blocks are bytes.
impl BitVec for Vec<bool> {
    type Block = u8;

    open spec fn spec_bits(&self) -> Seq<bool> {
        self@
    }

    fn bit_len(&self) -> (r: u64) {
        self.len() as u64
    }

    fn get_bit(&self, position: u64) -> (r: bool) {
        proof {
            assert(self@.len() == self.len());
        }
        self[position as usize]
    }

    /// Assembles the block bit by bit.
    fn get_block(&self, position: usize) -> (r: u8)
    {
        proof {
            Self::Block::lemma_width();
        }
        require(position < self.block_len(), "Vec<bool>::get_block: out of bounds");
        let n = Self::Block::nbits();
        let ghost len = self.spec_bits().len();
        proof {
            assert(position * n < len + n) by (nonlinear_arith)
                requires
                    position < blocks_for(len, n as nat),
                    n > 0,
            ;
        }
        let bit_position = position as u64 * n as u64;
        let len = self.bit_len();
        let mut result: u64 = 0;
        let mut i: usize = 0;
        proof {
            lemma_zero_bits();
            assert(blocks_for(len as nat, n as nat) <= usize::MAX);
        }
        while i < n
            invariant
                i <= n,
                n == Self::Block::spec_nbits(),
                valid_width(n as nat),
                len == self.spec_bits().len(),
                blocks_for(len as nat, n as nat) <= usize::MAX,
                bit_position == position * n,
                bit_position + n <= u64::MAX,
                len + n <= u64::MAX,
                forall|j: nat| #[trigger]
                    bit_of(result, j) == (j < i && bit_position + j < len && self.spec_bits()[
                        bit_position + j]),
            decreases n - i,
        {
            if bit_position + (i as u64) < len && self.get_bit(bit_position + i as u64) {
                let ghost prev = result;
                proof {
                    lemma_with_bit_word(result, i as nat, true);
                }
                result = result | (1u64 << (i as u64));
                proof {
                    assert(result == with_bit_word(prev, i as nat, true));
                }
            }
            i = i + 1;
        }
        proof {
            lemma_fits_from_bits(result, n as nat);
        }
        Self::Block::from_word(result)
    }
}

impl BitVecMut for Vec<bool> {
    fn set_bit(&mut self, position: u64, value: bool) {
        proof {
            assert(self@.len() == self.len());
        }
        self.set(position as usize, value);
    }

    /// Sets the bits of the block in turn, those past the end excepted.
    fn set_block(&mut self, position: usize, value: u8) {
        proof {
            u8::lemma_width();
        }
        let n = u8::nbits();
        let ghost len = self@.len();
        let ghost old_bits = self@;
        proof {
            assert(position * 8 < len) by (nonlinear_arith)
                requires
                    position < blocks_for(len, 8),
            ;
        }
        let limit = if position + 1 == self.block_len() {
            u8::last_block_bits(self.bit_len())
        } else {
            n
        };
        let start = u8::mul_nbits(position);
        proof {
            vstd::arithmetic::div_mod::lemma_fundamental_div_mod(len as int, 8);
            if position + 1 == blocks_for(len, 8) {
                lemma_blocks_for_pad(len, 8);
                assert(start + limit == len);
            } else {
                lemma_block_in_range((position + 1) as nat, 8, len);
                assert(start + 8 <= len) by (nonlinear_arith)
                    requires
                        start == position * 8,
                        position + 1 < blocks_for(len, 8),
                        blocks_for(len, 8) * 8 < len + 8,
                {
                    lemma_blocks_for_pad(len, 8);
                }
            }
        }
        let mut v: u64 = value.to_word();
        let mut i: usize = 0;
        proof {
            lemma_word_facts(v, 0, 0);
        }
        while i < limit
            invariant
                limit <= 8,
                start == position * 8,
                start + limit <= len,
                len == self@.len(),
                len == old_bits.len(),
                len + 8 <= u64::MAX,
                blocks_for(len, 8) <= usize::MAX,
                i <= limit,
                v == value.word() >> (i as u64),
                limit < 8 ==> start + limit == len,
                forall|k: int|
                    0 <= k < len ==> #[trigger] self@[k] == if start <= k < start + i {
                        bit_of(value.word(), (k - start) as nat)
                    } else {
                        old_bits[k]
                    },
            decreases limit - i,
        {
            proof {
                lemma_shr_bits(value.word(), i as nat);
                lemma_word_facts(v, 0, 0);
                assert(bit_of(v, 0) == bit_of(value.word(), i as nat));
            }
            self.set_bit(start + i as u64, v & 1 != 0);
            proof {
                let vv = value.word();
                let ii = i as u64;
                lemma_word_facts(vv, 0, ii);
            }
            v = v >> 1;
            i = i + 1;
        }
        proof {
            assert(self@ =~= overwrite(old_bits, position * 8, 8, value.word()));
        }
    }
}

impl BitVecPush for Vec<bool> {
    fn push_bit(&mut self, value: bool) {
        self.push(value);
    }

    fn pop_bit(&mut self) -> (r: Option<bool>) {
        self.pop()
    }
}

} // verus!
