//! Basic functionality shared by `IntVector` and `BitVector`.
//!
//! A `VectorBase` does not know its element size, but given the element size it maintains
//! two invariants: every block is in use storing elements, and every bit not in use is zero.
//! Most methods take `element_bits` as a parameter; the creating methods check it for
//! overflow, and the others need it to be the one the vector was created with.

use vstd::prelude::*;

verus! {

use crate::space_usage::SpaceUsage;
use crate::storage::BlockType;
use crate::bits::{bit_of, low_mask, lemma_bits_from_fits, lemma_fits_from_bits, lemma_zero_bits};
use crate::bit_vec::traits::{
    BitVec,
    BitVecMut,
    blocks_bits,
    blocks_for,
    overwrite,
    seq_bit,
    lemma_seq_bit_at,
    lemma_in_block,
    lemma_blocks_for_exact,
    lemma_blocks_for_mono,
    lemma_bit_in_range,
    lemma_blocks_for_eq,
};
use crate::internal::{require, vec_capacity, vec_reserve_exact, vec_shrink_to_fit};

/// The blocks that `len` elements of `element_bits` bits need, or `None` where the bit
/// count overflows a `u64` or the block count a `usize`.
pub open spec fn spec_len_to_block_len(element_bits: nat, len: nat, n: nat) -> Option<usize> {
    if len * element_bits > u64::MAX {
        None
    } else if blocks_for(len * element_bits, n) > usize::MAX {
        None
    } else {
        Some(blocks_for(len * element_bits, n) as usize)
    }
}

/// The elements of `element_bits` bits that `c` blocks of `n` bits hold, counting the
/// bits modulo `2^64`.
pub open spec fn capacity_in_elements(c: nat, n: nat, element_bits: nat) -> nat {
    ((c * n) % 0x1_0000_0000_0000_0000) / element_bits
}

/// The blocks missing from a capacity of `c` blocks to reach `need` blocks.
pub open spec fn blocks_short(need: nat, c: nat) -> nat {
    if need > c {
        (need - c) as nat
    } else {
        0
    }
}

/// The last block of `b > 0` bits holds the bits past the previous blocks: `b % n`, or a full
/// block when `n` divides `b`.
pub proof fn lemma_last_block(b: nat, n: nat)
    requires
        n > 0,
        b > 0,
    ensures
        blocks_for(b, n) > 0,
        (blocks_for(b, n) - 1) * n < b <= blocks_for(b, n) * n,
        (if b % n == 0 {
            n
        } else {
            b % n
        }) == b - (blocks_for(b, n) - 1) * n,
{
    let q = b / n;
    let r = b % n;
    vstd::arithmetic::div_mod::lemma_fundamental_div_mod(b as int, n as int);
    if r == 0 {
        vstd::arithmetic::div_mod::lemma_fundamental_div_mod_converse(
            (b + n - 1) as int,
            n as int,
            q as int,
            (n - 1) as int,
        );
        assert(q > 0) by (nonlinear_arith)
            requires
                b == n * q,
                b > 0,
        ;
        assert((q - 1) * n < b <= q * n && b - (q - 1) * n == n) by (nonlinear_arith)
            requires
                b == n * q,
                q > 0,
                n > 0,
        ;
    } else {
        assert(b + n - 1 == (q + 1) * n + (r - 1)) by (nonlinear_arith)
            requires
                b == n * q + r,
        ;
        vstd::arithmetic::div_mod::lemma_fundamental_div_mod_converse(
            (b + n - 1) as int,
            n as int,
            (q + 1) as int,
            (r - 1) as int,
        );
        assert(q * n < b <= (q + 1) * n && b - q * n == r) by (nonlinear_arith)
            requires
                b == n * q + r,
                0 < r < n,
        ;
    }
}

/// Adding `k <= n` bits to `b` bits needs one more block exactly when they overflow the
/// blocks that `b` bits need.
pub proof fn lemma_grow_blocks(b: nat, k: nat, n: nat)
    requires
        0 < k <= n,
    ensures
        b <= blocks_for(b, n) * n,
        b + k > blocks_for(b, n) * n ==> blocks_for(b + k, n) == blocks_for(b, n) + 1,
        b + k <= blocks_for(b, n) * n ==> blocks_for(b + k, n) == blocks_for(b, n),
{
    let l = blocks_for(b, n);
    if b == 0 {
        lemma_blocks_for_exact(0, n);
        assert(l * n == 0);
        assert((1 - 1) * n == 0 && 1 * n == n) by (nonlinear_arith);
        lemma_blocks_for_eq(k, n, 1);
    } else {
        lemma_last_block(b, n);
        if b + k > l * n {
            assert(b + k <= (l + 1) * n) by (nonlinear_arith)
                requires
                    b <= l * n,
                    k <= n,
            ;
            assert(((l + 1) - 1) * n < b + k);
            lemma_blocks_for_eq(b + k, n, l + 1);
        } else {
            lemma_blocks_for_eq(b + k, n, l);
        }
    }
}

/// With elements no wider than a block, the elements that fill `bl` blocks need exactly
/// those blocks.
pub proof fn lemma_fill_blocks(bl: nat, n: nat, element_bits: nat)
    requires
        0 < element_bits <= n,
    ensures
        ((bl * n) / element_bits) * element_bits <= bl * n,
        blocks_for(((bl * n) / element_bits) * element_bits, n) == bl,
{
    let len = (bl * n) / element_bits;
    vstd::arithmetic::div_mod::lemma_fundamental_div_mod((bl * n) as int, element_bits as int);
    assert(len * element_bits <= bl * n && len * element_bits + element_bits > bl * n)
        by (nonlinear_arith)
        requires
            bl * n == element_bits * len + (bl * n) as int % (element_bits as int),
            0 <= (bl * n) as int % (element_bits as int) < element_bits,
    ;
    if bl == 0 {
        assert(len * element_bits == 0);
        lemma_blocks_for_exact(0, n);
    } else {
        let b = len * element_bits;
        assert(b > 0) by (nonlinear_arith)
            requires
                b + element_bits > bl * n,
                element_bits <= n,
                bl > 0,
        ;
        lemma_last_block(b, n);
        let l = blocks_for(b, n);
        assert(l == bl) by (nonlinear_arith)
            requires
                (l - 1) * n < b,
                b <= l * n,
                b <= bl * n,
                b + n > bl * n,
                n > 0,
        ;
    }
}

/// The number of blocks that `len` elements of `element_bits` bits need, or `None` where
/// that overflows.
fn len_to_block_len<Block: BlockType>(element_bits: usize, len: u64) -> (r: Option<usize>)
    requires
        0 < element_bits,
        len * element_bits > u64::MAX || len * element_bits + Block::spec_nbits() - 1 <= u64::MAX,
    ensures
        r == spec_len_to_block_len(element_bits as nat, len as nat, Block::spec_nbits()),
{
    match len.checked_mul(element_bits as u64) {
        Some(bits) => Block::checked_ceil_div_nbits(bits),
        None => None,
    }
}

/// A `Vec` of blocks has the bits of its blocks, and equal bit counts mean equal lengths.
pub proof fn lemma_vec_bits<Block: BlockType>(v: Vec<Block>, w: Vec<Block>)
    ensures
        v.spec_bits() == blocks_bits(v@),
        v.spec_bits().len() == w.spec_bits().len() ==> v@.len() == w@.len(),
{
    Block::lemma_width();
    if v.spec_bits().len() == w.spec_bits().len() {
        let n = Block::spec_nbits();
        assert(v@.len() == w@.len()) by (nonlinear_arith)
            requires
                v@.len() * n == w@.len() * n,
                n > 0,
        ;
    }
}

/// The blocks of a vector are counted by a `usize`.
pub proof fn lemma_block_count_fits<Block: BlockType>(v: &VectorBase<Block>)
    ensures
        v.blocks().len() <= usize::MAX,
{
    assert(v.vec@.len() == v.vec.len());
}

/// `pop_bits` undoes `push_bits`: pushing `value` onto `a` gives `b`, and popping from `b`
/// gives `c` and `r`; then `c` holds the bits and the length of `a`, and `r` the low
/// `element_bits` bits of `value`.
pub proof fn lemma_pop_bits_undoes_push_bits<Block: BlockType>(
    a: VectorBase<Block>,
    value: Block,
    b: VectorBase<Block>,
    c: VectorBase<Block>,
    r: Option<Block>,
    element_bits: nat,
)
    requires
        a.wf(element_bits),
        b.wf(element_bits),
        b.spec_len() == a.spec_len() + 1,
        forall|i: int|
            0 <= i < b.bits().len() ==> #[trigger] b.bits()[i] == if a.bit_count(element_bits) <= i
                < a.bit_count(element_bits) + element_bits {
                bit_of(value.word(), (i - a.bit_count(element_bits)) as nat)
            } else {
                i < a.bits().len() && a.bits()[i]
            },
        c.wf(element_bits),
        r is Some,
        c.spec_len() == b.spec_len() - 1,
        forall|j: nat| #[trigger]
            bit_of(r->0.word(), j) == (j < element_bits && b.bits()[(b.spec_len() - 1) * element_bits
                + j]),
        forall|i: int|
            0 <= i < c.bits().len() ==> #[trigger] c.bits()[i] == (i < c.bit_count(element_bits)
                && b.bits()[i]),
    ensures
        c.spec_len() == a.spec_len(),
        c.bits() == a.bits(),
        forall|j: nat| #[trigger] bit_of(r->0.word(), j) == (j < element_bits && bit_of(value.word(), j)),
{
    let eb = element_bits;
    let len = a.spec_len();
    lemma_last_block_bound(&a, eb);
    lemma_last_block_bound(&b, eb);
    assert(b.bit_count(eb) == len * eb + eb) by (nonlinear_arith)
        requires
            b.spec_len() == len + 1,
            b.bit_count(eb) == b.spec_len() * eb,
    ;
    assert(c.bits().len() == a.bits().len());
    assert forall|i: int| 0 <= i < c.bits().len() implies #[trigger] c.bits()[i] == a.bits()[i] by {
        if i < c.bit_count(eb) {
            assert(i < b.bits().len());
        }
    }
    assert(c.bits() =~= a.bits());
    assert forall|j: nat| #[trigger] bit_of(r->0.word(), j) == (j < eb && bit_of(value.word(), j)) by {
        if j < eb {
            assert(b.bits()[(len * eb + j) as int] == bit_of(value.word(), j));
        }
    }
}

/// In a well-formed vector, the bits in use end within the last block.
pub proof fn lemma_last_block_bound<Block: BlockType>(v: &VectorBase<Block>, element_bits: nat)
    requires
        v.wf(element_bits),
    ensures
        v.bit_count(element_bits) <= v.blocks().len() * Block::spec_nbits(),
        v.bit_count(element_bits) <= v.bits().len(),
{
    Block::lemma_width();
    if v.bit_count(element_bits) > 0 {
        lemma_last_block(v.bit_count(element_bits), Block::spec_nbits());
    }
}

/// Resizes `vec` to `len` blocks, filling new blocks with `fill`.
fn resize_blocks<Block: BlockType>(vec: &mut Vec<Block>, len: usize, fill: Block)
    ensures
        final(vec)@.len() == len,
        forall|i: int|
            0 <= i < len ==> #[trigger] final(vec)@[i] == if i < old(vec)@.len() {
                old(vec)@[i]
            } else {
                fill
            },
{
    if len <= vec.len() {
        vec.truncate(len);
    } else {
        while vec.len() < len
            invariant
                old(vec)@.len() <= vec@.len() <= len,
                forall|i: int|
                    0 <= i < vec@.len() ==> #[trigger] vec@[i] == if i < old(vec)@.len() {
                        old(vec)@[i]
                    } else {
                        fill
                    },
            decreases len - vec@.len(),
        {
            vec.push(fill);
        }
    }
}

/// Bit `i` of resized blocks: that of the old blocks below their end, of `fill` above.
proof fn lemma_resized_bits<Block: BlockType>(old_blocks: Seq<Block>, new_blocks: Seq<Block>, fill: Block)
    requires
        forall|k: int|
            0 <= k < new_blocks.len() ==> #[trigger] new_blocks[k] == if k < old_blocks.len() {
                old_blocks[k]
            } else {
                fill
            },
    ensures
        forall|i: int|
            0 <= i < blocks_bits(new_blocks).len() ==> #[trigger] blocks_bits(new_blocks)[i] == if i
                < blocks_bits(old_blocks).len() {
                blocks_bits(old_blocks)[i]
            } else {
                bit_of(fill.word(), (i % Block::spec_nbits() as int) as nat)
            },
{
    Block::lemma_width();
    let n = Block::spec_nbits() as int;
    assert forall|i: int| 0 <= i < blocks_bits(new_blocks).len() implies #[trigger] blocks_bits(
        new_blocks,
    )[i] == if i < blocks_bits(old_blocks).len() {
        blocks_bits(old_blocks)[i]
    } else {
        bit_of(fill.word(), (i % n) as nat)
    } by {
        vstd::arithmetic::div_mod::lemma_fundamental_div_mod(i, n);
        let p = i / n;
        lemma_seq_bit_at(new_blocks, p, i % n);
        lemma_seq_bit_at(old_blocks, p, i % n);
        assert(p < new_blocks.len()) by (nonlinear_arith)
            requires
                i == n * p + i % n,
                0 <= i % n,
                i < new_blocks.len() * n,
                n > 0,
        ;
        if i < old_blocks.len() * n {
            assert(p < old_blocks.len()) by (nonlinear_arith)
                requires
                    i == n * p + i % n,
                    0 <= i % n,
                    i < old_blocks.len() * n,
                    n > 0,
            ;
        } else {
            assert(p >= old_blocks.len()) by (nonlinear_arith)
                requires
                    i == n * p + i % n,
                    i % n < n,
                    i >= old_blocks.len() * n,
                    n > 0,
            ;
        }
    }
}

/// Storage for a vector of fixed-size elements, packed into blocks.
#[derive(Debug, PartialEq, Eq, PartialOrd, Ord, Hash)]
pub struct VectorBase<Block> {
    len: u64,
    vec: Vec<Block>,
}

impl<Block: BlockType> Clone for VectorBase<Block> {
    /// A copy with the same length and the same blocks.
    fn clone(&self) -> (r: Self)
        ensures
            r.spec_len() == self.spec_len(),
            r.blocks() == self.blocks(),
    {
        let mut vec: Vec<Block> = Vec::new();
        let mut i: usize = 0;
        while i < self.vec.len()
            invariant
                i <= self.vec.len(),
                vec@ == self.vec@.take(i as int),
            decreases self.vec.len() - i,
        {
            vec.push(self.vec[i]);
            i = i + 1;
            proof {
                assert(vec@ =~= self.vec@.take(i as int));
            }
        }
        proof {
            assert(vec@ =~= self.vec@);
        }
        VectorBase { len: self.len, vec }
    }
}

impl<Block: BlockType> VectorBase<Block> {
    /// The number of elements.
    pub closed spec fn spec_len(&self) -> nat {
        self.len as nat
    }

    /// The blocks of storage.
    pub closed spec fn blocks(&self) -> Seq<Block> {
        self.vec@
    }

    /// All the bits of storage, in use or not.
    pub open spec fn bits(&self) -> Seq<bool> {
        blocks_bits(self.blocks())
    }

    /// The invariant, given the element size: exactly the blocks that the elements need,
    /// storage that fits a `u64` bit count with a block to spare, and clear unused bits.
    pub open spec fn wf(&self, element_bits: nat) -> bool {
        &&& 0 < element_bits <= Block::spec_nbits()
        &&& self.blocks().len() == blocks_for(self.spec_len() * element_bits, Block::spec_nbits())
        &&& self.blocks().len() * Block::spec_nbits() + Block::spec_nbits() <= u64::MAX
        &&& forall|i: int|
            self.spec_len() * element_bits <= i < self.bits().len() ==> !#[trigger] self.bits()[i]
    }

    /// The number of bits in use.
    pub open spec fn bit_count(&self, element_bits: nat) -> nat {
        self.spec_len() * element_bits
    }

    // Maintains the second invariant: extra bits are zero.
    fn clear_extra_bits(&mut self, element_bits: usize)
        requires
            0 < element_bits <= Block::spec_nbits(),
            old(self).bit_count(element_bits as nat) <= u64::MAX,
            old(self).blocks().len() == blocks_for(
                old(self).bit_count(element_bits as nat),
                Block::spec_nbits(),
            ),
        ensures
            final(self).spec_len() == old(self).spec_len(),
            final(self).blocks().len() == old(self).blocks().len(),
            forall|i: int|
                0 <= i < final(self).bits().len() ==> #[trigger] final(self).bits()[i] == (i
                    < old(self).bit_count(element_bits as nat) && old(self).bits()[i]),
    {
        proof {
            Block::lemma_width();
        }
        let bit_len = self.len * element_bits as u64;
        let l = self.vec.len();
        if l > 0 {
            let ghost n = Block::spec_nbits() as int;
            let ghost old_vec = self.vec@;
            proof {
                if bit_len == 0 {
                    lemma_blocks_for_exact(0, n as nat);
                }
                lemma_last_block(bit_len as nat, n as nat);
            }
            let k = Block::last_block_bits(bit_len);
            let block = self.vec[l - 1];
            let masked = block.get_bits(0, k);
            self.vec.set(l - 1, masked);
            proof {
                assert forall|i: int| 0 <= i < self.bits().len() implies #[trigger] self.bits()[i]
                    == (i < bit_len && old(self).bits()[i]) by {
                    vstd::arithmetic::div_mod::lemma_fundamental_div_mod(i, n);
                    let p = i / n;
                    let j = i % n;
                    lemma_seq_bit_at(self.vec@, p, j);
                    lemma_seq_bit_at(old_vec, p, j);
                    if p == l - 1 {
                        assert(bit_of(masked.word(), j as nat) == (j < k && bit_of(
                            block.word(),
                            j as nat,
                        )));
                        assert((i < bit_len) == (j < k)) by (nonlinear_arith)
                            requires
                                i == n * p + j,
                                p == l - 1,
                                k == bit_len - (l - 1) * n,
                        ;
                    } else {
                        assert(p < l) by (nonlinear_arith)
                            requires
                                i == n * p + j,
                                0 <= j < n,
                                i < l * n,
                        ;
                        assert(p < l - 1);
                        let lm = l - 1;
                        assert((p + 1) * n <= lm * n) by (nonlinear_arith)
                            requires
                                p + 1 <= lm,
                                n > 0,
                        ;
                        assert(i < (p + 1) * n) by (nonlinear_arith)
                            requires
                                i == n * p + j,
                                j < n,
                        ;
                        assert(lm * n < bit_len);
                    }
                }
            }
        }
    }

    // Sets the length based on the number of blocks in the underlying Vec.
    fn set_len_from_blocks(&mut self, element_bits: usize)
        requires
            0 < element_bits <= Block::spec_nbits(),
            old(self).blocks().len() * Block::spec_nbits() + Block::spec_nbits() <= u64::MAX,
        ensures
            final(self).spec_len() == (old(self).blocks().len() * Block::spec_nbits())
                / element_bits as nat,
            final(self).blocks().len() == old(self).blocks().len(),
            final(self).wf(element_bits as nat),
            forall|i: int|
                0 <= i < final(self).bits().len() ==> #[trigger] final(self).bits()[i] == (i
                    < final(self).bit_count(element_bits as nat) && old(self).bits()[i]),
    {
        proof {
            Block::lemma_width();
            lemma_fill_blocks(self.vec.len() as nat, Block::spec_nbits(), element_bits as nat);
        }
        self.len = Block::mul_nbits(self.vec.len()) / element_bits as u64;
        self.clear_extra_bits(element_bits);
    }

    /// Creates an empty vector.
    pub fn new() -> (r: Self)
        ensures
            r.spec_len() == 0,
            r.blocks().len() == 0,
            forall|eb: nat| 0 < eb <= Block::spec_nbits() ==> #[trigger] r.wf(eb),
    {
        Self::block_with_capacity(0)
    }

    /// Creates an empty vector with room for `block_capacity` blocks.
    pub fn block_with_capacity(block_capacity: usize) -> (r: Self)
        ensures
            r.spec_len() == 0,
            r.blocks().len() == 0,
            forall|eb: nat| 0 < eb <= Block::spec_nbits() ==> #[trigger] r.wf(eb),
    {
        proof {
            Block::lemma_width();
            lemma_blocks_for_exact(0, Block::spec_nbits());
        }
        VectorBase { len: 0, vec: Vec::with_capacity(block_capacity) }
    }

    /// Creates an empty vector with room for `capacity` elements.
    ///
    /// The number of bits, `capacity * element_bits`, must not overflow a `u64` (nor does
    /// its rounding up to whole blocks), and the number of blocks must fit a `usize`.
    pub fn with_capacity(element_bits: usize, capacity: u64) -> (r: Self)
        requires
            0 < element_bits <= Block::spec_nbits(),
            capacity * element_bits + Block::spec_nbits() - 1 <= u64::MAX,
            blocks_for((capacity * element_bits) as nat, Block::spec_nbits()) <= usize::MAX,
        ensures
            r.spec_len() == 0,
            r.blocks().len() == 0,
            forall|eb: nat| 0 < eb <= Block::spec_nbits() ==> #[trigger] r.wf(eb),
    {
        let block_len = len_to_block_len::<Block>(element_bits, capacity).expect(
            "VectorBase::with_capacity: overflow",
        );
        Self::block_with_capacity(block_len)
    }

    /// Creates a vector of `block_len` blocks holding `fill`, and as many elements as fit.
    ///
    /// The bits of the last block past the last whole element are cleared.
    pub fn block_with_fill(element_bits: usize, block_len: usize, fill: Block) -> (r: Self)
        requires
            0 < element_bits <= Block::spec_nbits(),
            block_len * Block::spec_nbits() + Block::spec_nbits() <= u64::MAX,
        ensures
            r.wf(element_bits as nat),
            r.spec_len() == (block_len * Block::spec_nbits()) as nat / element_bits as nat,
            r.blocks().len() == block_len,
            forall|i: int|
                0 <= i < r.bits().len() ==> #[trigger] r.bits()[i] == (i < r.bit_count(
                    element_bits as nat,
                ) && bit_of(fill.word(), (i % Block::spec_nbits() as int) as nat)),
    {
        let mut vec: Vec<Block> = Vec::with_capacity(block_len);
        let mut k: usize = 0;
        while k < block_len
            invariant
                k <= block_len,
                vec@.len() == k,
                forall|m: int| 0 <= m < k ==> vec@[m] == fill,
            decreases block_len - k,
        {
            vec.push(fill);
            k = k + 1;
        }
        let mut result = VectorBase { len: 0, vec };
        result.set_len_from_blocks(element_bits);
        proof {
            Block::lemma_width();
            let n = Block::spec_nbits() as int;
            assert forall|i: int| 0 <= i < result.bits().len() implies #[trigger] result.bits()[i]
                == (i < result.bit_count(element_bits as nat) && bit_of(
                fill.word(),
                (i % n) as nat,
            )) by {
                vstd::arithmetic::div_mod::lemma_fundamental_div_mod(i, n);
                assert(i / n < block_len) by (nonlinear_arith)
                    requires
                        0 <= i < block_len * n,
                        n > 0,
                ;
            }
        }
        result
    }

    /// Creates a vector of `len` elements, each holding the low `element_bits` bits of
    /// `value`.
    pub fn with_fill(element_bits: usize, len: u64, value: Block) -> (r: Self)
        requires
            0 < element_bits <= Block::spec_nbits(),
            len * element_bits + Block::spec_nbits() - 1 <= u64::MAX,
            blocks_for((len * element_bits) as nat, Block::spec_nbits()) <= usize::MAX,
            blocks_for((len * element_bits) as nat, Block::spec_nbits()) * Block::spec_nbits()
                + Block::spec_nbits() <= u64::MAX,
        ensures
            r.wf(element_bits as nat),
            r.spec_len() == len,
            forall|i: int|
                0 <= i < r.bits().len() ==> #[trigger] r.bits()[i] == (i < r.bit_count(
                    element_bits as nat,
                ) && bit_of(value.word(), (i % element_bits as int) as nat)),
    {
        proof {
            Block::lemma_width();
        }
        let block_len = len_to_block_len::<Block>(element_bits, len).expect(
            "VectorBase::with_fill: overflow",
        );
        let mut vec: Vec<Block> = Vec::with_capacity(block_len);
        let zero = Block::from_word(0);
        let mut k: usize = 0;
        while k < block_len
            invariant
                k <= block_len,
                vec@.len() == k,
                zero.word() == 0,
                forall|m: int| 0 <= m < k ==> vec@[m] == zero,
            decreases block_len - k,
        {
            vec.push(zero);
            k = k + 1;
        }
        let mut result = VectorBase { len, vec };
        let ghost eb = element_bits as int;
        let ghost n = Block::spec_nbits() as int;
        proof {
            lemma_zero_bits();
            assert forall|i: int| 0 <= i < result.bits().len() implies !#[trigger] result.bits()[i] by {
                vstd::arithmetic::div_mod::lemma_fundamental_div_mod(i, n);
                assert(i / n < block_len) by (nonlinear_arith)
                    requires
                        0 <= i < block_len * n,
                        n > 0,
                ;
            }
        }
        let mut i: u64 = 0;
        while i < len
            invariant
                0 < eb <= n,
                eb == element_bits,
                n == Block::spec_nbits(),
                i <= len,
                len * eb + n - 1 <= u64::MAX,
                result.spec_len() == len,
                result.wf(element_bits as nat),
                forall|b: int|
                    0 <= b < result.bits().len() ==> #[trigger] result.bits()[b] == (b < i * eb
                        && bit_of(value.word(), (b % eb) as nat)),
            decreases len - i,
        {
            let ghost before = result.bits();
            proof {
                lemma_last_block_bound(&result, eb as nat);
                assert(i * eb + eb <= len * eb) by (nonlinear_arith)
                    requires
                        i < len,
                        eb > 0,
                ;
                assert((i * eb) / n < result.blocks().len()) by (nonlinear_arith)
                    requires
                        i * eb < len * eb,
                        result.blocks().len() * n >= len * eb,
                        n > 0,
                {
                    vstd::arithmetic::div_mod::lemma_fundamental_div_mod(i * eb, n);
                }
            }
            result.set_bits(element_bits, i * element_bits as u64, element_bits, value);
            proof {
                assert forall|b: int| 0 <= b < result.bits().len() implies #[trigger] result.bits()[b]
                    == (b < (i + 1) * eb && bit_of(value.word(), (b % eb) as nat)) by {
                    if i * eb <= b < i * eb + eb {
                        vstd::arithmetic::div_mod::lemma_fundamental_div_mod_converse(
                            b,
                            eb,
                            i as int,
                            b - i * eb,
                        );
                    }
                    assert((i + 1) * eb == i * eb + eb) by (nonlinear_arith);
                }
            }
            i = i + 1;
        }
        result
    }

    /// The block at `block_index`.
    pub fn get_block(&self, block_index: usize) -> (r: Block)
        requires
            block_index < self.blocks().len(),
        ensures
            r == self.blocks()[block_index as int],
    {
        self.vec[block_index]
    }

    /// Sets the block at `block_index` to `value`; in the last block, the bits past the last
    /// element are cleared.
    pub fn set_block(&mut self, element_bits: usize, block_index: usize, value: Block)
        requires
            old(self).wf(element_bits as nat),
            block_index < old(self).blocks().len(),
        ensures
            final(self).wf(element_bits as nat),
            final(self).spec_len() == old(self).spec_len(),
            final(self).blocks().len() == old(self).blocks().len(),
            forall|i: int|
                0 <= i < final(self).bits().len() ==> #[trigger] final(self).bits()[i] == (i
                    < old(self).bit_count(element_bits as nat) && overwrite(
                    old(self).bits(),
                    block_index * Block::spec_nbits(),
                    Block::spec_nbits() as int,
                    value.word(),
                )[i]),
    {
        proof {
            Block::lemma_width();
        }
        let ghost old_bits = self.bits();
        self.vec.set(block_index, value);
        proof {
            let n = Block::spec_nbits() as int;
            assert forall|i: int| 0 <= i < old_bits.len() implies #[trigger] self.bits()[i]
                == overwrite(old_bits, block_index * n, n, value.word())[i] by {
                lemma_in_block(i, block_index as int, n);
                vstd::arithmetic::div_mod::lemma_fundamental_div_mod(i, n);
            }
            assert(self.bits() =~= overwrite(old_bits, block_index * n, n, value.word()));
            assert(block_index < self.vec.len());
        }
        if block_index + 1 == self.vec.len() {
            self.clear_extra_bits(element_bits);
        } else {
            proof {
                let n = Block::spec_nbits() as int;
                assert forall|i: int|
                    old(self).bit_count(element_bits as nat) <= i < self.bits().len() implies !#[trigger] self.bits()[i] by {
                    assert(!old_bits[i]);
                    if block_index * n <= i < block_index * n + n {
                        let bc = old(self).bit_count(element_bits as nat);
                        let bl = self.blocks().len();
                        lemma_last_block(bc, n as nat);
                        assert(i < bc) by (nonlinear_arith)
                            requires
                                block_index + 1 < bl,
                                i < block_index * n + n,
                                (bl - 1) * n < bc,
                                n > 0,
                        ;
                    }
                }
            }
        }
    }

    /// Gets `count` bits starting at bit `index`, as a little-endian number.
    pub fn get_bits(&self, element_bits: usize, index: u64, count: usize) -> (r: Block)
        requires
            self.wf(element_bits as nat),
            index + count <= self.bit_count(element_bits as nat),
            count <= Block::spec_nbits(),
            index as nat / Block::spec_nbits() < self.blocks().len(),
        ensures
            forall|j: nat| #[trigger] bit_of(r.word(), j) == (j < count && self.bits()[index + j]),
    {
        proof {
            Block::lemma_width();
            lemma_blocks_for_exact(self.vec.len() as nat, Block::spec_nbits());
            lemma_last_block_bound(self, element_bits as nat);
        }
        require(
            index + count as u64 <= self.len * element_bits as u64,
            "VectorBase::get_bits: out of bounds",
        );
        proof {
            lemma_vec_bits(self.vec, self.vec);
        }
        self.vec.get_bits(index, count)
    }

    /// Sets `count` bits starting at bit `index` to the low bits of `value`.
    pub fn set_bits(&mut self, element_bits: usize, index: u64, count: usize, value: Block)
        requires
            old(self).wf(element_bits as nat),
            index + count <= old(self).bit_count(element_bits as nat),
            count <= Block::spec_nbits(),
            index as nat / Block::spec_nbits() < old(self).blocks().len(),
        ensures
            final(self).wf(element_bits as nat),
            final(self).spec_len() == old(self).spec_len(),
            final(self).blocks().len() == old(self).blocks().len(),
            final(self).bits() == overwrite(
                old(self).bits(),
                index as int,
                count as int,
                value.word(),
            ),
    {
        proof {
            Block::lemma_width();
            lemma_blocks_for_exact(self.vec.len() as nat, Block::spec_nbits());
            lemma_last_block_bound(self, element_bits as nat);
        }
        require(
            index + count as u64 <= self.len * element_bits as u64,
            "VectorBase::set_bits: out of bounds",
        );
        let ghost old_vec = self.vec;
        proof {
            lemma_vec_bits(self.vec, self.vec);
        }
        self.vec.set_bits(index, count, value);
        proof {
            lemma_vec_bits(self.vec, old_vec);
            assert forall|i: int|
                self.spec_len() * element_bits <= i < self.bits().len() implies !#[trigger] self.bits()[i] by {
                assert(!old(self).bits()[i]);
            }
        }
    }

    /// Gets bit `index`, which must be below the length (meant for one-bit elements).
    pub fn get_bit(&self, index: u64) -> (r: bool)
        requires
            index < self.spec_len(),
            index < self.bits().len(),
            self.blocks().len() * Block::spec_nbits() + Block::spec_nbits() <= u64::MAX,
        ensures
            r == self.bits()[index as int],
    {
        proof {
            Block::lemma_width();
            lemma_blocks_for_exact(self.vec.len() as nat, Block::spec_nbits());
        }
        require(index < self.len, "VectorBase::get_bit: out of bounds");
        proof {
            lemma_vec_bits(self.vec, self.vec);
        }
        self.vec.get_bit(index)
    }

    /// Sets bit `index`, which must be below the length (meant for one-bit elements).
    pub fn set_bit(&mut self, index: u64, value: bool)
        requires
            index < old(self).spec_len(),
            index < old(self).bits().len(),
            old(self).blocks().len() * Block::spec_nbits() + Block::spec_nbits() <= u64::MAX,
        ensures
            final(self).spec_len() == old(self).spec_len(),
            final(self).blocks().len() == old(self).blocks().len(),
            final(self).bits() == old(self).bits().update(index as int, value),
            forall|eb: nat| #[trigger] old(self).wf(eb) ==> final(self).wf(eb),
    {
        proof {
            Block::lemma_width();
            lemma_blocks_for_exact(self.vec.len() as nat, Block::spec_nbits());
        }
        require(index < self.len, "VectorBase::set_bit: out of bounds");
        let ghost old_vec = self.vec;
        proof {
            lemma_vec_bits(self.vec, self.vec);
        }
        self.vec.set_bit(index, value);
        proof {
            lemma_vec_bits(self.vec, old_vec);
            assert forall|eb: nat| #[trigger] old(self).wf(eb) implies self.wf(eb) by {
                assert forall|i: int| self.spec_len() * eb <= i < self.bits().len() implies !#[trigger] self.bits()[i] by {
                    assert(index < self.spec_len() * eb) by (nonlinear_arith)
                        requires
                            index < self.spec_len(),
                            eb > 0,
                    ;
                    assert(!old(self).bits()[i]);
                }
            }
        }
    }

    /// Pushes a block; the length becomes the number of elements that fit the blocks.
    pub fn push_block(&mut self, element_bits: usize, value: Block)
        requires
            old(self).wf(element_bits as nat),
            old(self).blocks().len() * Block::spec_nbits() + 2 * Block::spec_nbits() <= u64::MAX,
        ensures
            final(self).wf(element_bits as nat),
            final(self).blocks().len() == old(self).blocks().len() + 1,
            final(self).spec_len() == (final(self).blocks().len() * Block::spec_nbits())
                / element_bits as nat,
            forall|i: int|
                0 <= i < final(self).bits().len() ==> #[trigger] final(self).bits()[i] == (i
                    < final(self).bit_count(element_bits as nat) && if i < old(self).bits().len() {
                    old(self).bits()[i]
                } else {
                    bit_of(value.word(), (i - old(self).bits().len()) as nat)
                }),
    {
        proof {
            Block::lemma_width();
        }
        let ghost old_vec = self.vec@;
        self.vec.push(value);
        let ghost mid = self.bits();
        proof {
            let n = Block::spec_nbits() as int;
            let l = old_vec.len() as int;
            assert forall|i: int| 0 <= i < mid.len() implies #[trigger] mid[i] == if i < l * n {
                old(self).bits()[i]
            } else {
                bit_of(value.word(), (i - l * n) as nat)
            } by {
                vstd::arithmetic::div_mod::lemma_fundamental_div_mod(i, n);
                let p = i / n;
                lemma_seq_bit_at(self.vec@, p, i % n);
                lemma_seq_bit_at(old_vec, p, i % n);
                lemma_in_block(i, l, n);
                assert(p <= l) by (nonlinear_arith)
                    requires
                        i == n * p + i % n,
                        0 <= i % n < n,
                        i < (l + 1) * n,
                ;
                if i < l * n {
                    assert(p < l) by (nonlinear_arith)
                        requires
                            i == n * p + i % n,
                            0 <= i % n,
                            i < l * n,
                            n > 0,
                    ;
                }
            }
        }
        self.set_len_from_blocks(element_bits);
    }

    /// Pops the last block, if any; the length becomes the number of elements that fit the
    /// remaining blocks.
    pub fn pop_block(&mut self, element_bits: usize) -> (r: Option<Block>)
        requires
            old(self).wf(element_bits as nat),
        ensures
            r == if old(self).blocks().len() == 0 {
                None::<Block>
            } else {
                Some(old(self).blocks().last())
            },
            final(self).wf(element_bits as nat),
            final(self).blocks().len() == if old(self).blocks().len() == 0 {
                0
            } else {
                old(self).blocks().len() - 1
            },
            final(self).spec_len() == (final(self).blocks().len() * Block::spec_nbits())
                / element_bits as nat,
            forall|i: int|
                0 <= i < final(self).bits().len() ==> #[trigger] final(self).bits()[i] == (i
                    < final(self).bit_count(element_bits as nat) && old(self).bits()[i]),
    {
        proof {
            Block::lemma_width();
        }
        let ghost old_vec = self.vec@;
        let result = self.vec.pop();
        let ghost mid = self.bits();
        proof {
            let n = Block::spec_nbits() as int;
            assert forall|i: int| 0 <= i < mid.len() implies #[trigger] mid[i] == old(self).bits()[i] by {
                vstd::arithmetic::div_mod::lemma_fundamental_div_mod(i, n);
                let p = i / n;
                lemma_seq_bit_at(self.vec@, p, i % n);
                lemma_seq_bit_at(old_vec, p, i % n);
                assert(p < self.vec@.len()) by (nonlinear_arith)
                    requires
                        i == n * p + i % n,
                        0 <= i % n,
                        i < self.vec@.len() * n,
                        n > 0,
                ;
            }
            assert(self.vec@.len() * n <= old_vec.len() * n) by (nonlinear_arith)
                requires
                    self.vec@.len() <= old_vec.len(),
                    n > 0,
            ;
        }
        self.set_len_from_blocks(element_bits);
        result
    }

    /// Pushes an element holding the low `element_bits` bits of `value`.
    pub fn push_bits(&mut self, element_bits: usize, value: Block)
        requires
            old(self).wf(element_bits as nat),
            old(self).blocks().len() * Block::spec_nbits() + 2 * Block::spec_nbits() <= u64::MAX,
        ensures
            final(self).wf(element_bits as nat),
            final(self).spec_len() == old(self).spec_len() + 1,
            forall|i: int|
                0 <= i < final(self).bits().len() ==> #[trigger] final(self).bits()[i] == if old(
                    self,
                ).bit_count(element_bits as nat) <= i < old(self).bit_count(element_bits as nat)
                    + element_bits {
                    bit_of(value.word(), (i - old(self).bit_count(element_bits as nat)) as nat)
                } else {
                    i < old(self).bits().len() && old(self).bits()[i]
                },
    {
        proof {
            Block::lemma_width();
            lemma_last_block_bound(self, element_bits as nat);
        }
        let ghost n = Block::spec_nbits() as int;
        let ghost eb = element_bits as int;
        let ghost l = self.vec.len() as int;
        let ghost old_vec = self.vec@;
        let ghost old_bc = self.bit_count(element_bits as nat) as int;
        let ghost olen = self.spec_len() as int;
        proof {
            assert(old_bc + eb <= l * n + n) by (nonlinear_arith)
                requires
                    old_bc <= l * n,
                    eb <= n,
            ;
        }
        proof {
            assert(eb * (olen + 1) == old_bc + eb) by (nonlinear_arith)
                requires
                    old_bc == olen * eb,
            ;
            assert(olen <= old_bc) by (nonlinear_arith)
                requires
                    old_bc == olen * eb,
                    eb > 0,
                    olen >= 0,
            ;
        }
        proof {
            lemma_grow_blocks(old_bc as nat, eb as nat, n as nat);
        }
        if element_bits as u64 * (self.len + 1) > Block::mul_nbits(self.vec.len()) {
            let zero = Block::from_word(0);
            self.vec.push(zero);
            proof {
                lemma_zero_bits();
                assert forall|i: int| 0 <= i < self.bits().len() implies #[trigger] self.bits()[i]
                    == (i < old(self).bits().len() && old(self).bits()[i]) by {
                    vstd::arithmetic::div_mod::lemma_fundamental_div_mod(i, n);
                    let p = i / n;
                    lemma_seq_bit_at(self.vec@, p, i % n);
                    lemma_seq_bit_at(old_vec, p, i % n);
                    if i < l * n {
                        assert(p < l) by (nonlinear_arith)
                            requires
                                i == n * p + i % n,
                                0 <= i % n,
                                i < l * n,
                                n > 0,
                        ;
                    } else {
                        assert(i < l * n + n) by (nonlinear_arith)
                            requires
                                i < self.vec@.len() * n,
                                self.vec@.len() == l + 1,
                        ;
                        lemma_in_block(i, l, n);
                        assert(p == l);
                        assert(self.vec@[p] == zero);
                        assert(!bit_of(zero.word(), (i % n) as nat));
                    }
                }
            }
        }
        let ghost mid = self.bits();
        proof {
            assert forall|i: int| 0 <= i < mid.len() implies #[trigger] mid[i] == (i < old(
                self,
            ).bits().len() && old(self).bits()[i]) by {}
        }
        let pos = self.len;
        self.len = pos + 1;
        proof {
            assert(self.bits() == mid);
            let sl = self.spec_len() as int;
            assert(sl * eb == old_bc + eb) by (nonlinear_arith)
                requires
                    sl == olen + 1,
                    old_bc == olen * eb,
            ;
            assert(self.bit_count(element_bits as nat) == old_bc + eb);
            lemma_blocks_for_exact(self.vec@.len() as nat, n as nat);
            lemma_grow_blocks((old_bc + eb) as nat, eb as nat, n as nat);
            assert(self.vec@.len() == blocks_for((old_bc + eb) as nat, n as nat));
            assert(old_bc + eb <= self.vec@.len() * n);
            assert forall|i: int| self.spec_len() * eb <= i < self.bits().len() implies !#[trigger] self.bits()[i] by {
                assert(old(self).spec_len() * eb <= i);
                assert(mid[i] == (i < old(self).bits().len() && old(self).bits()[i]));
            }
            assert(self.blocks().len() <= l + 1);
            assert(self.blocks().len() * n + n <= u64::MAX) by (nonlinear_arith)
                requires
                    self.blocks().len() <= l + 1,
                    l * n + 2 * n <= u64::MAX,
                    n > 0,
            ;
            assert(self.blocks().len() == blocks_for((self.spec_len() * eb) as nat, n as nat));
            assert(self.wf(element_bits as nat));
            assert(old_bc / n < self.vec@.len()) by (nonlinear_arith)
                requires
                    old_bc + eb <= self.vec@.len() * n,
                    eb > 0,
                    n > 0,
                    old_bc >= 0,
            ;
        }
        self.set_bits(element_bits, pos * element_bits as u64, element_bits, value);
    }

    /// Pops the last element, if any: the low `element_bits` bits of the result.
    pub fn pop_bits(&mut self, element_bits: usize) -> (r: Option<Block>)
        requires
            old(self).wf(element_bits as nat),
        ensures
            final(self).wf(element_bits as nat),
            old(self).spec_len() == 0 ==> r == None::<Block> && *final(self) == *old(self),
            old(self).spec_len() > 0 ==> {
                &&& r is Some
                &&& final(self).spec_len() == old(self).spec_len() - 1
                &&& forall|j: nat| #[trigger]
                    bit_of(r->0.word(), j) == (j < element_bits && old(self).bits()[(old(
                        self,
                    ).spec_len() - 1) * element_bits + j])
                &&& forall|i: int|
                    0 <= i < final(self).bits().len() ==> #[trigger] final(self).bits()[i] == (i
                        < final(self).bit_count(element_bits as nat) && old(self).bits()[i])
            },
    {
        proof {
            Block::lemma_width();
            lemma_last_block_bound(self, element_bits as nat);
        }
        if self.len == 0 {
            return None;
        }
        let ghost n = Block::spec_nbits() as int;
        let ghost eb = element_bits as int;
        let ghost olen = self.spec_len() as int;
        let ghost old_bc = self.bit_count(element_bits as nat) as int;
        proof {
            assert(eb * (olen - 1) <= old_bc) by (nonlinear_arith)
                requires
                    old_bc == olen * eb,
                    eb > 0,
                    olen > 0,
            ;
        }
        let bit_len = element_bits as u64 * (self.len - 1);
        proof {
            assert(bit_len + eb == old_bc) by (nonlinear_arith)
                requires
                    bit_len == eb * (olen - 1),
                    olen > 0,
                    old_bc == olen * eb,
            ;
            lemma_blocks_for_exact(self.vec@.len() as nat, n as nat);
            assert(bit_len as int / n < self.vec@.len()) by (nonlinear_arith)
                requires
                    bit_len + eb <= self.vec@.len() * n,
                    eb > 0,
                    n > 0,
            ;
        }
        let vl = self.vec.len();
        proof {
            let l = self.vec@.len();
            assert(l == vl);
            lemma_blocks_for_mono(bit_len as nat, (l * n) as nat, n as nat);
            lemma_blocks_for_exact(l as nat, n as nat);
            assert(blocks_for(bit_len as nat, n as nat) <= l);
        }
        let block_len = Block::ceil_div_nbits(bit_len);
        let result = self.get_bits(element_bits, bit_len, element_bits);
        let zero = Block::from_word(0);
        self.set_bits(element_bits, bit_len, element_bits, zero);
        let ghost mid = self.bits();
        self.len = self.len - 1;
        let ghost old_vec = self.vec@;
        if self.vec.len() > block_len {
            self.vec.pop();
        }
        proof {
            lemma_zero_bits();
            let bl = self.vec@.len();
            if bit_len > 0 {
                lemma_last_block(bit_len as nat, n as nat);
            } else {
                lemma_blocks_for_exact(0, n as nat);
            }
            lemma_last_block(old(self).bit_count(element_bits as nat), n as nat);
            assert(block_len + 1 >= old_vec.len()) by (nonlinear_arith)
                requires
                    (old_vec.len() - 1) * n < bit_len + eb,
                    eb <= n,
                    bit_len <= block_len * n,
                    n > 0,
            ;
            assert(bl == block_len);
            assert forall|i: int| 0 <= i < self.bits().len() implies #[trigger] self.bits()[i]
                == (i < bit_len && old(self).bits()[i]) by {
                vstd::arithmetic::div_mod::lemma_fundamental_div_mod(i, n);
                let p = i / n;
                lemma_seq_bit_at(self.vec@, p, i % n);
                lemma_seq_bit_at(old_vec, p, i % n);
                if i >= bit_len + eb && i < old(self).bits().len() {
                    assert(!old(self).bits()[i]);
                }
                assert(p < bl) by (nonlinear_arith)
                    requires
                        i == n * p + i % n,
                        0 <= i % n,
                        i < bl * n,
                        n > 0,
                ;
                assert(i < old_vec.len() * n) by (nonlinear_arith)
                    requires
                        i < bl * n,
                        bl <= old_vec.len(),
                        n > 0,
                ;
                assert(mid[i] == (i < bit_len && old(self).bits()[i]));
            }
            let sl = self.spec_len() as int;
            assert(sl * eb == bit_len) by (nonlinear_arith)
                requires
                    sl == olen - 1,
                    bit_len == eb * (olen - 1),
            ;
            assert(self.bit_count(element_bits as nat) == bit_len);
        }
        Some(result)
    }

    /// Pushes a bit (meant for one-bit elements).
    pub fn push_bit(&mut self, value: bool)
        requires
            old(self).wf(1),
            old(self).blocks().len() * Block::spec_nbits() + 2 * Block::spec_nbits() <= u64::MAX,
        ensures
            final(self).wf(1),
            final(self).spec_len() == old(self).spec_len() + 1,
            forall|i: int|
                0 <= i < final(self).bits().len() ==> #[trigger] final(self).bits()[i] == if i
                    == old(self).spec_len() {
                    value
                } else {
                    i < old(self).bits().len() && old(self).bits()[i]
                },
    {
        proof {
            Block::lemma_width();
            lemma_last_block_bound(self, 1);
        }
        let ghost n = Block::spec_nbits() as int;
        let ghost l = self.vec.len() as int;
        let ghost old_vec = self.vec@;
        let ghost olen = self.spec_len() as int;
        if self.len + 1 > Block::mul_nbits(self.vec.len()) {
            let zero = Block::from_word(0);
            self.vec.push(zero);
            proof {
                lemma_zero_bits();
                assert forall|i: int| 0 <= i < self.bits().len() implies #[trigger] self.bits()[i]
                    == (i < old(self).bits().len() && old(self).bits()[i]) by {
                    vstd::arithmetic::div_mod::lemma_fundamental_div_mod(i, n);
                    let p = i / n;
                    lemma_seq_bit_at(self.vec@, p, i % n);
                    lemma_seq_bit_at(old_vec, p, i % n);
                    if i < l * n {
                        assert(p < l) by (nonlinear_arith)
                            requires
                                i == n * p + i % n,
                                0 <= i % n,
                                i < l * n,
                                n > 0,
                        ;
                    } else {
                        assert(i < l * n + n) by (nonlinear_arith)
                            requires
                                i < self.vec@.len() * n,
                                self.vec@.len() == l + 1,
                        ;
                        lemma_in_block(i, l, n);
                        assert(p == l);
                        assert(self.vec@[p] == zero);
                        assert(!bit_of(zero.word(), (i % n) as nat));
                    }
                }
                lemma_grow_blocks(olen as nat, 1, n as nat);
            }
        } else {
            proof {
                lemma_grow_blocks(olen as nat, 1, n as nat);
                assert(self.bits() == old(self).bits());
            }
        }
        let ghost mid = self.bits();
        proof {
            assert forall|i: int| 0 <= i < mid.len() implies #[trigger] mid[i] == (i < old(
                self,
            ).bits().len() && old(self).bits()[i]) by {}
        }
        let pos = self.len;
        self.len = pos + 1;
        proof {
            assert(self.bits() == mid);
            lemma_blocks_for_exact(self.vec@.len() as nat, n as nat);
            lemma_grow_blocks(olen as nat, 1, n as nat);
            lemma_grow_blocks((olen + 1) as nat, 1, n as nat);
            assert(self.spec_len() * 1 == self.spec_len());
            assert(olen * 1 == olen);
            assert(self.blocks().len() == blocks_for(self.spec_len(), n as nat));
            assert(self.bits().len() == self.blocks().len() * n);
            assert forall|i: int| self.spec_len() * 1 <= i < self.bits().len() implies !#[trigger] self.bits()[i] by {
                assert(old(self).spec_len() * 1 <= i);
                assert(mid[i] == (i < old(self).bits().len() && old(self).bits()[i]));
            }
            assert(self.blocks().len() <= l + 1);
            assert(self.blocks().len() * n + n <= u64::MAX) by (nonlinear_arith)
                requires
                    self.blocks().len() <= l + 1,
                    l * n + 2 * n <= u64::MAX,
                    n > 0,
            ;
            assert(self.blocks().len() == blocks_for(self.spec_len() * 1, n as nat));
            assert(self.wf(1));
        }
        self.set_bit(pos, value);
        proof {
            assert(old(self).wf(1));
        }
    }

    /// Pops the last bit, if any (meant for one-bit elements).
    pub fn pop_bit(&mut self) -> (r: Option<bool>)
        requires
            old(self).wf(1),
        ensures
            final(self).wf(1),
            old(self).spec_len() == 0 ==> r == None::<bool> && *final(self) == *old(self),
            old(self).spec_len() > 0 ==> {
                &&& r == Some(old(self).bits()[old(self).spec_len() - 1])
                &&& final(self).spec_len() == old(self).spec_len() - 1
                &&& forall|i: int|
                    0 <= i < final(self).bits().len() ==> #[trigger] final(self).bits()[i] == (i
                        < final(self).spec_len() && old(self).bits()[i])
            },
    {
        proof {
            Block::lemma_width();
            lemma_last_block_bound(self, 1);
        }
        if self.len == 0 {
            return None;
        }
        let ghost n = Block::spec_nbits() as int;
        let new_len = self.len - 1;
        proof {
            lemma_blocks_for_exact(self.vec@.len() as nat, n as nat);
        }
        let result = self.get_bit(new_len);
        self.set_bit(new_len, false);
        let ghost mid = self.bits();
        self.len = new_len;
        let vl = self.vec.len();
        proof {
            let l = self.vec@.len();
            assert(l == vl);
            lemma_blocks_for_mono(new_len as nat, (l * n) as nat, n as nat);
            lemma_blocks_for_exact(l as nat, n as nat);
        }
        let block_len = Block::ceil_div_nbits(new_len);
        let ghost old_vec = self.vec@;
        if self.vec.len() > block_len {
            self.vec.pop();
        }
        proof {
            let bl = self.vec@.len();
            if new_len > 0 {
                lemma_last_block(new_len as nat, n as nat);
            } else {
                lemma_blocks_for_exact(0, n as nat);
            }
            lemma_last_block((new_len + 1) as nat, n as nat);
            assert(block_len + 1 >= old_vec.len()) by (nonlinear_arith)
                requires
                    (old_vec.len() - 1) * n < new_len + 1,
                    new_len <= block_len * n,
                    n > 0,
            ;
            assert(bl == block_len);
            assert forall|i: int| 0 <= i < self.bits().len() implies #[trigger] self.bits()[i]
                == (i < new_len && old(self).bits()[i]) by {
                vstd::arithmetic::div_mod::lemma_fundamental_div_mod(i, n);
                let p = i / n;
                lemma_seq_bit_at(self.vec@, p, i % n);
                lemma_seq_bit_at(old_vec, p, i % n);
                if i > new_len && i < old(self).bits().len() {
                    assert(!old(self).bits()[i]);
                }
                assert(p < bl) by (nonlinear_arith)
                    requires
                        i == n * p + i % n,
                        0 <= i % n,
                        i < bl * n,
                        n > 0,
                ;
                assert(i < old_vec.len() * n) by (nonlinear_arith)
                    requires
                        i < bl * n,
                        bl <= old_vec.len(),
                        n > 0,
                ;
                assert(mid[i] == (i < new_len && old(self).bits()[i]));
            }
        }
        Some(result)
    }

    /// The number of blocks.
    pub fn block_len(&self) -> (r: usize)
        ensures
            r == self.blocks().len(),
    {
        self.vec.len()
    }

    /// The number of elements.
    pub fn len(&self) -> (r: u64)
        ensures
            r == self.spec_len(),
    {
        self.len
    }

    /// Whether there are no blocks (in a well-formed vector: no elements).
    pub fn is_empty(&self) -> (r: bool)
        ensures
            r == (self.blocks().len() == 0),
            forall|eb: nat| #[trigger] self.wf(eb) ==> (r == (self.spec_len() == 0)),
    {
        proof {
            assert forall|eb: nat| #[trigger] self.wf(eb) implies ((self.blocks().len() == 0) == (
            self.spec_len() == 0)) by {
                Block::lemma_width();
                let sl = self.spec_len();
                if sl == 0 {
                    assert(sl * eb == 0) by (nonlinear_arith)
                        requires
                            sl == 0,
                    ;
                    lemma_blocks_for_exact(0, Block::spec_nbits());
                } else {
                    assert(sl * eb > 0) by (nonlinear_arith)
                        requires
                            sl > 0,
                            eb > 0,
                    ;
                    lemma_last_block(sl * eb, Block::spec_nbits());
                }
            }
        }
        self.vec.is_empty()
    }

    /// How many blocks the vector can hold without reallocating.
    pub fn block_capacity(&self) -> (r: usize)
        ensures
            r >= self.blocks().len(),
    {
        vec_capacity(&self.vec)
    }

    /// How many elements the vector can hold without reallocating: the bits of the block
    /// capacity (wrapping around at 64 bits) divided by the element size.
    pub fn capacity(&self, element_bits: usize) -> (r: u64)
        requires
            element_bits > 0,
        ensures
            exists|c: nat|
                c >= self.blocks().len() && r == #[trigger] capacity_in_elements(
                    c,
                    Block::spec_nbits(),
                    element_bits as nat,
                ),
    {
        let c = self.block_capacity();
        let r = Block::mul_nbits(c) / element_bits as u64;
        proof {
            let cn = c as nat;
            assert(cn >= self.blocks().len() && r == capacity_in_elements(
                cn,
                Block::spec_nbits(),
                element_bits as nat,
            ));
        }
        r
    }

    /// Shrinks to `block_len` blocks and the elements that fit them; does nothing if there
    /// are no more blocks than that.
    pub fn block_truncate(&mut self, element_bits: usize, block_len: usize)
        requires
            old(self).wf(element_bits as nat),
        ensures
            final(self).wf(element_bits as nat),
            block_len >= old(self).blocks().len() ==> final(self).spec_len() == old(self).spec_len()
                && final(self).bits() == old(self).bits(),
            block_len < old(self).blocks().len() ==> {
                &&& final(self).blocks().len() == block_len
                &&& final(self).spec_len() == (block_len * Block::spec_nbits()) as nat
                    / element_bits as nat
                &&& forall|i: int|
                    0 <= i < final(self).bits().len() ==> #[trigger] final(self).bits()[i] == (i
                        < final(self).bit_count(element_bits as nat) && old(self).bits()[i])
            },
    {
        proof {
            Block::lemma_width();
        }
        if block_len < self.vec.len() {
            let ghost old_vec = self.vec@;
            self.vec.truncate(block_len);
            proof {
                let n = Block::spec_nbits() as int;
                assert forall|i: int| 0 <= i < self.bits().len() implies #[trigger] self.bits()[i]
                    == old(self).bits()[i] by {
                    vstd::arithmetic::div_mod::lemma_fundamental_div_mod(i, n);
                    let p = i / n;
                    lemma_seq_bit_at(self.vec@, p, i % n);
                    lemma_seq_bit_at(old_vec, p, i % n);
                    assert(p < block_len) by (nonlinear_arith)
                        requires
                            i == n * p + i % n,
                            0 <= i % n,
                            i < block_len * n,
                            n > 0,
                    ;
                    assert(i < old_vec.len() * n) by (nonlinear_arith)
                        requires
                            i < block_len * n,
                            block_len < old_vec.len(),
                            n > 0,
                    ;
                }
            }
            self.set_len_from_blocks(element_bits);
        }
    }

    /// Shrinks to `len` elements; does nothing if there are no more elements than that.
    pub fn truncate(&mut self, element_bits: usize, len: u64)
        requires
            old(self).wf(element_bits as nat),
        ensures
            final(self).wf(element_bits as nat),
            len >= old(self).spec_len() ==> final(self).spec_len() == old(self).spec_len()
                && final(self).bits() == old(self).bits(),
            len < old(self).spec_len() ==> {
                &&& final(self).spec_len() == len
                &&& forall|i: int|
                    0 <= i < final(self).bits().len() ==> #[trigger] final(self).bits()[i] == (i
                        < final(self).bit_count(element_bits as nat) && old(self).bits()[i])
            },
    {
        proof {
            Block::lemma_width();
            lemma_last_block_bound(self, element_bits as nat);
        }
        if len < self.len {
            let ghost n = Block::spec_nbits() as int;
            let ghost eb = element_bits as int;
            let ghost olen = self.spec_len() as int;
            proof {
                assert(len * eb <= olen * eb) by (nonlinear_arith)
                    requires
                        len < olen,
                        eb > 0,
                ;
                lemma_blocks_for_mono((len * eb) as nat, (olen * eb) as nat, n as nat);
            }
            let vl = self.vec.len();
            proof {
                assert(blocks_for((len * eb) as nat, n as nat) <= vl);
            }
            let block_len = Block::ceil_div_nbits(len * element_bits as u64);
            let ghost old_vec = self.vec@;
            self.vec.truncate(block_len);
            self.len = len;
            proof {
                assert forall|i: int| 0 <= i < self.bits().len() implies #[trigger] self.bits()[i]
                    == old(self).bits()[i] by {
                    vstd::arithmetic::div_mod::lemma_fundamental_div_mod(i, n);
                    let p = i / n;
                    lemma_seq_bit_at(self.vec@, p, i % n);
                    lemma_seq_bit_at(old_vec, p, i % n);
                    assert(p < block_len) by (nonlinear_arith)
                        requires
                            i == n * p + i % n,
                            0 <= i % n,
                            i < block_len * n,
                            n > 0,
                    ;
                    assert(i < old_vec.len() * n) by (nonlinear_arith)
                        requires
                            i < block_len * n,
                            block_len <= old_vec.len(),
                            n > 0,
                    ;
                }
                assert(self.bit_count(element_bits as nat) == len * eb);
            }
            self.clear_extra_bits(element_bits);
            proof {
                assert forall|i: int|
                    self.spec_len() * element_bits <= i < self.bits().len() implies !#[trigger] self.bits()[i] by {}
                lemma_blocks_for_exact(self.vec@.len() as nat, n as nat);
                assert(self.blocks().len() * n <= old_vec.len() * n) by (nonlinear_arith)
                    requires
                        self.blocks().len() <= old_vec.len(),
                        n > 0,
                ;
            }
        }
    }

    /// Sets the length to zero, keeping the allocated storage.
    pub fn clear(&mut self)
        ensures
            final(self).spec_len() == 0,
            final(self).blocks().len() == 0,
            forall|eb: nat| 0 < eb <= Block::spec_nbits() ==> #[trigger] final(self).wf(eb),
    {
        self.vec.clear();
        self.len = 0;
        proof {
            Block::lemma_width();
            lemma_blocks_for_exact(0, Block::spec_nbits());
        }
    }

    /// Shrinks the capacity to fit the blocks.
    pub fn shrink_to_fit(&mut self)
        ensures
            final(self).spec_len() == old(self).spec_len(),
            final(self).blocks() == old(self).blocks(),
    {
        vec_shrink_to_fit(&mut self.vec);
    }

    /// Reserves capacity for at least `additional` more blocks.
    pub fn block_reserve(&mut self, additional: usize)
        ensures
            final(self).spec_len() == old(self).spec_len(),
            final(self).blocks() == old(self).blocks(),
    {
        self.vec.reserve(additional);
    }

    /// Reserves capacity for exactly `additional` more blocks, if needed.
    ///
    /// The blocks needed must fit `isize::MAX` bytes.
    pub fn block_reserve_exact(&mut self, additional: usize)
        requires
            old(self).blocks().len() + additional <= usize::MAX,
            (old(self).blocks().len() + additional) * (Block::spec_nbits() / 8) <= isize::MAX,
        ensures
            final(self).spec_len() == old(self).spec_len(),
            final(self).blocks() == old(self).blocks(),
    {
        proof {
            Block::lemma_width();
        }
        vec_reserve_exact(&mut self.vec, additional);
    }

    // The blocks that room for `additional` more elements needs beyond the blocks in use.
    fn additional_blocks(&self, element_bits: usize, additional: u64) -> (r: usize)
        requires
            self.wf(element_bits as nat),
            self.spec_len() + additional <= u64::MAX,
            (self.spec_len() + additional) * element_bits + Block::spec_nbits() - 1 <= u64::MAX,
            blocks_for(
                ((self.spec_len() + additional) * element_bits) as nat,
                Block::spec_nbits(),
            ) <= usize::MAX,
        ensures
            r == blocks_short(
                blocks_for(
                    ((self.spec_len() + additional) * element_bits) as nat,
                    Block::spec_nbits(),
                ),
                self.blocks().len(),
            ),
    {
        proof {
            Block::lemma_width();
        }
        let total = self.len.checked_add(additional).expect(
            "VectorBase::reserve_(exact): overflow",
        );
        let bits = total.checked_mul(element_bits as u64).expect(
            "VectorBase::reserve_(exact): overflow",
        );
        let needed = Block::checked_ceil_div_nbits(bits).expect(
            "VectorBase::reserve_(exact): overflow",
        );
        needed.saturating_sub(self.vec.len())
    }

    /// Reserves capacity for at least `additional` more elements.
    pub fn reserve(&mut self, element_bits: usize, additional: u64)
        requires
            old(self).wf(element_bits as nat),
            old(self).spec_len() + additional <= u64::MAX,
            (old(self).spec_len() + additional) * element_bits + Block::spec_nbits() - 1
                <= u64::MAX,
            blocks_for(
                ((old(self).spec_len() + additional) * element_bits) as nat,
                Block::spec_nbits(),
            ) <= usize::MAX,
        ensures
            final(self).spec_len() == old(self).spec_len(),
            final(self).blocks() == old(self).blocks(),
    {
        let difference = self.additional_blocks(element_bits, additional);
        self.block_reserve(difference);
    }

    /// Reserves capacity for exactly `additional` more elements, if needed.
    ///
    /// The blocks needed must fit `isize::MAX` bytes.
    pub fn reserve_exact(&mut self, element_bits: usize, additional: u64)
        requires
            old(self).wf(element_bits as nat),
            old(self).spec_len() + additional <= u64::MAX,
            (old(self).spec_len() + additional) * element_bits + Block::spec_nbits() - 1
                <= u64::MAX,
            blocks_for(
                ((old(self).spec_len() + additional) * element_bits) as nat,
                Block::spec_nbits(),
            ) <= usize::MAX,
            blocks_for(
                ((old(self).spec_len() + additional) * element_bits) as nat,
                Block::spec_nbits(),
            ) * (Block::spec_nbits() / 8) <= isize::MAX,
        ensures
            final(self).spec_len() == old(self).spec_len(),
            final(self).blocks() == old(self).blocks(),
    {
        let difference = self.additional_blocks(element_bits, additional);
        proof {
            let need = blocks_for(
                ((old(self).spec_len() + additional) * element_bits) as nat,
                Block::spec_nbits(),
            );
            Block::lemma_width();
            let sl = old(self).spec_len();
            let eb = element_bits as nat;
            assert(sl * eb <= (sl + additional) * eb) by (nonlinear_arith);
            lemma_blocks_for_mono(sl * eb, ((sl + additional) * eb) as nat, Block::spec_nbits());
            assert(self.blocks().len() + difference <= need);
            assert((self.blocks().len() + difference) * (Block::spec_nbits() / 8) <= need * (
            Block::spec_nbits() / 8)) by (nonlinear_arith)
                requires
                    self.blocks().len() + difference <= need,
            ;
        }
        self.block_reserve_exact(difference);
    }

    /// Resizes to `block_len` blocks, filling new blocks with `fill`; the length becomes the
    /// number of elements that fit the blocks.
    pub fn block_resize(&mut self, element_bits: usize, block_len: usize, fill: Block)
        requires
            old(self).wf(element_bits as nat),
            block_len * Block::spec_nbits() + Block::spec_nbits() <= u64::MAX,
        ensures
            final(self).wf(element_bits as nat),
            final(self).blocks().len() == block_len,
            final(self).spec_len() == (block_len * Block::spec_nbits()) as nat
                / element_bits as nat,
            forall|i: int|
                0 <= i < final(self).bits().len() ==> #[trigger] final(self).bits()[i] == (i
                    < final(self).bit_count(element_bits as nat) && if i < old(self).bits().len() {
                    old(self).bits()[i]
                } else {
                    bit_of(fill.word(), (i % Block::spec_nbits() as int) as nat)
                }),
    {
        let ghost old_blocks = self.vec@;
        resize_blocks(&mut self.vec, block_len, fill);
        proof {
            lemma_resized_bits(old_blocks, self.vec@, fill);
        }
        self.set_len_from_blocks(element_bits);
    }

    /// Resizes to `len` elements; new elements hold the low `element_bits` bits of `fill`.
    pub fn resize(&mut self, element_bits: usize, len: u64, fill: Block)
        requires
            old(self).wf(element_bits as nat),
            len * element_bits + Block::spec_nbits() - 1 <= u64::MAX,
            blocks_for((len * element_bits) as nat, Block::spec_nbits()) <= usize::MAX,
            blocks_for((len * element_bits) as nat, Block::spec_nbits()) * Block::spec_nbits()
                + Block::spec_nbits() <= u64::MAX,
        ensures
            final(self).wf(element_bits as nat),
            final(self).spec_len() == len,
            forall|i: int|
                0 <= i < final(self).bits().len() ==> #[trigger] final(self).bits()[i] == (i < len
                    * element_bits && if i < old(self).bit_count(element_bits as nat) {
                    old(self).bits()[i]
                } else {
                    bit_of(fill.word(), (i % element_bits as int) as nat)
                }),
    {
        proof {
            Block::lemma_width();
            lemma_last_block_bound(self, element_bits as nat);
        }
        let block_len = len_to_block_len::<Block>(element_bits, len).expect(
            "VectorBase::resize: overflow",
        );
        let ghost n = Block::spec_nbits() as int;
        let ghost eb = element_bits as int;
        let ghost old_blocks = self.vec@;
        let ghost old_bc = self.bit_count(element_bits as nat) as int;
        let zero = Block::from_word(0);
        resize_blocks(&mut self.vec, block_len, zero);
        proof {
            lemma_resized_bits(old_blocks, self.vec@, zero);
            lemma_zero_bits();
        }
        let old_len = self.len;
        self.len = len;
        if len <= old_len {
            proof {
                assert(len * eb <= old_len * eb) by (nonlinear_arith)
                    requires
                        len <= old_len,
                        eb > 0,
                ;
                lemma_blocks_for_mono((len * eb) as nat, old_bc as nat, n as nat);
                assert(self.bit_count(element_bits as nat) == len * eb);
            }
            self.clear_extra_bits(element_bits);
            proof {
                assert forall|i: int|
                    self.spec_len() * element_bits <= i < self.bits().len() implies !#[trigger] self.bits()[i] by {}
                lemma_blocks_for_exact(self.vec@.len() as nat, n as nat);
            }
        } else {
            proof {
                lemma_blocks_for_exact(self.vec@.len() as nat, n as nat);
                assert(self.bit_count(element_bits as nat) == len * eb);
                assert forall|i: int|
                    0 <= i < self.bits().len() implies #[trigger] self.bits()[i] == (i < old_bc
                    && old(self).bits()[i]) by {
                    if old_bc <= i < old(self).bits().len() {
                        assert(!old(self).bits()[i]);
                    }
                }
                assert(old_bc <= len * eb) by (nonlinear_arith)
                    requires
                        old_len < len,
                        old_bc == old_len * eb,
                        eb > 0,
                ;
                assert(self.vec@.len() == blocks_for((len * eb) as nat, n as nat));
                assert(self.wf(element_bits as nat));
            }
            let mut i: u64 = old_len;
            while i < len
                invariant
                    0 < eb <= n,
                    eb == element_bits,
                    n == Block::spec_nbits(),
                    old_len <= i <= len,
                    old_bc == old_len * eb,
                    len * eb + n - 1 <= u64::MAX,
                    self.spec_len() == len,
                    self.wf(element_bits as nat),
                    forall|b: int|
                        0 <= b < self.bits().len() ==> #[trigger] self.bits()[b] == (b < i * eb
                            && if b < old_bc {
                            old(self).bits()[b]
                        } else {
                            bit_of(fill.word(), (b % eb) as nat)
                        }),
                decreases len - i,
            {
                proof {
                    lemma_last_block_bound(self, eb as nat);
                    assert(i * eb + eb <= len * eb) by (nonlinear_arith)
                        requires
                            i < len,
                            eb > 0,
                    ;
                    assert((i * eb) / n < self.blocks().len()) by (nonlinear_arith)
                        requires
                            i * eb < len * eb,
                            self.blocks().len() * n >= len * eb,
                            n > 0,
                    {
                        vstd::arithmetic::div_mod::lemma_fundamental_div_mod(i * eb, n);
                    }
                    assert(old_bc <= i * eb) by (nonlinear_arith)
                        requires
                            old_len <= i,
                            old_bc == old_len * eb,
                            eb > 0,
                    ;
                }
                self.set_bits(element_bits, i * element_bits as u64, element_bits, fill);
                proof {
                    assert forall|b: int| 0 <= b < self.bits().len() implies #[trigger] self.bits()[b]
                        == (b < (i + 1) * eb && if b < old_bc {
                        old(self).bits()[b]
                    } else {
                        bit_of(fill.word(), (b % eb) as nat)
                    }) by {
                        if i * eb <= b < i * eb + eb {
                            vstd::arithmetic::div_mod::lemma_fundamental_div_mod_converse(
                                b,
                                eb,
                                i as int,
                                b - i * eb,
                            );
                        }
                        assert((i + 1) * eb == i * eb + eb) by (nonlinear_arith);
                    }
                }
                i = i + 1;
            }
        }
    }
}

impl<Block: BlockType> SpaceUsage for VectorBase<Block> {
    open spec fn spec_stack_only() -> bool {
        false
    }

    closed spec fn spec_heap_floor(&self) -> nat {
        self.vec.spec_heap_floor()
    }

    closed spec fn spec_heap_outcome(&self, h: nat) -> bool {
        self.vec.spec_heap_outcome(h)
    }

    fn is_stack_only() -> (r: bool) {
        false
    }

    /// The block buffer, at least the blocks in use.
    fn heap_bytes(&self) -> (r: usize)
        ensures
            r >= self.blocks().len() * vstd::layout::size_of::<Block>(),
            exists|c: nat|
                #![trigger c * vstd::layout::size_of::<Block>()]
                c >= self.blocks().len() && c * vstd::layout::size_of::<Block>() <= isize::MAX && r
                    == c * vstd::layout::size_of::<Block>(),
    {
        proof {
            Block::lemma_stack_only();
        }
        self.vec.heap_bytes()
    }
}

impl<Block: BlockType> VectorBase<Block> {
    /// A vector base owns, on the heap, its block buffer's capacity in blocks: at least the
    /// blocks in use, and within `isize::MAX` bytes.
    pub proof fn lemma_heap_outcome(&self, h: nat)
        ensures
            self.spec_heap_outcome(h) <==> exists|c: nat|
                #![trigger c * vstd::layout::size_of::<Block>()]
                c >= self.blocks().len() && c * vstd::layout::size_of::<Block>() <= isize::MAX && h
                    == c * vstd::layout::size_of::<Block>(),
    {
        Block::lemma_stack_only();
        crate::space_usage::lemma_vec_heap_outcome_stack_only(&self.vec, h);
    }
}

} // verus!
