//! How bits and arrays of bits are stored: the block types.

use vstd::prelude::*;

verus! {

use vstd::arithmetic::power2::{pow2, lemma2_to64, lemma_pow2_pos};
use crate::space_usage::SpaceUsage;
use crate::bits::{
    valid_width,
    lg_width,
    low_mask,
    bit_of,
    get_bits_word,
    with_bits_word,
    with_bit_word,
    word_low_mask,
    lemma_low_mask_value,
    lemma_low_mask_mono,
    lemma_and_le,
    lemma_fits_bits,
    lemma_get_bits_word,
    lemma_with_bits_word,
    lemma_with_bit_word,
    lemma_low_mask_bits,
    lemma_fits_from_bits,
    lemma_bits_from_fits,
    lemma_zero_bits,
    lemma_word_facts,
    lemma_width_masks,
    lemma_highest_bit,
    lemma_shl_wrap,
};

/// Types that can be used for `IntVector` and `BitVector` storage.
///
/// A block is an unsigned integer of `nbits()` bits; its specification value is
/// `word()`, the same bits zero-extended to a `u64`. The block methods compute sizes and
/// offsets relative to the block size, get and set individual bits and groups of bits,
/// and a few arithmetic helpers.
pub trait BlockType: Sized + Copy + SpaceUsage {
    /// The bits of the block, zero-extended to 64 bits.
    spec fn word(self) -> u64;

    /// The number of bits in a block.
    spec fn spec_nbits() -> nat;

    /// Block widths are 8, 16, 32 or 64 bits, and fit a `usize`.
    proof fn lemma_width()
        ensures
            valid_width(Self::spec_nbits()),
            Self::spec_nbits() <= usize::MAX,
            vstd::layout::size_of::<Self>() * 8 == Self::spec_nbits(),
    ;

    /// Blocks own nothing on the heap.
    proof fn lemma_stack_only()
        ensures
            Self::spec_stack_only(),
    ;

    /// A block's word has no bit at or above the block width.
    proof fn lemma_word(b: Self)
        ensures
            b.word() <= low_mask(Self::spec_nbits()),
    ;

    /// A block is determined by its word.
    proof fn lemma_word_injective(a: Self, b: Self)
        ensures
            a.word() == b.word() ==> a == b,
    ;

    /// The number of bits in a block.
    fn nbits() -> (r: usize)
        ensures
            r == Self::spec_nbits(),
    ;

    /// The block's bits as a `u64`.
    fn to_word(self) -> (r: u64)
        ensures
            r == self.word(),
    ;

    /// The block holding the bits of `w`, which must fit the block width.
    fn from_word(w: u64) -> (r: Self)
        requires
            w <= low_mask(Self::spec_nbits()),
        ensures
            r.word() == w,
    ;

    /// Log-base-2 of the number of bits in a block.
    fn lg_nbits() -> (r: usize)
        ensures
            r == lg_width(Self::spec_nbits()),
            pow2(r as nat) == Self::spec_nbits(),
    {
        proof {
            Self::lemma_width();
            lemma2_to64();
        }
        let n = Self::nbits() as u64;
        let lz = n.leading_zeros();
        proof {
            vstd::std_specs::bits::axiom_u64_leading_zeros(n);
            assert(n == 8 ==> lz == 60) by {
                reveal_with_fuel(vstd::std_specs::bits::u64_leading_zeros, 65);
            }
            assert(n == 16 ==> lz == 59) by {
                reveal_with_fuel(vstd::std_specs::bits::u64_leading_zeros, 65);
            }
            assert(n == 32 ==> lz == 58) by {
                reveal_with_fuel(vstd::std_specs::bits::u64_leading_zeros, 65);
            }
            assert(n == 64 ==> lz == 57) by {
                reveal_with_fuel(vstd::std_specs::bits::u64_leading_zeros, 65);
            }
        }
        (63 - lz) as usize
    }

    /// Returns `index / Self::nbits()`, computed by shifting.
    ///
    /// This converts a bit address into a block address. The quotient must fit a `usize`.
    fn div_nbits(index: u64) -> (r: usize)
        requires
            index as nat / Self::spec_nbits() <= usize::MAX,
        ensures
            r == index as nat / Self::spec_nbits(),
    {
        let lg = Self::lg_nbits();
        proof {
            Self::lemma_width();
            vstd::bits::lemma_u64_shr_is_div(index, lg as u64);
        }
        (index >> (lg as u64)) as usize
    }

    /// Returns `index / Self::nbits()`, or `None` where the quotient does not fit a `usize`.
    fn checked_div_nbits(index: u64) -> (r: Option<usize>)
        ensures
            r == if index as nat / Self::spec_nbits() <= usize::MAX {
                Some((index as nat / Self::spec_nbits()) as usize)
            } else {
                None::<usize>
            },
    {
        let lg = Self::lg_nbits();
        proof {
            Self::lemma_width();
            vstd::bits::lemma_u64_shr_is_div(index, lg as u64);
        }
        let q = index >> (lg as u64);
        if q <= usize::MAX as u64 {
            Some(q as usize)
        } else {
            None
        }
    }

    /// Returns `index / Self::nbits()` rounded up.
    ///
    /// This converts a bit size into a block size; the sum `index + nbits - 1` must not
    /// overflow and the quotient must fit a `usize`.
    fn ceil_div_nbits(index: u64) -> (r: usize)
        requires
            index + Self::spec_nbits() - 1 <= u64::MAX,
            (index + Self::spec_nbits() - 1) as nat / Self::spec_nbits() <= usize::MAX,
        ensures
            r == (index + Self::spec_nbits() - 1) as nat / Self::spec_nbits(),
    {
        proof {
            Self::lemma_width();
        }
        Self::div_nbits(index + (Self::nbits() as u64 - 1))
    }

    /// Returns `index / Self::nbits()` rounded up, or `None` where it does not fit a `usize`.
    ///
    /// The sum `index + nbits - 1` must not overflow.
    fn checked_ceil_div_nbits(index: u64) -> (r: Option<usize>)
        requires
            index + Self::spec_nbits() - 1 <= u64::MAX,
        ensures
            r == if (index + Self::spec_nbits() - 1) as nat / Self::spec_nbits() <= usize::MAX {
                Some(((index + Self::spec_nbits() - 1) as nat / Self::spec_nbits()) as usize)
            } else {
                None::<usize>
            },
    {
        proof {
            Self::lemma_width();
        }
        Self::checked_div_nbits(index + (Self::nbits() as u64 - 1))
    }

    /// Returns `index % Self::nbits()`, computed by masking.
    fn mod_nbits(index: u64) -> (r: usize)
        ensures
            r == index as nat % Self::spec_nbits(),
            r < Self::spec_nbits(),
    {
        let lg = Self::lg_nbits();
        let mask = word_low_mask(lg);
        proof {
            Self::lemma_width();
            lemma2_to64();
            lemma_low_mask_value(lg as nat);
            vstd::bits::lemma_u64_low_bits_mask_is_mod(index, lg as nat);
        }
        (index & mask) as usize
    }

    /// Returns `index * Self::nbits()`, computed by shifting (wrapping around at 64 bits).
    ///
    /// This converts a block address into a bit address.
    fn mul_nbits(index: usize) -> (r: u64)
        ensures
            r == (index * Self::spec_nbits()) % 0x1_0000_0000_0000_0000,
            index * Self::spec_nbits() <= u64::MAX ==> r == index * Self::spec_nbits(),
    {
        let lg = Self::lg_nbits();
        proof {
            Self::lemma_width();
            lemma_shl_wrap(index as u64, lg as nat);
        }
        (index as u64) << (lg as u64)
    }

    /// The number of bits in the last block of an array of `len` bits: like `mod_nbits`,
    /// but `nbits()` in place of 0.
    fn last_block_bits(len: u64) -> (r: usize)
        ensures
            r == if len as nat % Self::spec_nbits() == 0 {
                Self::spec_nbits()
            } else {
                len as nat % Self::spec_nbits()
            },
            0 < r <= Self::spec_nbits(),
    {
        let masked = Self::mod_nbits(len);
        if masked == 0 {
            Self::nbits()
        } else {
            masked
        }
    }

    /// The mask of `element_bits` ones in the lowest positions.
    fn low_mask(element_bits: usize) -> (r: Self)
        requires
            element_bits <= Self::spec_nbits(),
        ensures
            r.word() == low_mask(element_bits as nat),
    {
        proof {
            Self::lemma_width();
            lemma_low_mask_mono(element_bits as nat, Self::spec_nbits());
        }
        Self::from_word(word_low_mask(element_bits))
    }

    /// The mask with only bit `bit_index` set.
    fn nth_mask(bit_index: usize) -> (r: Self)
        requires
            bit_index < Self::spec_nbits(),
        ensures
            r.word() == 1u64 << (bit_index as u64),
            forall|j: nat| #[trigger] bit_of(r.word(), j) == (j == bit_index),
    {
        proof {
            Self::lemma_width();
            let m = 1u64 << (bit_index as u64);
            lemma_with_bit_word(0, bit_index as nat, true);
            lemma_word_facts(0, 0, bit_index as u64);
            lemma_zero_bits();
            assert forall|j: nat| #[trigger] bit_of(m, j) == (j == bit_index) by {
                assert(bit_of(with_bit_word(0, bit_index as nat, true), j) == if j == bit_index {
                    true
                } else {
                    bit_of(0, j)
                });
            }
            lemma_fits_from_bits(m, Self::spec_nbits());
        }
        Self::from_word(1u64 << (bit_index as u64))
    }

    /// Extracts the value of bit `bit_index`.
    fn get_bit(self, bit_index: usize) -> (r: bool)
        requires
            bit_index < Self::spec_nbits(),
        ensures
            r == bit_of(self.word(), bit_index as nat),
    {
        proof {
            Self::lemma_width();
        }
        (self.to_word() >> (bit_index as u64)) & 1 == 1
    }

    /// Functionally updates bit `bit_index` to `bit_value`.
    fn with_bit(self, bit_index: usize, bit_value: bool) -> (r: Self)
        requires
            bit_index < Self::spec_nbits(),
        ensures
            r.word() == with_bit_word(self.word(), bit_index as nat, bit_value),
            forall|j: nat| #[trigger]
                bit_of(r.word(), j) == if j == bit_index {
                    bit_value
                } else {
                    bit_of(self.word(), j)
                },
    {
        proof {
            Self::lemma_width();
            Self::lemma_word(self);
        }
        let w = self.to_word();
        let m = 1u64 << (bit_index as u64);
        let nw = if bit_value {
            w | m
        } else {
            w & !m
        };
        proof {
            assert(nw == with_bit_word(w, bit_index as nat, bit_value));
            lemma_with_bit_word(w, bit_index as nat, bit_value);
            lemma_bits_from_fits(w, Self::spec_nbits());
            assert forall|j: nat| Self::spec_nbits() <= j < 64 implies !#[trigger] bit_of(nw, j) by {
                assert(!bit_of(w, j));
            }
            lemma_fits_from_bits(nw, Self::spec_nbits());
        }
        Self::from_word(nw)
    }

    /// Extracts `len` bits starting at bit offset `start`.
    fn get_bits(self, start: usize, len: usize) -> (r: Self)
        requires
            start + len <= Self::spec_nbits(),
        ensures
            r.word() == get_bits_word(self.word(), start as nat, len as nat),
            forall|j: nat| #[trigger]
                bit_of(r.word(), j) == (j < len && bit_of(self.word(), (start + j) as nat)),
    {
        proof {
            Self::lemma_width();
            lemma_low_mask_mono(len as nat, Self::spec_nbits());
        }
        if len == 0 {
            proof {
                assert forall|j: nat| #[trigger] bit_of(0u64, j) == false by {
                    lemma_zero_bits();
                }
            }
            return Self::from_word(0);
        }
        let w = self.to_word();
        let r = (w >> (start as u64)) & word_low_mask(len);
        proof {
            lemma_and_le(w >> (start as u64), low_mask(len as nat));
            lemma_get_bits_word(w, start as nat, len as nat);
        }
        Self::from_word(r)
    }

    /// Functionally updates `len` bits starting at offset `start` to the low bits of
    /// `value`.
    fn with_bits(self, start: usize, len: usize, value: Self) -> (r: Self)
        requires
            start + len <= Self::spec_nbits(),
        ensures
            r.word() == with_bits_word(self.word(), start as nat, len as nat, value.word()),
            forall|j: nat| #[trigger]
                bit_of(r.word(), j) == if start <= j < start + len {
                    bit_of(value.word(), (j - start) as nat)
                } else {
                    bit_of(self.word(), j)
                },
    {
        proof {
            Self::lemma_width();
            Self::lemma_word(self);
            lemma_with_bits_word(self.word(), start as nat, len as nat, value.word());
        }
        if len == 0 {
            return self;
        }
        let w = self.to_word();
        let mask = word_low_mask(len) << (start as u64);
        let shifted_value = value.to_word() << (start as u64);
        let r = (w & !mask) | (shifted_value & mask);
        proof {
            assert(r == with_bits_word(w, start as nat, len as nat, value.word()));
            lemma_bits_from_fits(w, Self::spec_nbits());
            assert forall|j: nat| Self::spec_nbits() <= j < 64 implies !#[trigger] bit_of(r, j) by {
                assert(!bit_of(w, j));
            }
            lemma_fits_from_bits(r, Self::spec_nbits());
        }
        Self::from_word(r)
    }

    /// The smallest `n` such that `2.pow(n) >= self` (zero for zero and one).
    fn ceil_lg(self) -> (r: usize)
        ensures
            self.word() <= 1 ==> r == 0,
            self.word() > 1 ==> r > 0 && pow2((r - 1) as nat) < self.word() <= pow2(r as nat),
    {
        let w = self.to_word();
        if w <= 1 {
            return 0;
        }
        let lz = (w - 1).leading_zeros();
        proof {
            lemma_highest_bit((w - 1) as u64, lz as int);
        }
        (64 - lz) as usize
    }

    /// The largest `n` such that `2.pow(n) <= self` (zero for zero and one).
    fn floor_lg(self) -> (r: usize)
        ensures
            self.word() <= 1 ==> r == 0,
            self.word() > 1 ==> pow2(r as nat) <= self.word() < pow2((r + 1) as nat),
    {
        let w = self.to_word();
        if w <= 1 {
            return 0;
        }
        let lz = w.leading_zeros();
        proof {
            lemma_highest_bit(w, lz as int);
        }
        (63 - lz) as usize
    }

    /// The smallest `n` such that `n * divisor >= self`.
    fn ceil_div(self, divisor: Self) -> (r: Self)
        requires
            divisor.word() > 0,
            self.word() + divisor.word() - 1 <= low_mask(Self::spec_nbits()),
        ensures
            r.word() == (self.word() + divisor.word() - 1) as nat / divisor.word() as nat,
    {
        let a = self.to_word();
        let d = divisor.to_word();
        let q = (a + (d - 1)) / d;
        proof {
            assert(q <= a + d - 1) by (nonlinear_arith)
                requires
                    q == (a + d - 1) as nat / d as nat,
                    d > 0,
            ;
        }
        Self::from_word(q)
    }
}

/// The mask, in block type `R`, with the lowest `B::lg_nbits()` bits set.
pub fn lg_nbits_mask<B: BlockType, R: BlockType>() -> (r: R)
    ensures
        r.word() == low_mask(lg_width(B::spec_nbits())),
{
    proof {
        R::lemma_width();
        B::lemma_width();
    }
    R::low_mask(B::lg_nbits())
}

impl BlockType for u8 {
    open spec fn word(self) -> u64 {
        self as u64
    }

    open spec fn spec_nbits() -> nat {
        8
    }

    proof fn lemma_stack_only() {
    }

    proof fn lemma_width() {
        broadcast use vstd::layout::layout_of_primitives;

    }

    proof fn lemma_word(b: u8) {
        lemma_width_masks();
    }

    proof fn lemma_word_injective(a: u8, b: u8) {
    }

    fn nbits() -> usize {
        8
    }

    fn to_word(self) -> u64 {
        self as u64
    }

    fn from_word(w: u64) -> u8 {
        proof {
            lemma_width_masks();
        }
        w as u8
    }
}

impl BlockType for u16 {
    open spec fn word(self) -> u64 {
        self as u64
    }

    open spec fn spec_nbits() -> nat {
        16
    }

    proof fn lemma_stack_only() {
    }

    proof fn lemma_width() {
        broadcast use vstd::layout::layout_of_primitives;

    }

    proof fn lemma_word(b: u16) {
        lemma_width_masks();
    }

    proof fn lemma_word_injective(a: u16, b: u16) {
    }

    fn nbits() -> usize {
        16
    }

    fn to_word(self) -> u64 {
        self as u64
    }

    fn from_word(w: u64) -> u16 {
        proof {
            lemma_width_masks();
        }
        w as u16
    }
}

impl BlockType for u32 {
    open spec fn word(self) -> u64 {
        self as u64
    }

    open spec fn spec_nbits() -> nat {
        32
    }

    proof fn lemma_stack_only() {
    }

    proof fn lemma_width() {
        broadcast use vstd::layout::layout_of_primitives;

    }

    proof fn lemma_word(b: u32) {
        lemma_width_masks();
    }

    proof fn lemma_word_injective(a: u32, b: u32) {
    }

    fn nbits() -> usize {
        32
    }

    fn to_word(self) -> u64 {
        self as u64
    }

    fn from_word(w: u64) -> u32 {
        proof {
            lemma_width_masks();
        }
        w as u32
    }
}

impl BlockType for u64 {
    open spec fn word(self) -> u64 {
        self
    }

    open spec fn spec_nbits() -> nat {
        64
    }

    proof fn lemma_stack_only() {
    }

    proof fn lemma_width() {
        broadcast use vstd::layout::layout_of_primitives;

    }

    proof fn lemma_word(b: u64) {
    }

    proof fn lemma_word_injective(a: u64, b: u64) {
    }

    fn nbits() -> usize {
        64
    }

    fn to_word(self) -> u64 {
        self
    }

    fn from_word(w: u64) -> u64 {
        w
    }
}

impl BlockType for usize {
    open spec fn word(self) -> u64 {
        self as u64
    }

    open spec fn spec_nbits() -> nat {
        usize::BITS as nat
    }

    proof fn lemma_stack_only() {
    }

    proof fn lemma_width() {
        broadcast use vstd::layout::layout_of_primitives;

    }

    proof fn lemma_word(b: usize) {
        lemma_width_masks();
    }

    proof fn lemma_word_injective(a: usize, b: usize) {
    }

    fn nbits() -> usize {
        usize::BITS as usize
    }

    fn to_word(self) -> u64 {
        self as u64
    }

    fn from_word(w: u64) -> usize {
        proof {
            lemma_width_masks();
        }
        w as usize
    }
}

/// The full mask of a `usize` is its largest value.
pub proof fn lemma_usize_mask()
    ensures
        low_mask(usize::BITS as nat) == usize::MAX as u64,
{
    lemma_width_masks();
}

/// The address of a bit, broken into a block component and a bit offset component.
#[derive(Clone, Copy, Debug, PartialEq, Eq, PartialOrd, Ord, Hash)]
pub struct Address {
    /// The index of the block containing the bit in question.
    pub block_index: usize,
    /// The position of the bit in question within its block.
    pub bit_offset: usize,
}

impl Address {
    /// Creates an `Address` for the given bit index for storage in block type `Block`.
    ///
    /// The block index, `bit_index / Block::nbits()`, must fit a `usize`.
    pub fn new<Block: BlockType>(bit_index: u64) -> (r: Self)
        requires
            bit_index as nat / Block::spec_nbits() <= usize::MAX,
        ensures
            r.block_index == bit_index as nat / Block::spec_nbits(),
            r.bit_offset == bit_index as nat % Block::spec_nbits(),
            r.bit_offset < Block::spec_nbits(),
    {
        let block_index = match Block::checked_div_nbits(bit_index) {
            Some(b) => b,
            None => {
                proof {
                    assert(false);
                }
                0
            },
        };
        Address { block_index, bit_offset: Block::mod_nbits(bit_index) }
    }

    /// Converts an `Address` back into a raw bit index.
    ///
    /// The bit index, `block_index * Block::nbits() + bit_offset`, must fit a `u64`.
    pub fn bit_index<Block: BlockType>(&self) -> (r: u64)
        requires
            self.block_index * Block::spec_nbits() + self.bit_offset <= u64::MAX,
        ensures
            r == self.block_index * Block::spec_nbits() + self.bit_offset,
    {
        Block::mul_nbits(self.block_index) + self.bit_offset as u64
    }
}

/// `Address::new` and `Address::bit_index` are inverses: the address of a bit index leads
/// back to that bit index.
pub proof fn lemma_address_round_trip<Block: BlockType>(bit_index: u64)
    ensures
        (bit_index as nat / Block::spec_nbits()) * Block::spec_nbits() + bit_index as nat
            % Block::spec_nbits() == bit_index,
{
    Block::lemma_width();
    vstd::arithmetic::div_mod::lemma_fundamental_div_mod(bit_index as int, Block::spec_nbits() as int);
}

/// `Address::new` and `Address::bit_index` are inverses: an address with an in-range offset
/// is the address of its bit index.
pub proof fn lemma_bit_index_round_trip<Block: BlockType>(a: Address)
    requires
        a.bit_offset < Block::spec_nbits(),
    ensures
        (a.block_index * Block::spec_nbits() + a.bit_offset) / (Block::spec_nbits() as int)
            == a.block_index,
        (a.block_index * Block::spec_nbits() + a.bit_offset) % (Block::spec_nbits() as int)
            == a.bit_offset,
{
    Block::lemma_width();
    vstd::arithmetic::div_mod::lemma_fundamental_div_mod_converse(
        (a.block_index * Block::spec_nbits() + a.bit_offset) as int,
        Block::spec_nbits() as int,
        a.block_index as int,
        a.bit_offset as int,
    );
}

} // verus!
