//! Uncompressed vectors of *k*-bit unsigned integers.

use vstd::prelude::*;

verus! {

use crate::bits::{bit_of, low_mask, lemma_bits_from_fits, lemma_fits_bits};
use crate::storage::BlockType;
use crate::space_usage::SpaceUsage;
use crate::internal::require;
use crate::internal::vector_base::{VectorBase, lemma_last_block_bound, lemma_block_count_fits, capacity_in_elements};
use crate::bit_vec::traits::{BitVec, BitVecMut, blocks_for, overwrite, word_bits, lemma_seq_bit_at, lemma_blocks_for_pad};
use super::traits::{IntVec, IntVecMut, bits_word, lemma_bits_word, lemma_bits_word_agree};

/// Uncompressed vector of *k*-bit unsigned integers.
///
/// The element width *k* is fixed when the vector is made, and is at most the block width.
#[derive(Debug, PartialEq, Eq, PartialOrd, Ord, Hash)]
pub struct IntVector<Block: BlockType = usize> {
    element_bits: usize,
    base: VectorBase<Block>,
}

/// The elements of `element_bits` bits that the first `len` elements' worth of `bits` hold.
pub open spec fn element_values(bits: Seq<bool>, len: nat, element_bits: nat) -> Seq<nat> {
    Seq::new(len, |i: int| bits_word(bits, i * element_bits, element_bits))
}

/// A value that fits `element_bits` bits reads back from the bits that it was written to.
proof fn lemma_value_bits(w: u64, s: Seq<bool>, start: int, element_bits: nat)
    requires
        element_bits <= 64,
        w <= low_mask(element_bits),
        forall|j: int| 0 <= j < element_bits ==> #[trigger] s[start + j] == bit_of(w, j as nat),
    ensures
        w as nat == bits_word(s, start, element_bits),
{
    lemma_fits_bits(w, element_bits);
    assert forall|j: nat| #[trigger] bit_of(w, j) == (j < element_bits && s[start + j]) by {
        if j < element_bits {
            assert(s[start + j] == bit_of(w, j));
        }
    }
    lemma_bits_word(w, s, start, element_bits);
}

/// Elements whose bits are unchanged keep their values.
proof fn lemma_values_agree(s: Seq<bool>, t: Seq<bool>, len: nat, eb: nat, i: int)
    requires
        0 <= i < len,
        forall|k: int| i * eb <= k < i * eb + eb ==> #[trigger] s[k] == t[k],
    ensures
        element_values(s, len, eb)[i] == element_values(t, len, eb)[i],
{
    assert forall|j: int| 0 <= j < eb implies #[trigger] s[i * eb + j] == t[i * eb + j] by {
        assert(s[i * eb + j] == t[i * eb + j]);
    }
    lemma_bits_word_agree(s, i * eb, t, i * eb, eb);
}

/// Element `i` ends within the first `len` elements' bits.
proof fn lemma_element_span(i: int, len: nat, eb: nat)
    requires
        0 <= i < len,
    ensures
        i * eb + eb <= len * eb,
        0 <= i * eb,
{
    assert(i * eb + eb <= len * eb && 0 <= i * eb) by (nonlinear_arith)
        requires
            0 <= i < len,
    ;
}

impl<Block: BlockType> IntVector<Block> {
    /// The storage holds elements of the vector's width.
    #[verifier::type_invariant]
    pub(crate) closed spec fn inv(self) -> bool {
        self.base.wf(self.element_bits as nat)
    }

    /// The width of each element.
    pub closed spec fn spec_width(&self) -> nat {
        self.element_bits as nat
    }

    /// The values of the elements.
    pub closed spec fn values(&self) -> Seq<nat> {
        element_values(self.base.bits(), self.base.spec_len(), self.element_bits as nat)
    }

    /// Asserts that `element_bits` is a valid width: nonzero and at most the block width.
    fn check_element_bits(element_bits: usize)
        requires
            0 < element_bits <= Block::spec_nbits(),
    {
        require(element_bits != 0, "IntVector: cannot have zero-size elements");
        require(
            element_bits <= Block::nbits(),
            "IntVector: element size cannot exceed block size",
        );
    }

    /// Asserts that `element_value` fits `element_bits` bits.
    fn check_value_random(element_bits: usize, element_value: Block)
        requires
            element_bits <= Block::spec_nbits(),
            element_value.word() <= low_mask(element_bits as nat),
    {
        require(
            element_value.to_word() <= Block::low_mask(element_bits).to_word(),
            "IntVector: value to large for element size",
        );
    }

    /// Asserts that `element_value` fits the element width.
    fn check_value(&self, element_value: Block)
        requires
            element_value.word() <= low_mask(self.spec_width()),
    {
        proof {
            use_type_invariant(self);
        }
        Self::check_value_random(self.element_bits, element_value);
    }

    /// Checks `element_bits` before assembling an `IntVector`.
    fn create(element_bits: usize, base: VectorBase<Block>) -> (r: Self)
        requires
            base.wf(element_bits as nat),
        ensures
            r.spec_width() == element_bits,
            r.values() == element_values(base.bits(), base.spec_len(), element_bits as nat),
    {
        Self::check_element_bits(element_bits);
        IntVector { element_bits: element_bits, base: base }
    }

    /// The bit address of element `element_index` of width `element_bits`, plus
    /// `bit_offset`.
    fn compute_address_random(&self, bit_offset: u64, element_bits: usize, element_index: u64) -> (r: u64)
        requires
            element_index * element_bits + bit_offset <= u64::MAX,
        ensures
            r == element_index * element_bits + bit_offset,
    {
        let offset = element_index.checked_mul(element_bits as u64).expect(
            "IntVector: index overflow",
        );
        offset.checked_add(bit_offset).expect("IntVector: index overflow")
    }

    /// The bit address of element `element_index`.
    fn compute_address(&self, element_index: u64) -> (r: u64)
        requires
            element_index * self.spec_width() <= u64::MAX,
        ensures
            r == element_index * self.spec_width(),
    {
        element_index.checked_mul(self.element_bits as u64).expect("IntVector: index overflow")
    }

    /// Creates a new, empty integer vector of elements of `element_bits` bits.
    pub fn new(element_bits: usize) -> (r: Self)
        requires
            0 < element_bits <= Block::spec_nbits(),
        ensures
            r.spec_width() == element_bits,
            r.values() == Seq::<nat>::empty(),
    {
        let r = Self::create(element_bits, VectorBase::new());
        proof {
            assert(r.values() =~= Seq::<nat>::empty());
        }
        r
    }

    /// Creates a new, empty integer vector with storage for `capacity` elements.
    ///
    /// The bits for the capacity must fit a `u64`, and its blocks a `usize`.
    pub fn with_capacity(element_bits: usize, capacity: u64) -> (r: Self)
        requires
            0 < element_bits <= Block::spec_nbits(),
            capacity * element_bits + Block::spec_nbits() - 1 <= u64::MAX,
            blocks_for((capacity * element_bits) as nat, Block::spec_nbits()) <= usize::MAX,
        ensures
            r.spec_width() == element_bits,
            r.values() == Seq::<nat>::empty(),
    {
        let r = Self::create(element_bits, VectorBase::with_capacity(element_bits, capacity));
        proof {
            assert(r.values() =~= Seq::<nat>::empty());
        }
        r
    }

    /// Creates a new, empty integer vector with storage for `block_capacity` blocks.
    pub fn block_with_capacity(element_bits: usize, block_capacity: usize) -> (r: Self)
        requires
            0 < element_bits <= Block::spec_nbits(),
        ensures
            r.spec_width() == element_bits,
            r.values() == Seq::<nat>::empty(),
    {
        let r = Self::create(element_bits, VectorBase::block_with_capacity(block_capacity));
        proof {
            assert(r.values() =~= Seq::<nat>::empty());
        }
        r
    }

    /// Creates a new integer vector filling `block_len` blocks with copies of `value`; its
    /// length is the number of elements of `element_bits` bits that fit the blocks.
    ///
    /// The bits of the blocks, plus a block, must fit a `u64`.
    pub fn block_with_fill(element_bits: usize, block_len: usize, value: Block) -> (r: Self)
        requires
            0 < element_bits <= Block::spec_nbits(),
            block_len * Block::spec_nbits() + Block::spec_nbits() <= u64::MAX,
        ensures
            r.spec_width() == element_bits,
            r.values() == element_values(
                Seq::new(
                    (block_len * Block::spec_nbits()) as nat,
                    |k: int| bit_of(value.word(), (k % Block::spec_nbits() as int) as nat),
                ),
                (block_len * Block::spec_nbits()) as nat / element_bits as nat,
                element_bits as nat,
            ),
    {
        let base = VectorBase::block_with_fill(element_bits, block_len, value);
        let ghost eb = element_bits as nat;
        let ghost n = Block::spec_nbits();
        let ghost len = base.spec_len();
        let ghost pattern = Seq::new(
            (block_len * n) as nat,
            |k: int| bit_of(value.word(), (k % n as int) as nat),
        );
        proof {
            lemma_last_block_bound(&base, eb);
            assert forall|i: int| 0 <= i < len implies #[trigger] element_values(base.bits(), len, eb)[i]
                == element_values(pattern, len, eb)[i] by {
                lemma_element_span(i, len, eb);
                assert(len * eb <= block_len * n) by (nonlinear_arith)
                    requires
                        len == (block_len * n) as nat / eb,
                        eb > 0,
                ;
                assert forall|j: int| 0 <= j < eb implies #[trigger] base.bits()[i * eb + j]
                    == pattern[i * eb + j] by {}
                lemma_bits_word_agree(base.bits(), i * eb, pattern, i * eb, eb);
            }
        }
        let r = Self::create(element_bits, base);
        proof {
            assert(r.values() =~= element_values(pattern, len, eb));
        }
        r
    }

    /// Creates a new integer vector of `len` elements, each the low `element_bits` bits of
    /// `value`.
    pub fn with_fill(element_bits: usize, len: u64, value: Block) -> (r: Self)
        requires
            0 < element_bits <= Block::spec_nbits(),
            len * element_bits + Block::spec_nbits() - 1 <= u64::MAX,
            blocks_for((len * element_bits) as nat, Block::spec_nbits()) <= usize::MAX,
            blocks_for((len * element_bits) as nat, Block::spec_nbits()) * Block::spec_nbits()
                + Block::spec_nbits() <= u64::MAX,
        ensures
            r.spec_width() == element_bits,
            r.values() == Seq::new(
                len as nat,
                |i: int| (value.word() & low_mask(element_bits as nat)) as nat,
            ),
    {
        let base = VectorBase::with_fill(element_bits, len, value);
        proof {
            Block::lemma_width();
            let eb = element_bits as nat;
            let m = value.word() & low_mask(eb);
            crate::bits::lemma_low_mask_bits(eb);
            crate::bits::lemma_word_facts(value.word(), low_mask(eb), 0);
            assert forall|i: int| 0 <= i < len implies #[trigger] element_values(
                base.bits(),
                len as nat,
                eb,
            )[i] == m as nat by {
                lemma_element_span(i, len as nat, eb);
                assert forall|j: int| 0 <= j < eb implies #[trigger] base.bits()[i * eb + j]
                    == bit_of(m, j as nat) by {
                    lemma_last_block_bound(&base, eb);
                    vstd::arithmetic::div_mod::lemma_fundamental_div_mod_converse(
                        i * eb + j,
                        eb as int,
                        i,
                        j,
                    );
                    crate::bits::lemma_and_bits(value.word(), low_mask(eb), j as nat);
                }
                lemma_value_bits(m, base.bits(), i * eb, eb);
            }
        }
        let r = Self::create(element_bits, base);
        proof {
            assert(r.values() =~= Seq::new(
                len as nat,
                |i: int| (value.word() & low_mask(element_bits as nat)) as nat,
            ));
        }
        r
    }

    /// The number of elements the vector can hold without reallocating, counting bits
    /// modulo `2^64`: at least the length, unless the capacity's bits pass `u64::MAX`.
    pub fn capacity(&self) -> (r: u64)
        ensures
            exists|c: nat|
                c >= blocks_for(self.values().len() * self.spec_width(), Block::spec_nbits())
                    && r == #[trigger] capacity_in_elements(
                    c,
                    Block::spec_nbits(),
                    self.spec_width(),
                ) && (c * Block::spec_nbits() <= u64::MAX ==> r >= self.values().len()),
    {
        proof {
            use_type_invariant(self);
            assert(self.values().len() == self.base.spec_len());
        }
        let r = self.base.capacity(self.element_bits);
        proof {
            let c = choose|c: nat|
                c >= self.base.blocks().len() && r == #[trigger] capacity_in_elements(
                    c,
                    Block::spec_nbits(),
                    self.element_bits as nat,
                );
            let n = Block::spec_nbits();
            let w = self.spec_width();
            let len = self.values().len();
            assert(c >= blocks_for(len * w, n));
            if c * n <= u64::MAX {
                Block::lemma_width();
                lemma_blocks_for_pad(len * w, n);
                assert(len * w <= c * n) by (nonlinear_arith)
                    requires
                        len * w <= blocks_for(len * w, n) * n,
                        blocks_for(len * w, n) <= c,
                ;
                vstd::arithmetic::div_mod::lemma_small_mod(c * n, 0x1_0000_0000_0000_0000);
                vstd::arithmetic::div_mod::lemma_div_is_ordered((len * w) as int, (c * n) as int, w as int);
                vstd::arithmetic::div_mod::lemma_div_by_multiple(len as int, w as int);
            }
        }
        r
    }

    /// The number of blocks the vector can hold without reallocating.
    pub fn block_capacity(&self) -> (r: usize)
        ensures
            r >= blocks_for(self.values().len() * self.spec_width(), Block::spec_nbits()),
    {
        proof {
            use_type_invariant(self);
            assert(self.values().len() == self.base.spec_len());
        }
        self.base.block_capacity()
    }

    /// Pushes an element onto the end of the vector; the value must fit the element width.
    ///
    /// The bits of the elements, plus three blocks, must fit a `u64`.
    pub fn push(&mut self, element_value: Block)
        requires
            element_value.word() <= low_mask(old(self).spec_width()),
            old(self).values().len() * old(self).spec_width() + 3 * Block::spec_nbits()
                <= u64::MAX,
        ensures
            final(self).spec_width() == old(self).spec_width(),
            final(self).values() == old(self).values().push(element_value.word() as nat),
            final(self).spec_bits() == old(self).spec_bits() + word_bits(
                element_value.word(),
                old(self).spec_width(),
            ),
    {
        proof {
            use_type_invariant(&*self);
            lemma_last_block_bound(&self.base, self.element_bits as nat);
            lemma_blocks_for_pad((self.base.spec_len() * self.element_bits) as nat, Block::spec_nbits());
        }
        self.check_value(element_value);
        let eb = self.element_bits;
        let ghost old_bits = self.base.bits();
        let ghost len = self.base.spec_len();
        let mut base = VectorBase::new();
        std::mem::swap(&mut base, &mut self.base);
        base.push_bits(eb, element_value);
        self.base = base;
        proof {
            let e = eb as nat;
            Block::lemma_width();
            lemma_last_block_bound(&self.base, e);
            assert(self.base.spec_len() * e == len * e + e) by (nonlinear_arith)
                requires
                    self.base.spec_len() == len + 1,
            ;
            let expected = old(self).values().push(element_value.word() as nat);
            assert forall|i: int| 0 <= i < len + 1 implies #[trigger] self.values()[i]
                == expected[i] by {
                lemma_element_span(i, len + 1, e);
                if i < len {
                    lemma_element_span(i, len, e);
                    assert forall|k: int| i * e <= k < i * e + e implies #[trigger] self.base.bits()[k]
                        == old_bits[k] by {
                        assert(k < len * e);
                    }
                    lemma_values_agree(self.base.bits(), old_bits, len, e, i);
                    lemma_values_agree(self.base.bits(), old_bits, len + 1, e, i);
                } else {
                    assert(i * e == len * e);
                    assert forall|j: int| 0 <= j < e implies #[trigger] self.base.bits()[i * e + j]
                        == bit_of(element_value.word(), j as nat) by {
                        assert(i * e + j < self.base.bits().len());
                    }
                    lemma_value_bits(element_value.word(), self.base.bits(), i * e, e);
                }
            }
            assert(self.values() =~= expected);
            let appended = old(self).spec_bits() + word_bits(element_value.word(), e);
            assert forall|k: int| 0 <= k < self.spec_bits().len() implies #[trigger] self.spec_bits()[k]
                == appended[k] by {
                assert(k < self.base.bits().len());
            }
            assert(self.spec_bits() =~= appended);
        }
    }

    /// Removes and returns the last element, if any.
    pub fn pop(&mut self) -> (r: Option<Block>)
        ensures
            final(self).spec_width() == old(self).spec_width(),
            old(self).values().len() == 0 ==> r is None && final(self).values() == old(self).values(),
            old(self).values().len() > 0 ==> {
                &&& r matches Some(v) && v.word() == old(self).values().last()
                &&& final(self).values() == old(self).values().drop_last()
            },
    {
        proof {
            use_type_invariant(&*self);
        }
        let eb = self.element_bits;
        let ghost old_bits = self.base.bits();
        let ghost len = self.base.spec_len();
        let mut base = VectorBase::new();
        std::mem::swap(&mut base, &mut self.base);
        let r = base.pop_bits(eb);
        self.base = base;
        proof {
            let e = eb as nat;
            Block::lemma_width();
            if len > 0 {
                let v = r->0;
                assert forall|j: nat| #[trigger] bit_of(v.word(), j) == (j < e && old_bits[(len - 1) * e + j]) by {
                    assert(bit_of(v.word(), j) == (j < e && old_bits[(len - 1) * e + j]));
                }
                lemma_bits_word(v.word(), old_bits, (len - 1) * e, e);
                lemma_element_span((len - 1) as int, len, e);
                assert forall|i: int| 0 <= i < len - 1 implies #[trigger] self.values()[i]
                    == old(self).values()[i] by {
                    lemma_element_span(i, (len - 1) as nat, e);
                    lemma_last_block_bound(&self.base, e);
                    assert forall|k: int| i * e <= k < i * e + e implies #[trigger] self.base.bits()[k]
                        == old_bits[k] by {
                        assert(k < self.base.spec_len() * e);
                    }
                    lemma_values_agree(self.base.bits(), old_bits, (len - 1) as nat, e, i);
                    lemma_values_agree(self.base.bits(), old_bits, len, e, i);
                }
                assert(self.values() =~= old(self).values().drop_last());
            } else {
                assert(self.values() =~= old(self).values());
            }
        }
        r
    }

    /// Reads `element_bits` bits at the address of element `element_index` of width
    /// `element_bits`, plus `bit_offset` bits; they must lie within the elements' bits.
    pub fn get_random(&self, bit_offset: u64, element_bits: usize, element_index: u64) -> (r: Block)
        requires
            element_bits <= Block::spec_nbits(),
            element_index * element_bits + bit_offset + element_bits <= self.spec_bits().len(),
            (element_index * element_bits + bit_offset) as nat / Block::spec_nbits() < blocks_for(
                self.spec_bits().len(),
                Block::spec_nbits(),
            ),
        ensures
            r.word() == bits_word(
                self.spec_bits(),
                element_index * element_bits + bit_offset,
                element_bits as nat,
            ),
    {
        proof {
            use_type_invariant(self);
            Block::lemma_width();
            lemma_last_block_bound(&self.base, self.element_bits as nat);
        }
        let address = self.compute_address_random(bit_offset, element_bits, element_index);
        proof {
            assert(self.spec_bits().len() == self.base.spec_len() * self.element_bits);
        }
        let r = self.base.get_bits(self.element_bits, address, element_bits);
        proof {
            let s = self.spec_bits();
            assert forall|j: nat| #[trigger] bit_of(r.word(), j) == (j < element_bits && s[address + j]) by {}
            lemma_bits_word(r.word(), s, address as int, element_bits as nat);
        }
        r
    }

    /// Writes the low `element_bits` bits of `element_value`, which must fit them, at the
    /// address of element `element_index` of width `element_bits`, plus `bit_offset` bits;
    /// they must lie within the elements' bits.
    pub fn set_random(
        &mut self,
        bit_offset: u64,
        element_bits: usize,
        element_index: u64,
        element_value: Block,
    )
        requires
            element_bits <= Block::spec_nbits(),
            element_value.word() <= low_mask(element_bits as nat),
            element_index * element_bits + bit_offset + element_bits <= old(self).spec_bits().len(),
            (element_index * element_bits + bit_offset) as nat / Block::spec_nbits() < blocks_for(
                old(self).spec_bits().len(),
                Block::spec_nbits(),
            ),
        ensures
            final(self).spec_width() == old(self).spec_width(),
            final(self).spec_bits() == overwrite(
                old(self).spec_bits(),
                element_index * element_bits + bit_offset,
                element_bits as int,
                element_value.word(),
            ),
    {
        proof {
            use_type_invariant(&*self);
            Block::lemma_width();
            lemma_last_block_bound(&self.base, self.element_bits as nat);
        }
        Self::check_value_random(element_bits, element_value);
        let address = self.compute_address_random(bit_offset, element_bits, element_index);
        proof {
            assert(self.spec_bits().len() == self.base.spec_len() * self.element_bits);
        }
        let eb = self.element_bits;
        let mut base = VectorBase::new();
        std::mem::swap(&mut base, &mut self.base);
        base.set_bits(eb, address, element_bits, element_value);
        self.base = base;
        proof {
            assert(self.spec_bits() =~= overwrite(
                old(self).spec_bits(),
                element_index * element_bits + bit_offset,
                element_bits as int,
                element_value.word(),
            ));
        }
    }

    /// Resizes to `n_elements` elements; new elements are the low bits of `fill`.
    ///
    /// The bits of the new length, rounded up to blocks, plus a block, must fit a `u64`, and
    /// its blocks a `usize`.
    pub fn resize(&mut self, n_elements: u64, fill: Block)
        requires
            n_elements * old(self).spec_width() + Block::spec_nbits() - 1 <= u64::MAX,
            blocks_for((n_elements * old(self).spec_width()) as nat, Block::spec_nbits())
                <= usize::MAX,
            blocks_for((n_elements * old(self).spec_width()) as nat, Block::spec_nbits())
                * Block::spec_nbits() + Block::spec_nbits() <= u64::MAX,
        ensures
            final(self).spec_width() == old(self).spec_width(),
            final(self).values() == if n_elements <= old(self).values().len() {
                old(self).values().take(n_elements as int)
            } else {
                old(self).values() + Seq::new(
                    (n_elements - old(self).values().len()) as nat,
                    |i: int| (fill.word() & low_mask(old(self).spec_width())) as nat,
                )
            },
    {
        proof {
            use_type_invariant(&*self);
            Block::lemma_width();
        }
        let ghost e = self.element_bits as nat;
        let ghost len = self.base.spec_len();
        let ghost old_bits = self.base.bits();
        let eb = self.element_bits;
        let mut base = VectorBase::new();
        std::mem::swap(&mut base, &mut self.base);
        base.resize(eb, n_elements, fill);
        self.base = base;
        proof {
            let m = fill.word() & low_mask(e);
            let expected = if n_elements <= len {
                old(self).values().take(n_elements as int)
            } else {
                old(self).values() + Seq::new((n_elements - len) as nat, |i: int| m as nat)
            };
            lemma_last_block_bound(&self.base, e);
            assert forall|i: int| 0 <= i < n_elements implies #[trigger] self.values()[i]
                == expected[i] by {
                lemma_element_span(i, n_elements as nat, e);
                if i < len {
                    lemma_element_span(i, len, e);
                    assert forall|k: int| i * e <= k < i * e + e implies #[trigger] self.base.bits()[k]
                        == old_bits[k] by {
                        assert(k < len * e);
                    }
                    lemma_values_agree(self.base.bits(), old_bits, n_elements as nat, e, i);
                    lemma_values_agree(self.base.bits(), old_bits, len, e, i);
                } else {
                    assert(len * e <= i * e) by (nonlinear_arith)
                        requires
                            len <= i,
                    ;
                    assert forall|j: int| 0 <= j < e implies #[trigger] self.base.bits()[i * e + j]
                        == bit_of(m, j as nat) by {
                        vstd::arithmetic::div_mod::lemma_fundamental_div_mod_converse(
                            i * e + j,
                            e as int,
                            i,
                            j,
                        );
                        crate::bits::lemma_and_bits(fill.word(), low_mask(e), j as nat);
                        crate::bits::lemma_low_mask_bits(e);
                    }
                    crate::bits::lemma_word_facts(fill.word(), low_mask(e), 0);
                    lemma_value_bits(m, self.base.bits(), i * e, e);
                }
            }
            assert(self.values() =~= expected);
        }
    }

    /// Keeps the first `n_elements` elements; does nothing if there are not more.
    pub fn truncate(&mut self, n_elements: u64)
        ensures
            final(self).spec_width() == old(self).spec_width(),
            final(self).values() == if n_elements < old(self).values().len() {
                old(self).values().take(n_elements as int)
            } else {
                old(self).values()
            },
    {
        proof {
            use_type_invariant(&*self);
        }
        let ghost e = self.element_bits as nat;
        let ghost len = self.base.spec_len();
        let ghost old_bits = self.base.bits();
        let eb = self.element_bits;
        let mut base = VectorBase::new();
        std::mem::swap(&mut base, &mut self.base);
        base.truncate(eb, n_elements);
        self.base = base;
        proof {
            if n_elements < len {
                assert forall|i: int| 0 <= i < n_elements implies #[trigger] self.values()[i]
                    == old(self).values()[i] by {
                    lemma_element_span(i, n_elements as nat, e);
                    lemma_element_span(i, len, e);
                    lemma_last_block_bound(&self.base, e);
                    assert forall|k: int| i * e <= k < i * e + e implies #[trigger] self.base.bits()[k]
                        == old_bits[k] by {
                        assert(k < n_elements * e);
                    }
                    lemma_values_agree(self.base.bits(), old_bits, n_elements as nat, e, i);
                    lemma_values_agree(self.base.bits(), old_bits, len, e, i);
                }
                assert(self.values() =~= old(self).values().take(n_elements as int));
            }
        }
    }

    /// Resizes to `n_blocks` blocks, filling new blocks with `fill`; the length becomes the
    /// number of elements that fit the blocks.
    pub fn block_resize(&mut self, n_blocks: usize, fill: Block)
        requires
            n_blocks * Block::spec_nbits() + Block::spec_nbits() <= u64::MAX,
        ensures
            final(self).spec_width() == old(self).spec_width(),
            final(self).values() == element_values(
                Seq::new(
                    (n_blocks * Block::spec_nbits()) as nat,
                    |k: int|
                        if k < old(self).spec_bits().len() {
                            old(self).spec_bits()[k]
                        } else if k < blocks_for(old(self).spec_bits().len(), Block::spec_nbits())
                            * Block::spec_nbits() {
                            false
                        } else {
                            bit_of(fill.word(), (k % Block::spec_nbits() as int) as nat)
                        },
                ),
                (n_blocks * Block::spec_nbits()) as nat / old(self).spec_width(),
                old(self).spec_width(),
            ),
    {
        proof {
            use_type_invariant(&*self);
            Block::lemma_width();
            lemma_last_block_bound(&self.base, self.element_bits as nat);
        }
        let ghost e = self.element_bits as nat;
        let ghost old_bits = self.base.bits();
        let ghost ob = old(self).spec_bits();
        let eb = self.element_bits;
        let mut base = VectorBase::new();
        std::mem::swap(&mut base, &mut self.base);
        base.block_resize(eb, n_blocks, fill);
        self.base = base;
        proof {
            let n = Block::spec_nbits();
            let pattern = Seq::new(
                (n_blocks * n) as nat,
                |k: int|
                    if k < ob.len() {
                        ob[k]
                    } else if k < blocks_for(ob.len(), n) * n {
                        false
                    } else {
                        bit_of(fill.word(), (k % n as int) as nat)
                    },
            );
            let len2 = self.base.spec_len();
            lemma_last_block_bound(&self.base, e);
            assert(len2 * e <= n_blocks * n);
            assert forall|i: int| 0 <= i < len2 implies #[trigger] self.values()[i]
                == element_values(pattern, len2, e)[i] by {
                lemma_element_span(i, len2, e);
                assert forall|k: int| i * e <= k < i * e + e implies #[trigger] self.base.bits()[k]
                    == pattern[k] by {
                    if k < old_bits.len() && k >= ob.len() {
                        assert(!old_bits[k]);
                    }
                }
                lemma_values_agree(self.base.bits(), pattern, len2, e, i);
            }
            assert(self.values() =~= element_values(pattern, len2, e));
        }
    }

    /// Keeps the first `n_blocks` blocks; does nothing if there are not more. The length
    /// becomes the number of elements that fit the blocks.
    pub fn block_truncate(&mut self, n_blocks: usize)
        ensures
            final(self).spec_width() == old(self).spec_width(),
            final(self).values() == if n_blocks < blocks_for(
                old(self).spec_bits().len(),
                Block::spec_nbits(),
            ) {
                old(self).values().take(
                    ((n_blocks * Block::spec_nbits()) as nat / old(self).spec_width()) as int,
                )
            } else {
                old(self).values()
            },
    {
        proof {
            use_type_invariant(&*self);
            Block::lemma_width();
            lemma_last_block_bound(&self.base, self.element_bits as nat);
        }
        let ghost e = self.element_bits as nat;
        let ghost len = self.base.spec_len();
        let ghost old_bits = self.base.bits();
        let eb = self.element_bits;
        let mut base = VectorBase::new();
        std::mem::swap(&mut base, &mut self.base);
        base.block_truncate(eb, n_blocks);
        self.base = base;
        proof {
            if n_blocks < old(self).base.blocks().len() {
                let len2 = self.base.spec_len();
                lemma_last_block_bound(&self.base, e);
                let n = Block::spec_nbits();
                let ob = old(self).base.blocks().len();
                assert(len2 <= len) by (nonlinear_arith)
                    requires
                        len2 * e <= n_blocks * n,
                        n_blocks < ob,
                        ob * n <= len * e + n - 1,
                        len2 == ((n_blocks * n) as nat) / e,
                        e > 0,
                        n > 0,
                {
                    vstd::arithmetic::div_mod::lemma_fundamental_div_mod((n_blocks * n) as int, e as int);
                    lemma_blocks_for_pad((len * e) as nat, n);
                }
                assert forall|i: int| 0 <= i < len2 implies #[trigger] self.values()[i]
                    == old(self).values()[i] by {
                    lemma_element_span(i, len2, e);
                    lemma_element_span(i, len, e);
                    assert forall|k: int| i * e <= k < i * e + e implies #[trigger] self.base.bits()[k]
                        == old_bits[k] by {
                        assert(k < len2 * e);
                    }
                    lemma_values_agree(self.base.bits(), old_bits, len2, e, i);
                    lemma_values_agree(self.base.bits(), old_bits, len, e, i);
                }
                assert(self.values() =~= old(self).values().take(len2 as int));
            }
        }
    }

    /// Reserves capacity for at least `additional` more elements.
    ///
    /// The bits of the resulting length, plus a block, must fit a `u64`, and its blocks a
    /// `usize`.
    pub fn reserve(&mut self, additional: u64)
        requires
            old(self).values().len() + additional <= u64::MAX,
            (old(self).values().len() + additional) * old(self).spec_width() + Block::spec_nbits()
                - 1 <= u64::MAX,
            blocks_for(
                ((old(self).values().len() + additional) * old(self).spec_width()) as nat,
                Block::spec_nbits(),
            ) <= usize::MAX,
        ensures
            final(self).spec_width() == old(self).spec_width(),
            final(self).values() == old(self).values(),
    {
        proof {
            use_type_invariant(&*self);
        }
        let eb = self.element_bits;
        let mut base = VectorBase::new();
        std::mem::swap(&mut base, &mut self.base);
        base.reserve(eb, additional);
        proof {
            assert(base.bits() == old(self).base.bits());
        }
        self.base = base;
    }

    /// Reserves capacity for at least `additional` more blocks.
    pub fn block_reserve(&mut self, additional: usize)
        ensures
            final(self).spec_width() == old(self).spec_width(),
            final(self).values() == old(self).values(),
    {
        proof {
            use_type_invariant(&*self);
        }
        let mut base = VectorBase::new();
        std::mem::swap(&mut base, &mut self.base);
        base.block_reserve(additional);
        proof {
            assert(base.bits() == old(self).base.bits());
        }
        self.base = base;
    }

    /// Reserves capacity for exactly `additional` more elements, if needed.
    ///
    /// The blocks of the resulting length must also fit `isize::MAX` bytes.
    pub fn reserve_exact(&mut self, additional: u64)
        requires
            old(self).values().len() + additional <= u64::MAX,
            (old(self).values().len() + additional) * old(self).spec_width() + Block::spec_nbits()
                - 1 <= u64::MAX,
            blocks_for(
                ((old(self).values().len() + additional) * old(self).spec_width()) as nat,
                Block::spec_nbits(),
            ) <= usize::MAX,
            blocks_for(
                ((old(self).values().len() + additional) * old(self).spec_width()) as nat,
                Block::spec_nbits(),
            ) * (Block::spec_nbits() / 8) <= isize::MAX,
        ensures
            final(self).spec_width() == old(self).spec_width(),
            final(self).values() == old(self).values(),
    {
        proof {
            use_type_invariant(&*self);
        }
        let eb = self.element_bits;
        let mut base = VectorBase::new();
        std::mem::swap(&mut base, &mut self.base);
        base.reserve_exact(eb, additional);
        proof {
            assert(base.bits() == old(self).base.bits());
        }
        self.base = base;
    }

    /// Reserves capacity for exactly `additional` more blocks, if needed.
    ///
    /// The resulting blocks must fit a `usize` and `isize::MAX` bytes.
    pub fn block_reserve_exact(&mut self, additional: usize)
        requires
            blocks_for(old(self).values().len() * old(self).spec_width(), Block::spec_nbits())
                + additional <= usize::MAX,
            (blocks_for(old(self).values().len() * old(self).spec_width(), Block::spec_nbits())
                + additional) * (Block::spec_nbits() / 8) <= isize::MAX,
        ensures
            final(self).spec_width() == old(self).spec_width(),
            final(self).values() == old(self).values(),
    {
        proof {
            use_type_invariant(&*self);
        }
        let mut base = VectorBase::new();
        std::mem::swap(&mut base, &mut self.base);
        base.block_reserve_exact(additional);
        proof {
            assert(base.bits() == old(self).base.bits());
        }
        self.base = base;
    }

    /// Shrinks the capacity to just fit the elements.
    pub fn shrink_to_fit(&mut self)
        ensures
            final(self).spec_width() == old(self).spec_width(),
            final(self).values() == old(self).values(),
    {
        proof {
            use_type_invariant(&*self);
        }
        let mut base = VectorBase::new();
        std::mem::swap(&mut base, &mut self.base);
        base.shrink_to_fit();
        proof {
            assert(base.bits() == old(self).base.bits());
        }
        self.base = base;
    }

    /// All the elements, in order.
    pub fn iter(&self) -> (r: Vec<Block>)
        ensures
            r@.len() == self.values().len(),
            forall|i: int| 0 <= i < r@.len() ==> #[trigger] r@[i].word() == self.values()[i],
    {
        proof {
            use_type_invariant(self);
        }
        let len = self.base.len();
        let mut r: Vec<Block> = Vec::new();
        let mut i: u64 = 0;
        while i < len
            invariant
                len == self.values().len(),
                i <= len,
                r@.len() == i,
                forall|k: int| 0 <= k < i ==> #[trigger] r@[k].word() == self.values()[k],
            decreases len - i,
        {
            let v = self.get(i);
            r.push(v);
            i = i + 1;
        }
        r
    }

    /// Empties the vector, keeping its storage.
    pub fn clear(&mut self)
        ensures
            final(self).spec_width() == old(self).spec_width(),
            final(self).values() == Seq::<nat>::empty(),
    {
        proof {
            use_type_invariant(&*self);
        }
        let mut base = VectorBase::new();
        std::mem::swap(&mut base, &mut self.base);
        base.clear();
        self.base = base;
        proof {
            assert(self.values() =~= Seq::<nat>::empty());
        }
    }

    /// Whether the element width equals the block width.
    pub fn is_block_sized(&self) -> (r: bool)
        ensures
            r == (self.spec_width() == Block::spec_nbits()),
    {
        self.element_bits() == Block::nbits()
    }

    /// Whether elements are aligned within blocks: the element width divides the block width.
    pub fn is_aligned(&self) -> (r: bool)
        ensures
            r == (Block::spec_nbits() % self.spec_width() == 0),
    {
        proof {
            use_type_invariant(self);
        }
        Block::nbits() % self.element_bits() == 0
    }
}

impl<Block: BlockType> BitVec for IntVector<Block> {
    type Block = Block;

    closed spec fn spec_bits(&self) -> Seq<bool> {
        self.base.bits().take(self.base.spec_len() * self.element_bits)
    }

    fn bit_len(&self) -> (r: u64) {
        proof {
            use_type_invariant(self);
            lemma_last_block_bound(&self.base, self.element_bits as nat);
        }
        self.element_bits as u64 * self.base.len()
    }

    fn block_len(&self) -> (r: usize) {
        proof {
            use_type_invariant(self);
            lemma_last_block_bound(&self.base, self.element_bits as nat);
        }
        self.base.block_len()
    }

    fn get_block(&self, position: usize) -> (r: Block) {
        proof {
            use_type_invariant(self);
            Block::lemma_width();
            lemma_last_block_bound(&self.base, self.element_bits as nat);
        }
        let r = self.base.get_block(position);
        proof {
            let n = Block::spec_nbits();
            let s = self.spec_bits();
            Block::lemma_word(r);
            lemma_bits_from_fits(r.word(), n);
            assert forall|j: nat| #[trigger]
                bit_of(r.word(), j) == (j < n && position * n + j < s.len() && s[position * n + j]) by {
                if j < n {
                    lemma_seq_bit_at(self.base.blocks(), position as int, j as int);
                    assert(position * n + j < self.base.blocks().len() * n) by (nonlinear_arith)
                        requires
                            position < self.base.blocks().len(),
                            j < n,
                    ;
                    let k = position * n + j;
                    if k >= s.len() {
                        assert(!self.base.bits()[k]);
                    }
                }
            }
        }
        r
    }
}

impl<Block: BlockType> BitVecMut for IntVector<Block> {
    fn set_block(&mut self, position: usize, value: Block) {
        proof {
            use_type_invariant(&*self);
            lemma_last_block_bound(&self.base, self.element_bits as nat);
        }
        let eb = self.element_bits;
        let mut base = VectorBase::new();
        std::mem::swap(&mut base, &mut self.base);
        base.set_block(eb, position, value);
        self.base = base;
        proof {
            assert(self.spec_bits() =~= overwrite(
                old(self).spec_bits(),
                position * Block::spec_nbits(),
                Block::spec_nbits() as int,
                value.word(),
            ));
        }
    }
}

impl<Block: BlockType> IntVector<Block> {
    /// The bits of the vector are its elements' bits laid end to end; the elements are of
    /// a valid width, and the bits and their blocks fit the machine.
    pub(crate) proof fn lemma_bit_bounds(&self)
        requires
            self.inv(),
        ensures
            0 < self.spec_width() <= Block::spec_nbits(),
            self.spec_bits().len() == self.values().len() * self.spec_width(),
            self.spec_bits().len() + Block::spec_nbits() <= u64::MAX,
            blocks_for(self.spec_bits().len(), Block::spec_nbits()) <= usize::MAX,
    {
        lemma_last_block_bound(&self.base, self.element_bits as nat);
        lemma_block_count_fits(&self.base);
    }

    /// The elements that the `IntVec` interface speaks of are the values, of the same width.
    pub proof fn lemma_elements_are_values(&self)
        ensures
            self.spec_elements() == self.values(),
            self.spec_element_bits() == self.spec_width(),
    {
    }
}

impl<Block: BlockType> IntVec for IntVector<Block> {
    type Block = Block;

    closed spec fn spec_elements(&self) -> Seq<nat> {
        self.values()
    }

    closed spec fn spec_element_bits(&self) -> nat {
        self.spec_width()
    }

    fn len(&self) -> (r: u64) {
        self.base.len()
    }

    fn element_bits(&self) -> (r: usize) {
        self.element_bits
    }

    fn get(&self, element_index: u64) -> (r: Block) {
        proof {
            use_type_invariant(self);
            Block::lemma_width();
            lemma_last_block_bound(&self.base, self.element_bits as nat);
            lemma_element_span(element_index as int, self.base.spec_len(), self.element_bits as nat);
        }
        let ghost e = self.element_bits as nat;
        let ghost i = element_index as int;
        if self.is_block_sized() {
            proof {
                lemma_block_count_fits(&self.base);
                crate::bit_vec::traits::lemma_blocks_for_exact(self.base.spec_len(), e);
                assert(self.base.spec_len() * e == self.base.spec_len() * Block::spec_nbits());
            }
            let r = self.base.get_block(element_index as usize);
            proof {
                Block::lemma_word(r);
                lemma_bits_from_fits(r.word(), e);
                assert forall|j: nat| #[trigger] bit_of(r.word(), j) == (j < e && self.base.bits()[i * e + j]) by {
                    if j < e {
                        lemma_seq_bit_at(self.base.blocks(), i, j as int);
                    }
                }
                lemma_bits_word(r.word(), self.base.bits(), i * e, e);
            }
            return r;
        }
        let address = self.compute_address(element_index);
        proof {
            assert(address as nat / Block::spec_nbits() < self.base.blocks().len()) by (nonlinear_arith)
                requires
                    address + e <= self.base.blocks().len() * Block::spec_nbits(),
                    Block::spec_nbits() > 0,
                    e > 0,
            {
                vstd::arithmetic::div_mod::lemma_fundamental_div_mod(address as int, Block::spec_nbits() as int);
            }
        }
        let r = self.base.get_bits(self.element_bits, address, self.element_bits);
        proof {
            lemma_bits_word(r.word(), self.base.bits(), i * e, e);
        }
        r
    }
}

impl<Block: BlockType> IntVecMut for IntVector<Block> {
    fn set(&mut self, element_index: u64, element_value: Block) {
        proof {
            use_type_invariant(&*self);
            Block::lemma_width();
            lemma_last_block_bound(&self.base, self.element_bits as nat);
            lemma_element_span(element_index as int, self.base.spec_len(), self.element_bits as nat);
        }
        let ghost e = self.element_bits as nat;
        let ghost i = element_index as int;
        let ghost len = self.base.spec_len();
        let ghost old_bits = self.base.bits();
        let eb = self.element_bits;
        if self.is_block_sized() {
            proof {
                lemma_block_count_fits(&self.base);
                crate::bit_vec::traits::lemma_blocks_for_exact(self.base.spec_len(), e);
            }
            let mut base = VectorBase::new();
            std::mem::swap(&mut base, &mut self.base);
            base.set_block(eb, element_index as usize, element_value);
            self.base = base;
            proof {
                let expected = old(self).values().update(i, element_value.word() as nat);
                assert forall|k: int| 0 <= k < len implies #[trigger] self.values()[k] == expected[k] by {
                    lemma_element_span(k, len, e);
                    if k != i {
                        assert forall|m: int| k * e <= m < k * e + e implies #[trigger] self.base.bits()[m]
                            == old_bits[m] by {
                            assert(!(i * e <= m < i * e + e)) by (nonlinear_arith)
                                requires
                                    k != i,
                                    k * e <= m < k * e + e,
                                    e > 0,
                            ;
                        }
                        lemma_values_agree(self.base.bits(), old_bits, len, e, k);
                    } else {
                        Block::lemma_word(element_value);
                        lemma_value_bits(element_value.word(), self.base.bits(), i * e, e);
                    }
                }
                assert(self.values() =~= expected);
            }
            return ;
        }
        self.check_value(element_value);
        let address = self.compute_address(element_index);
        proof {
            assert(address as nat / Block::spec_nbits() < self.base.blocks().len()) by (nonlinear_arith)
                requires
                    address + e <= self.base.blocks().len() * Block::spec_nbits(),
                    Block::spec_nbits() > 0,
                    e > 0,
            {
                vstd::arithmetic::div_mod::lemma_fundamental_div_mod(address as int, Block::spec_nbits() as int);
            }
        }
        let mut base = VectorBase::new();
        std::mem::swap(&mut base, &mut self.base);
        base.set_bits(eb, address, eb, element_value);
        self.base = base;
        proof {
            let expected = old(self).values().update(i, element_value.word() as nat);
            assert forall|k: int| 0 <= k < len implies #[trigger] self.values()[k] == expected[k] by {
                lemma_element_span(k, len, e);
                if k != i {
                    assert forall|m: int| k * e <= m < k * e + e implies #[trigger] self.base.bits()[m]
                        == old_bits[m] by {
                        assert(!(i * e <= m < i * e + e)) by (nonlinear_arith)
                            requires
                                k != i,
                                k * e <= m < k * e + e,
                                e > 0,
                        ;
                    }
                    lemma_values_agree(self.base.bits(), old_bits, len, e, k);
                } else {
                    lemma_value_bits(element_value.word(), self.base.bits(), i * e, e);
                }
            }
            assert(self.values() =~= expected);
        }
    }
}

impl<Block: BlockType> Clone for IntVector<Block> {
    fn clone(&self) -> (r: Self)
        ensures
            r.spec_width() == self.spec_width(),
            r.values() == self.values(),
    {
        proof {
            use_type_invariant(self);
        }
        let base = self.base.clone();
        proof {
            assert(base.bits() == self.base.bits());
        }
        IntVector { element_bits: self.element_bits, base }
    }
}

impl<Block: BlockType> SpaceUsage for IntVector<Block> {
    open spec fn spec_stack_only() -> bool {
        false
    }

    closed spec fn spec_heap_floor(&self) -> nat {
        self.base.spec_heap_floor()
    }

    closed spec fn spec_heap_outcome(&self, h: nat) -> bool {
        self.base.spec_heap_outcome(h)
    }

    fn is_stack_only() -> (r: bool) {
        false
    }

    /// The block buffer.
    fn heap_bytes(&self) -> (r: usize)
        ensures
            r >= blocks_for(self.spec_bits().len(), Block::spec_nbits()) * vstd::layout::size_of::<
                Block,
            >(),
            exists|c: nat|
                #![trigger c * vstd::layout::size_of::<Block>()]
                c >= blocks_for(self.spec_bits().len(), Block::spec_nbits()) && c
                    * vstd::layout::size_of::<Block>() <= isize::MAX && r == c
                    * vstd::layout::size_of::<Block>(),
    {
        proof {
            use_type_invariant(self);
            self.lemma_bit_bounds();
            lemma_last_block_bound(&self.base, self.element_bits as nat);
        }
        self.base.heap_bytes()
    }
}

impl<Block: BlockType> IntVector<Block> {
    /// The storage that holds the elements' bits.
    pub closed spec fn storage(&self) -> VectorBase<Block> {
        self.base
    }

    /// An integer vector owns, on the heap, what its storage owns: its block capacity, at
    /// least the blocks in use and within `isize::MAX` bytes.
    pub proof fn lemma_heap_outcome(&self, h: nat)
        ensures
            self.spec_heap_outcome(h) <==> self.storage().spec_heap_outcome(h),
            self.spec_heap_outcome(h) <==> exists|c: nat|
                #![trigger c * vstd::layout::size_of::<Block>()]
                c >= self.storage().blocks().len() && c * vstd::layout::size_of::<Block>()
                    <= isize::MAX && h == c * vstd::layout::size_of::<Block>(),
    {
        self.base.lemma_heap_outcome(h);
    }
}

} // verus!
