//! A buffer of bits that grows by codes of varying length.

use vstd::prelude::*;

verus! {

use crate::bits::{
    bit_of,
    low_mask,
    word_low_mask,
    lemma_bits_from_fits,
    lemma_low_mask_bits,
    lemma_or_bits,
    lemma_shl_bits,
    lemma_shr_bits,
    lemma_and_bits,
    lemma_zero_bits,
};
use crate::bit_vec::traits::{blocks_for, word_bits, lemma_blocks_for_eq, lemma_blocks_for_exact};
use crate::space_usage::SpaceUsage;

/// Bit `j` of word `k` is bit `64 * k + j` of the buffer.
proof fn lemma_position(k: int, j: int)
    requires
        0 <= k,
        0 <= j < 64,
    ensures
        (64 * k + j) / 64 == k,
        (64 * k + j) % 64 == j,
{
    vstd::arithmetic::div_mod::lemma_fundamental_div_mod_converse(64 * k + j, 64, k, j);
}

/// Bits appended in words of 64, least significant first.
#[derive(Debug, PartialEq, Eq)]
pub struct VarintBuffer {
    buf: Vec<u64>,
    len: usize,
}

impl VarintBuffer {
    /// The bits pushed so far.
    pub closed spec fn bits(&self) -> Seq<bool> {
        Seq::new(self.len as nat, |i: int| bit_of(self.buf@[i / 64], (i % 64) as nat))
    }

    /// The words are those the bits need, and are clear past the bits.
    pub closed spec fn wf(&self) -> bool {
        &&& self.buf.len() == blocks_for(self.len as nat, 64)
        &&& forall|k: int, j: nat|
            0 <= k < self.buf.len() && j < 64 && self.len <= 64 * k + j ==> !#[trigger] bit_of(
                self.buf@[k],
                j,
            )
    }

    /// An empty buffer, with room for `bits` bits.
    pub fn with_capacity(bits: usize) -> (r: Self)
        ensures
            r.wf(),
            r.bits() == Seq::<bool>::empty(),
    {
        proof {
            lemma_blocks_for_exact(0, 64);
        }
        let r = VarintBuffer { buf: Vec::with_capacity(bits / 64), len: 0 };
        proof {
            assert(r.bits() =~= Seq::<bool>::empty());
        }
        r
    }

    /// A buffer holds no more bits than a `usize` counts.
    pub proof fn lemma_len_bound(&self)
        ensures
            self.bits().len() <= usize::MAX,
    {
    }

    /// The number of bits pushed.
    pub fn len(&self) -> (r: usize)
        ensures
            r == self.bits().len(),
    {
        self.len
    }

    /// Appends the low `num_bits` bits of `value`, which has no bits above them.
    pub fn push(&mut self, num_bits: usize, value: u64)
        requires
            old(self).wf(),
            num_bits <= 64,
            value <= low_mask(num_bits as nat),
            old(self).bits().len() + num_bits <= usize::MAX,
        ensures
            final(self).wf(),
            final(self).bits() == old(self).bits() + word_bits(value, num_bits as nat),
    {
        if num_bits == 0 {
            proof {
                assert(old(self).bits() + word_bits(value, 0) =~= old(self).bits());
            }
            return;
        }
        let ghost old_bits = self.bits();
        let ghost l = self.len as int;
        let ghost nb = num_bits as int;
        let block = self.len / 64;
        let offset = self.len % 64;
        proof {
            vstd::arithmetic::div_mod::lemma_fundamental_div_mod(l, 64);
            if offset == 0 {
                lemma_blocks_for_exact(block as nat, 64);
                assert(blocks_for((64 * block) as nat, 64) == block) by {
                    lemma_blocks_for_exact(block as nat, 64);
                }
            } else {
                lemma_blocks_for_eq(l as nat, 64, (block + 1) as nat);
            }
        }
        if self.buf.len() == block || offset + num_bits > 64 {
            self.buf.push(0);
        }
        let ghost mid = self.buf@;
        proof {
            lemma_zero_bits();
            lemma_bits_from_fits(value, num_bits as nat);
            lemma_shl_bits(value, offset as nat);
            lemma_or_bits(self.buf@[block as int], value << (offset as u64));
        }
        let b0 = self.buf[block] | (value << (offset as u64));
        self.buf.set(block, b0);
        if offset + num_bits > 64 {
            proof {
                lemma_shr_bits(value, (64 - offset) as nat);
                lemma_or_bits(self.buf@[block + 1], value >> ((64 - offset) as u64));
            }
            let b1 = self.buf[block + 1] | (value >> ((64 - offset) as u64));
            self.buf.set(block + 1, b1);
        }
        self.len = self.len + num_bits;
        proof {
            let nl = self.len as int;
            if offset + num_bits > 64 {
                lemma_blocks_for_eq(nl as nat, 64, (block + 2) as nat);
            } else {
                lemma_blocks_for_eq(nl as nat, 64, (block + 1) as nat);
            }
            assert forall|k: int, j: nat|
                0 <= k < self.buf.len() && j < 64 && self.len <= 64 * k + j implies !#[trigger] bit_of(
                self.buf@[k],
                j,
            ) by {
                if k == block {
                    assert(!bit_of(mid[k], j));
                } else if k == block + 1 {
                    assert(!bit_of(mid[k], j));
                } else {
                    assert(self.buf@[k] == mid[k]);
                }
            }
            assert forall|i: int| 0 <= i < nl implies #[trigger] self.bits()[i] == (old_bits
                + word_bits(value, num_bits as nat))[i] by {
                let k = i / 64;
                let j = i % 64;
                vstd::arithmetic::div_mod::lemma_fundamental_div_mod(i, 64);
                if i < l {
                    if k == block {
                        assert(j < offset);
                    }
                    assert(self.buf@[k] == mid[k] || k == block || k == block + 1);
                    if k == block + 1 {
                        assert(false);
                    }
                } else {
                    let t = i - l;
                    if t + offset < 64 {
                        lemma_position(block as int, offset + t);
                        assert(!bit_of(mid[block as int], (offset + t) as nat));
                    } else {
                        lemma_position(block + 1, offset + t - 64);
                        assert(!bit_of(mid[block + 1], (offset + t - 64) as nat));
                    }
                }
            }
            assert(self.bits() =~= old_bits + word_bits(value, num_bits as nat));
        }
    }

    /// The `num_bits` bits from position `index`, as the low bits of a word.
    pub fn get(&self, index: usize, num_bits: usize) -> (r: u64)
        requires
            self.wf(),
            num_bits <= 64,
            index + num_bits <= self.bits().len(),
        ensures
            forall|j: nat| #[trigger] bit_of(r, j) == (j < num_bits && self.bits()[index + j]),
    {
        if num_bits == 0 {
            proof {
                lemma_zero_bits();
            }
            return 0;
        }
        let block = index / 64;
        let offset = index % 64;
        let mask = word_low_mask(num_bits);
        proof {
            vstd::arithmetic::div_mod::lemma_fundamental_div_mod(index as int, 64);
            lemma_low_mask_bits(num_bits as nat);
            lemma_shr_bits(self.buf@[block as int], offset as nat);
        }
        let ghost low = self.buf@[block as int] >> (offset as u64);
        let mut ret = (self.buf[block] >> (offset as u64)) & mask;
        if offset + num_bits > 64 {
            proof {
                lemma_shl_bits(self.buf@[block + 1], (64 - offset) as nat);
                lemma_or_bits(ret, self.buf@[block + 1] << ((64 - offset) as u64));
            }
            ret = ret | (self.buf[block + 1] << ((64 - offset) as u64));
        }
        proof {
            assert forall|j: nat| #[trigger] bit_of(ret & mask, j) == (j < num_bits && self.bits()[index
                + j]) by {
                lemma_and_bits(ret, mask, j);
                lemma_and_bits(low, mask, j);
                if j < num_bits {
                    if offset + j < 64 {
                        lemma_position(block as int, offset + j);
                    } else {
                        lemma_position(block + 1, offset + j - 64);
                    }
                }
            }
        }
        ret & mask
    }
}

impl SpaceUsage for VarintBuffer {
    open spec fn spec_stack_only() -> bool {
        false
    }

    closed spec fn spec_heap_floor(&self) -> nat {
        self.buf.spec_heap_floor()
    }

    closed spec fn spec_heap_outcome(&self, h: nat) -> bool {
        self.buf.spec_heap_outcome(h)
    }

    fn is_stack_only() -> (r: bool) {
        false
    }

    fn heap_bytes(&self) -> (r: usize) {
        self.buf.heap_bytes()
    }
}

impl VarintBuffer {
    /// The words that hold the bits.
    pub closed spec fn words(&self) -> Seq<u64> {
        self.buf@
    }

    /// A buffer owns, on the heap, its word buffer's capacity in words: at least the words in
    /// use, and within `isize::MAX` bytes.
    pub proof fn lemma_heap_outcome(&self, h: nat)
        ensures
            self.spec_heap_outcome(h) <==> exists|c: nat|
                #![trigger c * vstd::layout::size_of::<u64>()]
                c >= self.words().len() && c * vstd::layout::size_of::<u64>() <= isize::MAX && h
                    == c * vstd::layout::size_of::<u64>(),
    {
        crate::space_usage::lemma_vec_heap_outcome_stack_only(&self.buf, h);
    }
}

} // verus!
