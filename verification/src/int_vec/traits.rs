//! Arrays of integers of limited width.

use vstd::prelude::*;

verus! {

use crate::bits::{bit_of, low_mask, lemma_word_ext, lemma_shr_bits, lemma_word_facts, lemma_zero_bits};
use crate::storage::BlockType;

/// The number whose binary digits, least significant first, are the `k` bits of `s` from
/// position `start`.
pub open spec fn bits_word(s: Seq<bool>, start: int, k: nat) -> nat
    decreases k,
{
    if k == 0 {
        0
    } else {
        (if s[start] {
            1nat
        } else {
            0nat
        }) + 2 * bits_word(s, start + 1, (k - 1) as nat)
    }
}

/// A word whose bits are the `k` bits of `s` from `start`, and none above, is their number.
pub proof fn lemma_bits_word(w: u64, s: Seq<bool>, start: int, k: nat)
    requires
        k <= 64,
        forall|j: nat| #[trigger] bit_of(w, j) == (j < k && s[start + j]),
    ensures
        w as nat == bits_word(s, start, k),
    decreases k,
{
    if k == 0 {
        lemma_zero_bits();
        lemma_word_ext(w, 0);
    } else {
        lemma_shr_bits(w, 1);
        let h = w >> 1u64;
        assert forall|j: nat| #[trigger] bit_of(h, j) == (j < (k - 1) as nat && s[(start + 1) + j]) by {
            assert(bit_of(h, j) == bit_of(w, j + 1));
        }
        lemma_bits_word(h, s, start + 1, (k - 1) as nat);
        lemma_word_facts(w, 0, 0);
        assert(bit_of(w, 0) == s[start]);
        assert((w >> 0u64) & 1 == w & 1);
    }
}

/// A number read from bits depends only on those bits.
pub proof fn lemma_bits_word_agree(s: Seq<bool>, a: int, t: Seq<bool>, b: int, k: nat)
    requires
        forall|j: int| 0 <= j < k ==> #[trigger] s[a + j] == t[b + j],
    ensures
        bits_word(s, a, k) == bits_word(t, b, k),
    decreases k,
{
    if k > 0 {
        assert(s[a + 0] == t[b + 0]);
        assert forall|j: int| 0 <= j < (k - 1) as nat implies #[trigger] s[(a + 1) + j] == t[(b
            + 1) + j] by {
            assert(s[a + (j + 1)] == t[b + (j + 1)]);
        }
        lemma_bits_word_agree(s, a + 1, t, b + 1, (k - 1) as nat);
    }
}

/// Interface for types that can be accessed as immutable arrays of integers of limited
/// width.
pub trait IntVec {
    /// The type of primitive value to represent elements.
    type Block: BlockType;

    /// The values of the elements.
    spec fn spec_elements(&self) -> Seq<nat>;

    /// The width of each element in bits.
    spec fn spec_element_bits(&self) -> nat;

    /// The number of elements.
    fn len(&self) -> (r: u64)
        ensures
            r == self.spec_elements().len(),
    ;

    /// Is the vector empty?
    fn is_empty(&self) -> (r: bool)
        ensures
            r == (self.spec_elements().len() == 0),
    {
        self.len() == 0
    }

    /// The bit width of each element.
    fn element_bits(&self) -> (r: usize)
        ensures
            r == self.spec_element_bits(),
    ;

    /// Fetches the value of the `index`th element.
    fn get(&self, index: u64) -> (r: Self::Block)
        requires
            index < self.spec_elements().len(),
        ensures
            r.word() == self.spec_elements()[index as int],
    ;
}

/// Interface for types that can be accessed as mutable arrays of integers of limited width.
pub trait IntVecMut: IntVec {
    /// Updates the value of the `index`th element; the value must fit the element width.
    fn set(&mut self, index: u64, value: Self::Block)
        requires
            index < old(self).spec_elements().len(),
            value.word() <= low_mask(old(self).spec_element_bits()),
        ensures
            final(self).spec_element_bits() == old(self).spec_element_bits(),
            final(self).spec_elements() == old(self).spec_elements().update(
                index as int,
                value.word() as nat,
            ),
    ;
}

} // verus!
