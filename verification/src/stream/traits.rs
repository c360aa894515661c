//! Reading and writing streams of bits.

use vstd::prelude::*;
use std::collections::VecDeque;

verus! {

use crate::bits::{
    bit_of,
    low_mask,
    with_bit_word,
    lemma_with_bit_word,
    lemma_zero_bits,
    lemma_fits_from_bits,
    lemma_or_shift_bits,
    lemma_shr_bits,
    lemma_word_facts,
    lemma_low_mask_bits,
};
use crate::storage::BlockType;
use crate::bit_vec::traits::word_bits;
use crate::errors::out_of_bits;

/// The `nbits` low bits of `w`, most significant first.
pub open spec fn word_bits_be(w: u64, nbits: nat) -> Seq<bool> {
    Seq::new(nbits, |i: int| bit_of(w, (nbits - 1 - i) as nat))
}

/// What `write_int` writes, `read_int` reads back: a word whose bits are the first `nbits` of
/// `word_bits(v, nbits) + rest`, and none above, is `v`, for `v` that fits `nbits` bits.
pub proof fn lemma_read_back_int(v: u64, w: u64, nbits: nat, rest: Seq<bool>)
    requires
        nbits <= 64,
        v <= low_mask(nbits),
        forall|j: nat| #[trigger] bit_of(w, j) == (j < nbits && (word_bits(v, nbits) + rest)[j as int]),
    ensures
        w == v,
{
    crate::bits::lemma_bits_from_fits(v, nbits);
    assert forall|j: nat| j < 64 implies #[trigger] bit_of(w, j) == bit_of(v, j) by {}
    crate::bits::lemma_word_ext(w, v);
}

/// What `write_int_be` writes, `read_int_be` reads back: a word whose bit `j` is bit
/// `nbits - 1 - j` of `word_bits_be(v, nbits) + rest`, and none above, is `v`, for `v` that
/// fits `nbits` bits.
pub proof fn lemma_read_back_int_be(v: u64, w: u64, nbits: nat, rest: Seq<bool>)
    requires
        nbits <= 64,
        v <= low_mask(nbits),
        forall|j: nat| #[trigger] bit_of(w, j) == (j < nbits && (word_bits_be(v, nbits) + rest)[nbits - 1 - j]),
    ensures
        w == v,
{
    crate::bits::lemma_bits_from_fits(v, nbits);
    assert forall|j: nat| j < 64 implies #[trigger] bit_of(w, j) == bit_of(v, j) by {
        if j < nbits {
            assert((word_bits_be(v, nbits) + rest)[nbits - 1 - j] == bit_of(v, j));
        }
    }
    crate::bits::lemma_word_ext(w, v);
}

/// Allows reading bits from a source.
///
/// The source is the sequence of bits not yet read; a source may also fail, with an I/O
/// error, unless it is one whose reads always succeed.
pub trait BitRead {
    /// The bits not yet read.
    spec fn spec_unread(&self) -> Seq<bool>;

    /// Whether reads from this source always succeed.
    spec fn spec_reads_succeed(&self) -> bool;

    /// Reads a single bit from the source.
    ///
    /// End-of-file is indicated by `Ok(None)`.
    fn read_bit(&mut self) -> (r: Result<Option<bool>, std::io::Error>)
        ensures
            old(self).spec_reads_succeed() ==> r is Ok && final(self).spec_reads_succeed(),
            r matches Ok(Some(b)) ==> {
                &&& old(self).spec_unread().len() > 0
                &&& b == old(self).spec_unread()[0]
                &&& final(self).spec_unread() == old(self).spec_unread().drop_first()
            },
            r matches Ok(None) ==> old(self).spec_unread().len() == 0 && final(self).spec_unread()
                == old(self).spec_unread(),
    ;

    /// Reads `nbits` bits as an integer, least-significant bit first.
    ///
    /// `Ok(None)` means the source was already exhausted; running out after the first bit
    /// is an error.
    fn read_int<N: BlockType>(&mut self, nbits: usize) -> (r: Result<Option<N>, std::io::Error>)
        requires
            nbits <= N::spec_nbits(),
        ensures
            old(self).spec_reads_succeed() ==> final(self).spec_reads_succeed() && (r is Err <==> 0
                < old(self).spec_unread().len() < nbits),
            r matches Ok(Some(v)) ==> {
                &&& nbits <= old(self).spec_unread().len()
                &&& final(self).spec_unread() == old(self).spec_unread().skip(nbits as int)
                &&& forall|j: nat| #[trigger]
                    bit_of(v.word(), j) == (j < nbits && old(self).spec_unread()[j as int])
            },
            r matches Ok(None) ==> {
                &&& nbits > 0
                &&& old(self).spec_unread().len() == 0
                &&& final(self).spec_unread() == old(self).spec_unread()
            },
    {
        proof {
            N::lemma_width();
            lemma_zero_bits();
        }
        let ghost start = self.spec_unread();
        let mut result: u64 = 0;
        let mut mask: u64 = 1;
        let mut consumed = false;
        let mut i: usize = 0;
        proof {
            assert(start.skip(0) =~= start);
            lemma_word_facts(0, 0, 0);
        }
        while i < nbits
            invariant
                i <= nbits <= N::spec_nbits() <= 64,
                consumed == (i > 0),
                i <= start.len(),
                self.spec_unread() == start.skip(i as int),
                i < 64 ==> mask == 1u64 << (i as u64),
                forall|j: nat| #[trigger] bit_of(result, j) == (j < i && start[j as int]),
                old(self).spec_reads_succeed() ==> self.spec_reads_succeed(),
                start == old(self).spec_unread(),
            decreases nbits - i,
        {
            let ghost before = self.spec_unread();
            match self.read_bit() {
                Err(e) => {
                    return Err(e);
                },
                Ok(Some(bit)) => {
                    consumed = true;
                    if bit {
                        proof {
                            lemma_with_bit_word(result, i as nat, true);
                        }
                        let ghost prev = result;
                        result = result | mask;
                        proof {
                            assert(result == with_bit_word(prev, i as nat, true));
                        }
                    }
                    proof {
                        lemma_word_facts(1, 0, i as u64);
                        assert(start.skip(i as int).drop_first() =~= start.skip(i + 1));
                    }
                    mask = mask << 1;
                    i = i + 1;
                    proof {
                        if i < 64 {
                            lemma_word_facts(0, 0, i as u64);
                        }
                    }
                },
                Ok(None) => {
                    if consumed {
                        return out_of_bits("BitRead::read_int");
                    } else {
                        return Ok(None);
                    }
                },
            }
        }
        proof {
            assert forall|j: nat| nbits <= j < 64 implies !#[trigger] bit_of(result, j) by {}
            lemma_fits_from_bits(result, nbits as nat);
            crate::bits::lemma_low_mask_mono(nbits as nat, N::spec_nbits());
        }
        Ok(Some(N::from_word(result)))
    }

    /// Reads `nbits` bits as an integer, most-significant bit first.
    ///
    /// `Ok(None)` means the source was already exhausted; running out after the first bit
    /// is an error.
    fn read_int_be<N: BlockType>(&mut self, nbits: usize) -> (r: Result<Option<N>, std::io::Error>)
        requires
            nbits <= N::spec_nbits(),
        ensures
            old(self).spec_reads_succeed() ==> final(self).spec_reads_succeed() && (r is Err <==> 0
                < old(self).spec_unread().len() < nbits),
            r matches Ok(Some(v)) ==> {
                &&& nbits <= old(self).spec_unread().len()
                &&& final(self).spec_unread() == old(self).spec_unread().skip(nbits as int)
                &&& forall|j: nat| #[trigger]
                    bit_of(v.word(), j) == (j < nbits && old(self).spec_unread()[nbits - 1 - j])
            },
            r matches Ok(None) ==> {
                &&& nbits > 0
                &&& old(self).spec_unread().len() == 0
                &&& final(self).spec_unread() == old(self).spec_unread()
            },
    {
        proof {
            N::lemma_width();
            lemma_zero_bits();
        }
        let ghost start = self.spec_unread();
        let mut result: u64 = 0;
        let mut consumed = false;
        let mut i: usize = 0;
        proof {
            assert(start.skip(0) =~= start);
        }
        while i < nbits
            invariant
                i <= nbits <= N::spec_nbits() <= 64,
                consumed == (i > 0),
                i <= start.len(),
                self.spec_unread() == start.skip(i as int),
                forall|j: nat| #[trigger] bit_of(result, j) == (j < i && start[i - 1 - j]),
                old(self).spec_reads_succeed() ==> self.spec_reads_succeed(),
                start == old(self).spec_unread(),
            decreases nbits - i,
        {
            match self.read_bit() {
                Err(e) => {
                    return Err(e);
                },
                Ok(Some(bit)) => {
                    consumed = true;
                    let ghost prev = result;
                    result = result << 1;
                    if bit {
                        result = result | 1;
                    }
                    proof {
                        let low: u64 = if bit {
                            1
                        } else {
                            0
                        };
                        lemma_word_facts(prev, 0, 0);
                        crate::bits::lemma_width_masks();
                        assert(result == (prev << 1u64) | low);
                        assert(low <= low_mask(1));
                        lemma_or_shift_bits(prev, low, 1);
                        assert(bit_of(low, 0) == bit) by {
                            lemma_word_facts(low, 0, 0);
                        }
                        assert forall|j: nat| #[trigger] bit_of(result, j) == (j < i + 1 && start[i
                            - j]) by {
                            if j >= 64 {
                            } else if j == 0 {
                            } else {
                                assert(bit_of(result, j) == bit_of(prev, (j - 1) as nat));
                            }
                        }
                        assert(start.skip(i as int).drop_first() =~= start.skip(i + 1));
                    }
                    i = i + 1;
                },
                Ok(None) => {
                    if consumed {
                        return out_of_bits("BitRead::read_int");
                    } else {
                        return Ok(None);
                    }
                },
            }
        }
        proof {
            assert forall|j: nat| nbits <= j < 64 implies !#[trigger] bit_of(result, j) by {}
            lemma_fits_from_bits(result, nbits as nat);
            crate::bits::lemma_low_mask_mono(nbits as nat, N::spec_nbits());
        }
        Ok(Some(N::from_word(result)))
    }
}

/// Allows writing bits to a sink.
///
/// The sink is the sequence of bits written; a sink may also fail, with an I/O error,
/// unless it is one whose writes always succeed.
pub trait BitWrite {
    /// The bits written so far.
    spec fn spec_written(&self) -> Seq<bool>;

    /// Whether writes to this sink always succeed.
    spec fn spec_writes_succeed(&self) -> bool;

    /// Writes a single bit to the sink.
    fn write_bit(&mut self, value: bool) -> (r: Result<(), std::io::Error>)
        ensures
            old(self).spec_writes_succeed() ==> r is Ok && final(self).spec_writes_succeed(),
            r is Ok ==> final(self).spec_written() == old(self).spec_written().push(value),
    ;

    /// Writes the lower `nbits` of `value`, least-significant first.
    fn write_int<N: BlockType>(&mut self, nbits: usize, value: N) -> (r: Result<(), std::io::Error>)
        requires
            nbits <= N::spec_nbits(),
        ensures
            old(self).spec_writes_succeed() ==> r is Ok && final(self).spec_writes_succeed(),
            r is Ok ==> final(self).spec_written() == old(self).spec_written() + word_bits(
                value.word(),
                nbits as nat,
            ),
    {
        proof {
            N::lemma_width();
        }
        let ghost start = self.spec_written();
        let mut v: u64 = value.to_word();
        let mut i: usize = 0;
        proof {
            lemma_word_facts(v, 0, 0);
            assert(start + word_bits(value.word(), 0) =~= start);
        }
        while i < nbits
            invariant
                i <= nbits <= 64,
                v == value.word() >> (i as u64),
                self.spec_written() == start + word_bits(value.word(), i as nat),
                old(self).spec_writes_succeed() ==> self.spec_writes_succeed(),
                start == old(self).spec_written(),
            decreases nbits - i,
        {
            proof {
                lemma_shr_bits(value.word(), i as nat);
                lemma_word_facts(v, 0, 0);
                assert(bit_of(v, 0) == bit_of(value.word(), i as nat));
            }
            match self.write_bit(v & 1 != 0) {
                Err(e) => {
                    return Err(e);
                },
                Ok(()) => {},
            }
            proof {
                lemma_word_facts(value.word(), 0, i as u64);
                assert(self.spec_written() =~= start + word_bits(value.word(), (i + 1) as nat));
            }
            v = v >> 1;
            i = i + 1;
        }
        Ok(())
    }

    /// Writes the lower `nbits` of `value`, most-significant first.
    fn write_int_be<N: BlockType>(&mut self, nbits: usize, value: N) -> (r: Result<(), std::io::Error>)
        requires
            0 < nbits <= N::spec_nbits(),
        ensures
            old(self).spec_writes_succeed() ==> r is Ok && final(self).spec_writes_succeed(),
            r is Ok ==> final(self).spec_written() == old(self).spec_written() + word_bits_be(
                value.word(),
                nbits as nat,
            ),
    {
        proof {
            N::lemma_width();
        }
        let ghost start = self.spec_written();
        let w = value.to_word();
        let mut mask: u64 = 1u64 << ((nbits - 1) as u64);
        proof {
            lemma_word_facts(w, 0, 0);
        }
        let mut i: usize = 0;
        proof {
            assert(start + word_bits_be(w, nbits as nat).take(0) =~= start);
        }
        while i < nbits
            invariant
                0 < nbits <= 64,
                i <= nbits,
                w == value.word(),
                i < nbits ==> mask == 1u64 << ((nbits - 1 - i) as u64),
                self.spec_written() == start + word_bits_be(w, nbits as nat).take(i as int),
                old(self).spec_writes_succeed() ==> self.spec_writes_succeed(),
                start == old(self).spec_written(),
            decreases nbits - i,
        {
            let ghost k = (nbits - 1 - i) as u64;
            proof {
                lemma_word_facts(w, 0, k);
            }
            match self.write_bit(w & mask != 0) {
                Err(e) => {
                    return Err(e);
                },
                Ok(()) => {},
            }
            proof {
                assert(self.spec_written() =~= start + word_bits_be(w, nbits as nat).take(
                    (i + 1) as int,
                ));
                lemma_word_facts(w, 0, k);
            }
            mask = mask >> 1;
            i = i + 1;
        }
        proof {
            assert(word_bits_be(w, nbits as nat).take(nbits as int) =~= word_bits_be(
                w,
                nbits as nat,
            ));
        }
        Ok(())
    }
}

/// A queue reads from its front; reads never fail.
impl BitRead for VecDeque<bool> {
    open spec fn spec_unread(&self) -> Seq<bool> {
        self@
    }

    open spec fn spec_reads_succeed(&self) -> bool {
        true
    }

    fn read_bit(&mut self) -> (r: Result<Option<bool>, std::io::Error>) {
        let r = self.pop_front();
        proof {
            if r is Some {
                assert(self@ =~= old(self)@.drop_first());
            }
        }
        Ok(r)
    }
}

/// A queue is written at its back; writes never fail.
impl BitWrite for VecDeque<bool> {
    open spec fn spec_written(&self) -> Seq<bool> {
        self@
    }

    open spec fn spec_writes_succeed(&self) -> bool {
        true
    }

    fn write_bit(&mut self, value: bool) -> (r: Result<(), std::io::Error>) {
        self.push_back(value);
        Ok(())
    }
}

} // verus!
