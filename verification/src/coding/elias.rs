//! Elias codes.

use vstd::prelude::*;

verus! {

use vstd::std_specs::bits::{u64_leading_zeros, axiom_u64_leading_zeros};
use crate::bits::{bit_of, lemma_or_bits, lemma_shl_bits, lemma_word_ext, lemma_word_facts};
use crate::bit_vec::traits::word_bits;
use crate::errors::{out_of_bits, too_many_bits};
use crate::stream::traits::{BitRead, BitWrite, word_bits_be};
use crate::storage::BlockType;
use super::traits::UniversalCode;
use super::unary::Unary;
use super::trans::Lift0;

/// An Elias code.
///
/// Elias codes do not handle 0.
///
/// An Elias code first encodes the size of the number using some other code—this is the
/// `Header` parameter.
pub struct Elias<Header: UniversalCode>(pub Header);

/// An Elias gamma code encodes the header in unary.
pub type Gamma = Elias<Unary>;

/// An Elias delta code encodes the header using the Elias gamma code.
pub type Delta = Elias<Lift0<Gamma>>;

const WORD_BITS: u32 = 64;

/// The position of the highest one of `v`.
pub open spec fn high_bit(v: u64) -> nat {
    (63 - u64_leading_zeros(v)) as nat
}

/// A nonzero word has a one at its highest bit and none above.
proof fn lemma_high_bit(v: u64)
    requires
        v != 0,
    ensures
        high_bit(v) < 64,
        u64_leading_zeros(v) == 63 - high_bit(v),
        bit_of(v, high_bit(v)),
        forall|j: nat| high_bit(v) < j ==> !#[trigger] bit_of(v, j),
{
    axiom_u64_leading_zeros(v);
    let hb = high_bit(v);
    lemma_word_facts(v, 0, hb as u64);
    assert forall|j: nat| high_bit(v) < j implies !#[trigger] bit_of(v, j) by {
        if j < 64 {
            assert((v >> (j as u64)) & 1u64 == 0u64);
        }
    }
}

/// The word one has no bit above bit zero.
proof fn lemma_one_high_bits(s: u64)
    by (bit_vector)
    requires
        0 < s < 64,
    ensures
        (1u64 >> s) & 1 == 0,
{
}

/// The low `hb` bits of `v`, with bit `hb` set, are `v` where `hb` is its highest bit.
proof fn lemma_rejoin(v: u64, low: u64, hb: nat)
    requires
        v != 0,
        hb == high_bit(v),
        forall|j: nat| #[trigger] bit_of(low, j) == (j < hb && bit_of(v, j)),
    ensures
        low | (1u64 << (hb as u64)) == v,
{
    lemma_high_bit(v);
    lemma_shl_bits(1, hb);
    lemma_or_bits(low, 1u64 << (hb as u64));
    lemma_word_facts(1, 0, 0);
    assert forall|j: nat| j < 64 implies #[trigger] bit_of(low | (1u64 << (hb as u64)), j) == bit_of(
        v,
        j,
    ) by {
        if j != hb {
            if j > hb {
                lemma_one_high_bits((j - hb) as u64);
            }
        }
    }
    lemma_word_ext(low | (1u64 << (hb as u64)), v);
}

impl<Header: UniversalCode> UniversalCode for Elias<Header> {
    open spec fn spec_code(&self, value: u64) -> Seq<bool> {
        self.0.spec_code(high_bit(value) as u64) + word_bits(value, high_bit(value))
    }

    open spec fn spec_encodable(&self, value: u64) -> bool {
        value != 0 && self.0.spec_encodable(high_bit(value) as u64)
    }

    open spec fn spec_encodes(&self, value: u64) -> bool {
        self.0.spec_encodes(high_bit(value) as u64)
    }

    open spec fn spec_round_trips(&self, value: u64) -> bool {
        value != 0 && self.0.spec_round_trips(high_bit(value) as u64)
    }

    open spec fn spec_decodable(&self, input: Seq<bool>) -> bool {
        self.0.spec_decodable(input)
    }

    open spec fn spec_is_end(&self, input: Seq<bool>) -> bool {
        self.0.spec_is_end(input)
    }

    /// The header's bits for the position of the highest one, then the bits below it.
    open spec fn spec_reads_as(&self, word: Seq<bool>, value: u64) -> bool {
        &&& value != 0
        &&& high_bit(value) <= word.len()
        &&& self.0.spec_reads_as(word.take(word.len() - high_bit(value)), high_bit(value) as u64)
        &&& word.skip(word.len() - high_bit(value)) == word_bits(value, high_bit(value))
    }

    fn encode<W: BitWrite>(&self, sink: &mut W, value: u64) -> (r: Result<(), std::io::Error>) {
        proof {
            lemma_high_bit(value);
        }
        let nbits: u32 = WORD_BITS - 1 - value.leading_zeros();
        let ghost start = sink.spec_written();
        match self.0.encode(sink, nbits as u64) {
            Err(e) => {
                return Err(e);
            },
            Ok(()) => {},
        }
        let r = sink.write_int(nbits as usize, value);
        proof {
            if r is Ok {
                assert(sink.spec_written() =~= start + self.spec_code(value));
            }
        }
        r
    }

    fn decode<R: BitRead>(&self, source: &mut R) -> (r: Result<Option<u64>, std::io::Error>) {
        let ghost start = source.spec_unread();
        match self.0.decode(source) {
            Err(e) => {
                proof {
                    assert forall|v: u64, rest: Seq<bool>|
                        old(source).spec_reads_succeed() && self.spec_round_trips(v) && start
                            == #[trigger] (self.spec_code(v) + rest) implies false by {
                        assert(start == self.0.spec_code(high_bit(v) as u64) + (word_bits(v, high_bit(v)) + rest));
                    }
                }
                Err(e)
            },
            Ok(None) => {
                proof {
                    assert forall|v: u64, rest: Seq<bool>|
                        old(source).spec_reads_succeed() && self.spec_round_trips(v) && start
                            == #[trigger] (self.spec_code(v) + rest) implies false by {
                        assert(start == self.0.spec_code(high_bit(v) as u64) + (word_bits(v, high_bit(v)) + rest));
                    }
                }
                Ok(None)
            },
            Ok(Some(nbits)) => {
                let ghost mid = source.spec_unread();
                let ghost k = start.len() - mid.len();
                proof {
                    assert forall|v: u64, rest: Seq<bool>|
                        old(source).spec_reads_succeed() && self.spec_round_trips(v) && start
                            == #[trigger] (self.spec_code(v) + rest) implies nbits == high_bit(v) && mid == word_bits(v, high_bit(v)) + rest by {
                        assert(start == self.0.spec_code(high_bit(v) as u64) + (word_bits(v, high_bit(v)) + rest));
                        lemma_high_bit(v);
                    }
                }
                if nbits > WORD_BITS as u64 - 1 {
                    return too_many_bits("Elias::decode");
                }
                match source.read_int::<u64>(nbits as usize) {
                    Err(e) => Err(e),
                    Ok(None) => out_of_bits("Elias::decode"),
                    Ok(Some(low_bits)) => {
                        let result = low_bits | (1u64 << nbits);
                        proof {
                            assert forall|j: nat| #[trigger] bit_of(low_bits, j) == (j < nbits && mid[j as int]) by {
                                assert(bit_of(low_bits.word(), j) == (j < nbits && mid[j as int]));
                            }
                            let v = result;
                            lemma_shl_bits(1, nbits as nat);
                            lemma_or_bits(low_bits, 1u64 << nbits);
                            lemma_word_facts(1, 0, 0);
                            assert(bit_of(v, nbits as nat));
                            assert(v != 0) by {
                                crate::bits::lemma_zero_bits();
                            }
                            assert forall|j: nat| nbits < j implies !#[trigger] bit_of(v, j) by {
                                if j < 64 {
                                    lemma_one_high_bits((j - nbits) as u64);
                                    assert(bit_of(1u64 << nbits, j) == (nbits <= j < 64 && bit_of(1u64, (j - nbits) as nat)));
                                    assert(!bit_of(low_bits, j));
                                }
                            }
                            lemma_high_bit(v);
                            if high_bit(v) != nbits {
                                assert(!bit_of(v, high_bit(v)) || !bit_of(v, nbits as nat));
                            }
                            let word = start.take(k + nbits);
                            assert(word.take(word.len() - nbits) =~= start.take(k));
                            assert(word.skip(word.len() - nbits) =~= word_bits(v, nbits as nat)) by {
                                assert forall|j: int| 0 <= j < nbits implies #[trigger] word.skip(word.len() - nbits)[j]
                                    == word_bits(v, nbits as nat)[j] by {
                                    assert(bit_of(low_bits, j as nat) == mid[j]);
                                }
                            }
                            assert(source.spec_unread() =~= start.skip(k + nbits));
                            assert forall|w: u64, rest: Seq<bool>|
                                old(source).spec_reads_succeed() && self.spec_round_trips(w) && start
                                    == #[trigger] (self.spec_code(w) + rest) implies result == w && source.spec_unread() == rest by {
                                assert(start == self.0.spec_code(high_bit(w) as u64) + (word_bits(w, high_bit(w)) + rest));
                                lemma_high_bit(w);
                                assert forall|j: nat| #[trigger] bit_of(low_bits, j) == (j < nbits && bit_of(w, j)) by {
                                    if j < nbits {
                                        assert(mid[j as int] == word_bits(w, high_bit(w))[j as int]);
                                    }
                                }
                                lemma_rejoin(w, low_bits, nbits as nat);
                                assert(source.spec_unread() =~= rest);
                            }
                        }
                        Ok(Some(result))
                    },
                }
            },
        }
    }
}

/// An Elias omega code iterates the Elias encoding.
pub struct Omega;

/// The number of bits of `v` up to and including its highest one.
pub open spec fn bit_length(v: u64) -> nat {
    (64 - u64_leading_zeros(v)) as nat
}

/// The value that the omega code writes before `v`: one less than its bit length.
pub open spec fn omega_pred(v: u64) -> u64 {
    (bit_length(v) - 1) as u64
}

/// `n` is below `2^n`.
proof fn lemma_lt_pow2(n: nat)
    ensures
        n < vstd::arithmetic::power2::pow2(n),
    decreases n,
{
    if n == 0 {
        vstd::arithmetic::power2::lemma2_to64();
    } else {
        lemma_lt_pow2((n - 1) as nat);
        vstd::arithmetic::power2::lemma_pow2_unfold(n);
        vstd::arithmetic::power2::lemma_pow2_pos((n - 1) as nat);
    }
}

/// Above one, a value's predecessor in the omega code is smaller, and one less than its bit
/// length; its highest bit is the predecessor.
pub proof fn lemma_omega_pred(v: u64)
    requires
        v >= 2,
    ensures
        omega_pred(v) < v,
        1 <= omega_pred(v) <= 63,
        bit_length(v) == omega_pred(v) + 1,
        high_bit(v) == omega_pred(v),
{
    crate::bits::lemma_highest_bit(v, u64_leading_zeros(v));
    lemma_high_bit(v);
    lemma_lt_pow2(high_bit(v));
    if high_bit(v) == 0 {
        vstd::arithmetic::power2::lemma2_to64();
    }
}

/// The groups that the omega code writes for `v` before its final zero: those of its
/// predecessor, then `v` itself, most significant bit first.
pub open spec fn omega_groups(v: u64) -> Seq<bool>
    decreases v,
{
    if v <= 1 {
        Seq::empty()
    } else {
        proof {
            lemma_omega_pred(v);
        }
        omega_groups(omega_pred(v)) + word_bits_be(v, bit_length(v))
    }
}

/// `u` is among the values whose groups the omega code of `v` writes (or is `v`).
pub open spec fn in_chain(u: u64, v: u64) -> bool
    decreases v,
{
    if u == v {
        true
    } else if v <= 1 {
        false
    } else {
        proof {
            lemma_omega_pred(v);
        }
        in_chain(u, omega_pred(v))
    }
}

/// The groups of the omega code of `v` after those of `u`.
pub open spec fn omega_suffix(u: u64, v: u64) -> Seq<bool>
    decreases v,
{
    if u == v || v <= 1 {
        Seq::empty()
    } else {
        proof {
            lemma_omega_pred(v);
        }
        omega_suffix(u, omega_pred(v)) + word_bits_be(v, bit_length(v))
    }
}

/// The value whose group follows that of `u` in the omega code of `v`.
pub open spec fn chain_next(u: u64, v: u64) -> u64
    decreases v,
{
    if v <= 1 || omega_pred(v) == u {
        v
    } else {
        proof {
            lemma_omega_pred(v);
        }
        chain_next(u, omega_pred(v))
    }
}

/// The chain of `v >= 1` reaches one; its values are at most `v`; the groups of `v` are those
/// of any value on it, then the rest.
proof fn lemma_chain(u: u64, v: u64)
    requires
        v >= 1,
    ensures
        in_chain(1, v),
        in_chain(u, v) ==> u <= v && u >= 1,
        in_chain(u, v) ==> omega_groups(v) == omega_groups(u) + omega_suffix(u, v),
    decreases v,
{
    if v >= 2 {
        lemma_omega_pred(v);
        lemma_chain(u, omega_pred(v));
        if in_chain(u, v) && u != v {
            assert(omega_groups(v) =~= omega_groups(u) + omega_suffix(u, v));
        }
    }
    if u == v {
        assert(omega_groups(v) =~= omega_groups(u) + omega_suffix(u, v));
    }
}

/// After `u != v` on the chain of `v` comes the value whose predecessor is `u`, and its
/// group opens the rest of the code.
proof fn lemma_chain_next(u: u64, v: u64)
    requires
        v >= 1,
        in_chain(u, v),
        u != v,
    ensures
        chain_next(u, v) >= 2,
        omega_pred(chain_next(u, v)) == u,
        in_chain(chain_next(u, v), v),
        omega_suffix(u, v) == word_bits_be(chain_next(u, v), bit_length(chain_next(u, v))) + omega_suffix(
            chain_next(u, v),
            v,
        ),
    decreases v,
{
    lemma_omega_pred(v);
    let p = omega_pred(v);
    if p == u {
        assert(omega_suffix(u, p) == Seq::<bool>::empty());
        assert(omega_suffix(v, v) == Seq::<bool>::empty());
        assert(omega_suffix(u, v) == omega_suffix(u, p) + word_bits_be(v, bit_length(v)));
        assert(omega_suffix(u, v) =~= word_bits_be(v, bit_length(v)) + omega_suffix(v, v));
    } else {
        lemma_chain_next(u, p);
        let w = chain_next(u, p);
        lemma_chain(w, p);
        assert(omega_suffix(u, v) =~= word_bits_be(w, bit_length(w)) + omega_suffix(w, v));
    }
}

/// The bits of a stack of groups, from its top down.
pub open spec fn stack_bits(st: Seq<(usize, u64)>) -> Seq<bool>
    decreases st.len(),
{
    if st.len() == 0 {
        Seq::empty()
    } else {
        word_bits_be(st.last().1, st.last().0 as nat) + stack_bits(st.drop_last())
    }
}

/// A value of `nbits + 1` bits whose top bit is set reads, most significant bit first, as a
/// one and then its low bits.
proof fn lemma_group_bits(w: u64, low: u64, nbits: nat)
    requires
        nbits < 64,
        w == low | (1u64 << (nbits as u64)),
        forall|j: nat| #[trigger] bit_of(low, j) ==> j < nbits,
    ensures
        w != 0,
        high_bit(w) == nbits,
        bit_length(w) == nbits + 1,
        word_bits_be(w, nbits + 1) == seq![true] + word_bits_be(low, nbits),
{
    lemma_shl_bits(1, nbits);
    lemma_or_bits(low, 1u64 << (nbits as u64));
    lemma_word_facts(1, 0, 0);
    assert(bit_of(w, nbits));
    crate::bits::lemma_zero_bits();
    assert forall|j: nat| nbits < j implies !#[trigger] bit_of(w, j) by {
        if j < 64 {
            lemma_one_high_bits((j - nbits) as u64);
            assert(bit_of(1u64 << (nbits as u64), j) == (nbits <= j < 64 && bit_of(1u64, (j - nbits) as nat)));
        }
    }
    lemma_high_bit(w);
    if high_bit(w) != nbits {
        assert(bit_of(w, high_bit(w)));
    }
    assert forall|i: int| 1 <= i < nbits + 1 implies #[trigger] word_bits_be(w, nbits + 1)[i] == word_bits_be(low, nbits)[i - 1] by {
        let j = (nbits - i) as nat;
        assert(bit_of(w, j) == bit_of(low, j));
    }
    assert(word_bits_be(w, nbits + 1) =~= seq![true] + word_bits_be(low, nbits));
}


/// One group of the omega code read: from a value on the chain of `v`, the next value on it.
proof fn lemma_omega_group_step(
    old_result: u64,
    next: u64,
    result: u64,
    unread: Seq<bool>,
    after: Seq<bool>,
    last: Seq<bool>,
    v: u64,
    rest: Seq<bool>,
)
    requires
        1 <= old_result <= 63,
        v >= 1,
        in_chain(old_result, v),
        old_result != v,
        unread == omega_suffix(old_result, v) + seq![false] + rest,
        unread == seq![true] + after,
        after == word_bits_be(next, old_result as nat) + last,
        result == next | (1u64 << old_result),
        forall|j: nat| #[trigger] bit_of(next, j) == (j < old_result && after[old_result - 1 - j]),
    ensures
        in_chain(result, v),
        last == omega_suffix(result, v) + seq![false] + rest,
{
    lemma_chain_next(old_result, v);
    let w = chain_next(old_result, v);
    lemma_omega_pred(w);
    lemma_high_bit(w);
    let tail = omega_suffix(w, v) + seq![false] + rest;
    assert(unread =~= word_bits_be(w, bit_length(w)) + tail);
    assert(word_bits_be(w, bit_length(w)) =~= seq![true] + word_bits_be(w, old_result as nat)) by {
        assert forall|i: int| 1 <= i < old_result + 1 implies #[trigger] word_bits_be(w, bit_length(w))[i]
            == word_bits_be(w, old_result as nat)[i - 1] by {}
    }
    assert(after =~= word_bits_be(w, old_result as nat) + tail) by {
        assert(after =~= unread.drop_first());
    }
    lemma_shl_bits(1, old_result as nat);
    lemma_or_bits(next, 1u64 << old_result);
    lemma_word_facts(1, 0, 0);
    assert forall|j: nat| j < 64 implies #[trigger] bit_of(result, j) == bit_of(w, j) by {
        assert(bit_of(1u64 << old_result, j) == (old_result <= j < 64 && bit_of(1u64, (j - old_result) as nat)));
        if j < old_result {
            assert(after[old_result - 1 - j] == word_bits_be(w, old_result as nat)[old_result - 1 - j]);
            assert(bit_of(next, j) == after[old_result - 1 - j]);
        } else if j > old_result {
            lemma_one_high_bits((j - old_result) as u64);
        }
    }
    lemma_word_ext(result, w);
    assert(last =~= tail) by {
        assert(last =~= after.skip(old_result as int));
    }
}

impl UniversalCode for Omega {
    open spec fn spec_code(&self, value: u64) -> Seq<bool> {
        omega_groups(value).push(false)
    }

    open spec fn spec_encodable(&self, value: u64) -> bool {
        true
    }

    open spec fn spec_encodes(&self, value: u64) -> bool {
        true
    }

    /// Zero has the code word of one, and reads back as one.
    open spec fn spec_round_trips(&self, value: u64) -> bool {
        value >= 1
    }

    open spec fn spec_decodable(&self, input: Seq<bool>) -> bool {
        true
    }

    open spec fn spec_is_end(&self, input: Seq<bool>) -> bool {
        input.len() == 0
    }

    open spec fn spec_reads_as(&self, word: Seq<bool>, value: u64) -> bool {
        value >= 1 && word == omega_groups(value).push(false)
    }

    fn encode<W: BitWrite>(&self, sink: &mut W, value: u64) -> (r: Result<(), std::io::Error>) {
        let ghost v0 = value;
        let mut stack = Vec::<(usize, u64)>::new();
        let mut value = value;
        proof {
            assert(omega_groups(v0) =~= omega_groups(value) + stack_bits(stack@));
        }
        while value > 1
            invariant
                omega_groups(v0) == omega_groups(value) + stack_bits(stack@),
                forall|i: int| 0 <= i < stack.len() ==> 0 < #[trigger] stack@[i].0 <= 64,
            decreases value,
        {
            proof {
                lemma_omega_pred(value);
            }
            let nbits = WORD_BITS - value.leading_zeros();
            let ghost before = stack@;
            stack.push((nbits as usize, value));
            proof {
                assert(stack@.drop_last() =~= before);
                assert(stack_bits(stack@) == word_bits_be(value, bit_length(value)) + stack_bits(before));
                assert(omega_groups(v0) =~= omega_groups(omega_pred(value)) + stack_bits(stack@));
            }
            value = nbits as u64 - 1;
        }
        let ghost start = sink.spec_written();
        proof {
            assert(omega_groups(value) =~= Seq::<bool>::empty());
            assert(omega_groups(v0) =~= stack_bits(stack@));
            assert(start =~= start + Seq::<bool>::empty());
        }
        let ghost mut done: Seq<bool> = Seq::empty();
        while stack.len() > 0
            invariant
                omega_groups(v0) == done + stack_bits(stack@),
                sink.spec_written() == start + done,
                forall|i: int| 0 <= i < stack.len() ==> 0 < #[trigger] stack@[i].0 <= 64,
                old(sink).spec_writes_succeed() ==> sink.spec_writes_succeed(),
                start == old(sink).spec_written(),
            decreases stack.len(),
        {
            let ghost before = stack@;
            let (nbits, value) = stack.pop().unwrap();
            proof {
                assert(before.drop_last() =~= stack@);
                assert(before.last() == (nbits, value));
            }
            match sink.write_int_be(nbits, value) {
                Err(e) => {
                    return Err(e);
                },
                Ok(()) => {},
            }
            proof {
                done = done + word_bits_be(value, nbits as nat);
                assert(omega_groups(v0) =~= done + stack_bits(stack@));
                assert(sink.spec_written() =~= start + done);
            }
        }
        match sink.write_bit(false) {
            Err(e) => {
                return Err(e);
            },
            Ok(()) => {},
        }
        proof {
            assert(stack_bits(stack@) =~= Seq::<bool>::empty());
            assert(sink.spec_written() =~= start + omega_groups(v0).push(false));
        }
        Ok(())
    }

    #[verifier::rlimit(40)]
    fn decode<R: BitRead>(&self, source: &mut R) -> (r: Result<Option<u64>, std::io::Error>) {
        let ghost start = source.spec_unread();
        let mut result: u64 = 1;
        proof {
            assert(start =~= omega_groups(1) + start);
            assert forall|v: u64, rest: Seq<bool>|
                self.spec_round_trips(v) && start == #[trigger] (self.spec_code(v) + rest) implies in_chain(
                result,
                v,
            ) && source.spec_unread() == omega_suffix(result, v) + seq![false] + rest by {
                lemma_chain(1, v);
                assert(start =~= omega_suffix(1, v) + seq![false] + rest);
            }
        }
        loop
            invariant
                start == old(source).spec_unread(),
                result >= 1,
                start == omega_groups(result) + source.spec_unread(),
                result == 1 ==> source.spec_unread() == start,
                old(source).spec_reads_succeed() ==> source.spec_reads_succeed(),
                forall|v: u64, rest: Seq<bool>|
                    self.spec_round_trips(v) && start == #[trigger] (self.spec_code(v) + rest) ==> in_chain(
                        result,
                        v,
                    ) && source.spec_unread() == omega_suffix(result, v) + seq![false] + rest,
            decreases source.spec_unread().len(),
        {
            let ghost unread = source.spec_unread();
            match source.read_bit() {
                Err(e) => {
                    proof {
                        assert forall|v: u64, rest: Seq<bool>|
                            old(source).spec_reads_succeed() && self.spec_round_trips(v) && start
                                == #[trigger] (self.spec_code(v) + rest) implies false by {
                            assert(unread.len() > 0);
                        }
                    }
                    return Err(e);
                },
                Ok(Some(bit)) => {
                    let ghost after = source.spec_unread();
                    proof {
                        assert(unread == seq![bit] + after);
                    }
                    if !bit {
                        proof {
                            let k = start.len() - after.len();
                            assert(start.take(k) =~= omega_groups(result).push(false));
                            assert(after =~= start.skip(k));
                            assert forall|v: u64, rest: Seq<bool>|
                                old(source).spec_reads_succeed() && self.spec_round_trips(v) && start
                                    == #[trigger] (self.spec_code(v) + rest) implies result == v && after == rest by {
                                if result != v {
                                    lemma_chain_next(result, v);
                                    let w = chain_next(result, v);
                                    lemma_omega_pred(w);
                                    lemma_high_bit(w);
                                    assert(unread[0] == word_bits_be(w, bit_length(w))[0]);
                                }
                                assert(after =~= rest);
                            }
                        }
                        return Ok(Some(result));
                    }
                    proof {
                        assert forall|v: u64, rest: Seq<bool>|
                            self.spec_round_trips(v) && start == #[trigger] (self.spec_code(v) + rest) implies result != v by {
                            if result == v {
                                assert(omega_suffix(v, v) == Seq::<bool>::empty());
                                assert(unread =~= seq![false] + rest);
                                assert(unread[0] == false);
                            }
                        }
                    }
                    if result > WORD_BITS as u64 - 1 {
                        proof {
                            assert forall|v: u64, rest: Seq<bool>|
                                old(source).spec_reads_succeed() && self.spec_round_trips(v) && start
                                    == #[trigger] (self.spec_code(v) + rest) implies false by {
                                lemma_chain_next(result, v);
                                lemma_omega_pred(chain_next(result, v));
                            }
                        }
                        return too_many_bits("Omega::decode");
                    }
                    match source.read_int_be::<u64>(result as usize) {
                        Err(e) => {
                            proof {
                                assert forall|v: u64, rest: Seq<bool>|
                                    old(source).spec_reads_succeed() && self.spec_round_trips(v) && start
                                        == #[trigger] (self.spec_code(v) + rest) implies false by {
                                    lemma_chain_next(result, v);
                                    let w = chain_next(result, v);
                                    lemma_omega_pred(w);
                                }
                            }
                            return Err(e);
                        },
                        Ok(None) => {
                            proof {
                                assert forall|v: u64, rest: Seq<bool>|
                                    old(source).spec_reads_succeed() && self.spec_round_trips(v) && start
                                        == #[trigger] (self.spec_code(v) + rest) implies false by {
                                    lemma_chain_next(result, v);
                                    let w = chain_next(result, v);
                                    lemma_omega_pred(w);
                                }
                            }
                            return out_of_bits("Omega::decode");
                        },
                        Ok(Some(next)) => {
                            let ghost last = source.spec_unread();
                            let ghost old_result = result;
                            proof {
                                assert forall|j: nat| #[trigger] bit_of(next, j) == (j < old_result && after[old_result - 1 - j]) by {
                                    assert(bit_of(next.word(), j) == (j < old_result && after[old_result - 1 - j]));
                                }
                                assert(after.take(old_result as int) =~= word_bits_be(next, old_result as nat));
                                assert(after =~= word_bits_be(next, old_result as nat) + last);
                            }
                            result = next | (1 << result);
                            proof {
                                lemma_group_bits(result, next, old_result as nat);
                                if result == 1 {
                                    lemma_high_bit(1);
                                    if high_bit(1) > 0 {
                                        lemma_one_high_bits(high_bit(1) as u64);
                                    }
                                }
                                lemma_omega_pred(result);
                                assert(omega_groups(result) == omega_groups(old_result) + word_bits_be(result, bit_length(result)));
                                assert(start =~= omega_groups(result) + last);
                                assert forall|v: u64, rest: Seq<bool>|
                                    self.spec_round_trips(v) && start == #[trigger] (self.spec_code(v) + rest) implies in_chain(
                                    result,
                                    v,
                                ) && source.spec_unread() == omega_suffix(result, v) + seq![false] + rest by {
                                    lemma_omega_group_step(old_result, next, result, unread, after, last, v, rest);
                                }
                            }
                        },
                    }
                },
                Ok(None) => {
                    proof {
                        assert forall|v: u64, rest: Seq<bool>|
                            old(source).spec_reads_succeed() && self.spec_round_trips(v) && start
                                == #[trigger] (self.spec_code(v) + rest) implies false by {
                            assert(unread.len() > 0);
                        }
                    }
                    if result == 1 {
                        return Ok(None);
                    } else {
                        return out_of_bits("Omega::decode");
                    }
                },
            }
        }
    }
}

} // verus!
