//! The Fibonacci code.

use vstd::prelude::*;

verus! {

use crate::errors::{out_of_bits, too_many_bits};
use crate::stream::traits::{BitRead, BitWrite};
use super::traits::UniversalCode;

/// A Fibonacci code.
pub struct Fibonacci;

/// The Fibonacci numbers from one, one: `fib(n)` is the weight of bit `n - 1` of a code word.
pub open spec fn fib(n: nat) -> nat
    decreases n,
{
    if n <= 1 {
        1
    } else {
        fib((n - 1) as nat) + fib((n - 2) as nat)
    }
}

/// The number that the bits `bs` stand for: the sum of `fib(j + 1)` over the set bits `j`.
pub open spec fn fib_value(bs: Seq<bool>) -> nat
    decreases bs.len(),
{
    if bs.len() == 0 {
        0
    } else {
        fib_value(bs.drop_last()) + if bs.last() {
            fib(bs.len())
        } else {
            0
        }
    }
}

/// The greedy (Zeckendorf) bits of `v` over the weights `fib(1) ..= fib(k)`, lowest first.
pub open spec fn zeck_bits(v: nat, k: nat) -> Seq<bool>
    decreases k,
{
    if k == 0 {
        Seq::empty()
    } else if fib(k) <= v {
        zeck_bits((v - fib(k)) as nat, (k - 1) as nat).push(true)
    } else {
        zeck_bits(v, (k - 1) as nat).push(false)
    }
}

/// No two adjacent bits are both set.
pub open spec fn no_adjacent(bs: Seq<bool>) -> bool {
    forall|j: int| 0 <= j < bs.len() - 1 ==> !(#[trigger] bs[j] && bs[j + 1])
}

/// The index of the largest Fibonacci weight that fits in `v >= 1`.
pub open spec fn fib_index(v: nat) -> nat {
    choose|k: nat| 1 <= k && #[trigger] fib(k) <= v < fib(k + 1)
}

/// The Fibonacci code word of `v`: its greedy bits, then a one, which follows the top one.
pub open spec fn fib_code(v: nat) -> Seq<bool> {
    zeck_bits(v, fib_index(v)).push(true)
}

/// The Fibonacci numbers do not decrease, and increase from the first on; each is at least
/// its index.
proof fn lemma_fib_mono(i: nat, j: nat)
    requires
        i <= j,
    ensures
        fib(i) <= fib(j),
        1 <= i < j ==> fib(i) < fib(j),
        fib(i) >= 1,
        fib(j) >= j,
    decreases j,
{
    if j > 0 {
        if i < j {
            lemma_fib_mono(i, (j - 1) as nat);
        } else {
            lemma_fib_mono((j - 1) as nat, (j - 1) as nat);
        }
        if j >= 2 {
            lemma_fib_mono((j - 2) as nat, (j - 2) as nat);
        }
    }
}

/// Every `v >= 1` lies between two consecutive Fibonacci weights.
proof fn lemma_fib_index(v: nat)
    requires
        v >= 1,
    ensures
        1 <= fib_index(v),
        fib(fib_index(v)) <= v < fib(fib_index(v) + 1),
{
    lemma_fib_bracket(v, 1);
}

/// The index between whose weights `v` lies is the only one.
proof fn lemma_fib_index_unique(v: nat, k: nat)
    requires
        1 <= k,
        fib(k) <= v < fib(k + 1),
    ensures
        k == fib_index(v),
{
    lemma_fib_index(v);
    let k0 = fib_index(v);
    if k < k0 {
        lemma_fib_mono(k + 1, k0);
    } else if k > k0 {
        lemma_fib_mono(k0 + 1, k);
    }
}

/// Starting from a weight no larger than `v`, some later index brackets `v`.
proof fn lemma_fib_bracket(v: nat, k: nat)
    requires
        1 <= k,
        fib(k) <= v,
    ensures
        exists|m: nat| 1 <= m && #[trigger] fib(m) <= v < fib(m + 1),
    decreases v - k,
{
    lemma_fib_mono(k, k + 1);
    if fib(k + 1) <= v {
        lemma_fib_mono(k + 1, k + 1);
        lemma_fib_bracket(v, k + 1);
    } else {
        assert(1 <= k && fib(k) <= v < fib(k + 1));
    }
}

/// The greedy bits of `v < fib(k + 1)` have length `k`, stand for `v`, have no adjacent ones,
/// and their top bit is set where `fib(k) <= v`.
proof fn lemma_zeck(v: nat, k: nat)
    requires
        v < fib(k + 1),
    ensures
        zeck_bits(v, k).len() == k,
        fib_value(zeck_bits(v, k)) == v,
        no_adjacent(zeck_bits(v, k)),
        k >= 1 && fib(k) <= v ==> zeck_bits(v, k).last(),
        k >= 1 && zeck_bits(v, k).last() ==> fib(k) <= v,
    decreases k,
{
    if k == 0 {
    } else {
        let bs = zeck_bits(v, k);
        if fib(k) <= v {
            let r = (v - fib(k)) as nat;
            if k >= 2 {
                assert(fib(k + 1) == fib(k) + fib((k - 1) as nat));
                lemma_fib_mono((k - 1) as nat, k);
            }
            lemma_zeck(r, (k - 1) as nat);
            assert(bs.drop_last() =~= zeck_bits(r, (k - 1) as nat));
            assert forall|j: int| 0 <= j < bs.len() - 1 implies !(#[trigger] bs[j] && bs[j + 1]) by {
                if j < k - 2 {
                    assert(bs[j] == zeck_bits(r, (k - 1) as nat)[j]);
                    assert(bs[j + 1] == zeck_bits(r, (k - 1) as nat)[j + 1]);
                } else if j == k - 2 {
                    assert(bs[j] == zeck_bits(r, (k - 1) as nat).last());
                }
            }
        } else {
            lemma_zeck(v, (k - 1) as nat);
            assert(bs.drop_last() =~= zeck_bits(v, (k - 1) as nat));
            assert forall|j: int| 0 <= j < bs.len() - 1 implies !(#[trigger] bs[j] && bs[j + 1]) by {
                if j < k - 2 {
                    assert(bs[j] == zeck_bits(v, (k - 1) as nat)[j]);
                    assert(bs[j + 1] == zeck_bits(v, (k - 1) as nat)[j + 1]);
                }
            }
        }
    }
}

/// A prefix of bits stands for no more than all of them.
proof fn lemma_prefix_value(bs: Seq<bool>, t: nat)
    requires
        t <= bs.len(),
    ensures
        fib_value(bs.take(t as int)) <= fib_value(bs),
    decreases bs.len() - t,
{
    if t < bs.len() {
        lemma_prefix_value(bs, t + 1);
        assert(bs.take((t + 1) as int).drop_last() =~= bs.take(t as int));
    } else {
        assert(bs.take(t as int) =~= bs);
    }
}

/// Bits stand for zero exactly when none is set.
proof fn lemma_value_zero(bs: Seq<bool>)
    ensures
        (fib_value(bs) == 0) == (forall|j: int| 0 <= j < bs.len() ==> !#[trigger] bs[j]),
    decreases bs.len(),
{
    if bs.len() > 0 {
        lemma_value_zero(bs.drop_last());
        lemma_fib_mono(bs.len(), bs.len());
        if fib_value(bs) == 0 {
            assert forall|j: int| 0 <= j < bs.len() implies !#[trigger] bs[j] by {
                if j < bs.len() - 1 {
                    assert(bs[j] == bs.drop_last()[j]);
                }
            }
        }
        if forall|j: int| 0 <= j < bs.len() ==> !#[trigger] bs[j] {
            assert forall|j: int| 0 <= j < bs.drop_last().len() implies !#[trigger] bs.drop_last()[j] by {
                assert(bs.drop_last()[j] == bs[j]);
            }
            assert(!bs.last());
        }
    }
}

/// What the code word of a value that round-trips is made of.
proof fn lemma_code_facts(v: nat)
    requires
        v >= 1,
    ensures
        1 <= fib_index(v),
        zeck_bits(v, fib_index(v)).len() == fib_index(v),
        fib_value(zeck_bits(v, fib_index(v))) == v,
        no_adjacent(zeck_bits(v, fib_index(v))),
        zeck_bits(v, fib_index(v)).last(),
{
    lemma_fib_index(v);
    lemma_zeck(v, fib_index(v));
}

/// Reading bit `k` of an input that is the code word of `v` and more: a bit of the greedy bits,
/// or after them the closing one.
#[verifier::rlimit(80)]
#[verifier::spinoff_prover]
proof fn lemma_read_step(
    start: Seq<bool>,
    bs: Seq<bool>,
    bit: bool,
    after: Seq<bool>,
    v: nat,
    rest: Seq<bool>,
)
    requires
        v >= 1,
        start == fib_code(v) + rest,
        start == bs.push(bit) + after,
        bs.len() <= fib_index(v),
        bs == zeck_bits(v, fib_index(v)).take(bs.len() as int),
    ensures
        bs.len() < fib_index(v) ==> bit == zeck_bits(v, fib_index(v))[bs.len() as int],
        bs.len() < fib_index(v) ==> bs.push(bit) == zeck_bits(v, fib_index(v)).take((bs.len() + 1) as int),
        bs.len() == fib_index(v) ==> bit && after == rest && bs == zeck_bits(v, fib_index(v)),
        bs.len() > 0 && bs.last() && bit ==> bs.len() == fib_index(v),
        bs.len() < fib_index(v) && bit ==> fib_value(bs) + fib(bs.len() + 1) <= v,
        bs.len() < fib_index(v) ==> fib(bs.len() + 2) <= fib(fib_index(v) + 1),
{
    let k = bs.len();
    let kv = fib_index(v);
    let zb = zeck_bits(v, kv);
    assert(zb.len() == kv && no_adjacent(zb)) by {
        lemma_code_facts(v);
    }
    assert(start[k as int] == bit);
    assert(start[k as int] == (zb.push(true) + rest)[k as int]);
    if k == kv {
        assert(after =~= rest) by {
            assert(after =~= start.skip((k + 1) as int));
        }
        assert(bs =~= zb);
    } else {
        assert(bs.push(bit) =~= zb.take((k + 1) as int));
        assert(fib_value(bs) + (if bit { fib(k + 1) } else { 0 }) <= v) by {
            lemma_code_facts(v);
            lemma_prefix_value(zb, k + 1);
            assert(zb.take((k + 1) as int).drop_last() =~= bs);
        }
        assert(fib(k + 2) <= fib(kv + 1)) by {
            lemma_fib_mono(k + 2, kv + 1);
        }
        if k > 0 && bs.last() && bit {
            assert(zb[k - 1] == bs[k - 1]);
            assert(!(zb[k - 1] && zb[k as int]));
        }
    }
}

/// A pair of weights; the codes keep them two consecutive Fibonacci numbers, `i_1 == fib(k)`
/// and `i == fib(k + 1)`.
struct Fib {
    i_1: u64,
    i: u64,
}

impl Fib {
    /// The first two weights.
    fn new() -> (r: Self)
        ensures
            r.i_1 == fib(0),
            r.i == fib(1),
    {
        Fib { i_1: 1, i: 1 }
    }

    /// Moves one weight up, to the pair `(i, i_1 + i)`; fails, leaving the pair as it was,
    /// where the sum does not fit a `u64`.
    fn next(&mut self) -> (r: Result<(), std::io::Error>)
        ensures
            r is Ok <==> old(self).i_1 + old(self).i <= u64::MAX,
            r is Ok ==> final(self).i_1 == old(self).i && final(self).i == old(self).i_1 + old(self).i,
            r is Err ==> *final(self) == *old(self),
    {
        if let Some(next) = self.i_1.checked_add(self.i) {
            self.i_1 = self.i;
            self.i = next;
            Ok(())
        } else {
            too_many_bits("Fibonacci")
        }
    }

    /// Moves one weight down, to the pair `(i - i_1, i_1)`: it undoes a successful `next`.
    fn prev(&mut self)
        requires
            old(self).i_1 <= old(self).i,
        ensures
            final(self).i_1 == old(self).i - old(self).i_1,
            final(self).i == old(self).i_1,
    {
        self.i = self.i - self.i_1;
        std::mem::swap(&mut self.i, &mut self.i_1);
    }
}

impl UniversalCode for Fibonacci {
    open spec fn spec_code(&self, value: u64) -> Seq<bool> {
        fib_code(value as nat)
    }

    open spec fn spec_encodable(&self, value: u64) -> bool {
        value != 0
    }

    /// The first Fibonacci weight above the value fits a `u64`.
    open spec fn spec_encodes(&self, value: u64) -> bool {
        fib(fib_index(value as nat) + 1) <= u64::MAX
    }

    open spec fn spec_round_trips(&self, value: u64) -> bool {
        value != 0 && fib(fib_index(value as nat) + 1) <= u64::MAX
    }

    open spec fn spec_decodable(&self, input: Seq<bool>) -> bool {
        true
    }

    /// No bit set, with the weights for them all fitting a `u64`.
    open spec fn spec_is_end(&self, input: Seq<bool>) -> bool {
        &&& forall|j: int| 0 <= j < input.len() ==> !#[trigger] input[j]
        &&& fib(input.len() + 1) <= u64::MAX
    }

    /// Bits with no adjacent ones, the last of them set, then a one.
    open spec fn spec_reads_as(&self, word: Seq<bool>, value: u64) -> bool {
        &&& word.len() >= 2
        &&& word.last()
        &&& word[word.len() - 2]
        &&& no_adjacent(word.drop_last())
        &&& fib_value(word.drop_last()) == value
    }

    fn encode<W: BitWrite>(&self, sink: &mut W, value: u64) -> (r: Result<(), std::io::Error>) {
        let ghost v0 = value as nat;
        let mut fibs = Fib::new();
        let ghost mut k: nat = 0;
        proof {
            lemma_fib_index(v0);
        }
        // Find the first weight above the value.
        while fibs.i <= value
            invariant
                fibs.i_1 == fib(k),
                fibs.i == fib(k + 1),
                fib(k) <= value,
                value == v0,
                v0 >= 1,
                1 <= fib_index(v0),
                fib(fib_index(v0)) <= v0 < fib(fib_index(v0) + 1),
                k <= v0,
            decreases v0 - k,
        {
            proof {
                lemma_fib_mono(k, k + 1);
            }
            proof {
                assert(fib(k + 2) == fib(k) + fib(k + 1));
            }
            match fibs.next() {
                Err(e) => {
                    proof {
                        if k + 1 > fib_index(v0) {
                            lemma_fib_mono(fib_index(v0) + 1, k + 1);
                        } else {
                            lemma_fib_mono(k + 2, fib_index(v0) + 1);
                        }
                    }
                    return Err(e);
                },
                Ok(()) => {},
            }
            proof {
                k = k + 1;
                lemma_fib_mono(k, k + 1);
                lemma_fib_mono(k, k);
            }
        }
        proof {
            if k == 0 {
                assert(fib(1) == 1);
            }
            lemma_fib_index_unique(v0, k);
            lemma_zeck(v0, k);
        }
        // Now fibs.i_1 is the largest Fibonacci number <= value.
        let ghost top = k;
        let mut stack = vec![true];
        let mut value = value;
        proof {
            assert(zeck_bits(v0, top).push(true) =~= zeck_bits(value as nat, k) + stack@.reverse());
        }
        while fibs.i > 1
            invariant
                fibs.i_1 == fib(k),
                fibs.i == fib(k + 1),
                value < fib(k + 1),
                zeck_bits(v0, top).push(true) == zeck_bits(value as nat, k) + stack@.reverse(),
            decreases k,
        {
            proof {
                if k == 0 {
                    assert(fib(1) == 1);
                }
            }
            let ghost before = stack@;
            let ghost r = value as nat;
            if fibs.i_1 <= value {
                value = value - fibs.i_1;
                stack.push(true);
            } else {
                stack.push(false);
            }
            proof {
                assert(zeck_bits(r, k) == zeck_bits(value as nat, (k - 1) as nat).push(stack@.last()));
                assert(stack@.reverse() =~= seq![stack@.last()] + before.reverse());
                assert(zeck_bits(v0, top).push(true) =~= zeck_bits(value as nat, (k - 1) as nat) + stack@.reverse());
                if k >= 2 {
                    assert(fib(k + 1) == fib(k) + fib((k - 1) as nat));
                }
            }
            proof {
                lemma_fib_mono(k, k + 1);
                assert(fib(k + 1) == fib(k) + fib((k - 1) as nat));
            }
            fibs.prev();
            proof {
                k = (k - 1) as nat;
            }
        }
        proof {
            if k > 0 {
                lemma_fib_mono(1, k + 1);
            }
            assert(zeck_bits(value as nat, 0) =~= Seq::<bool>::empty());
        }
        let ghost code = stack@.reverse();
        let ghost whole = stack@;
        let ghost start = sink.spec_written();
        proof {
            assert(code =~= fib_code(v0));
            assert(start + code.take(0) =~= start);
        }
        while stack.len() > 0
            invariant
                code == whole.reverse(),
                stack@ == whole.take(stack.len() as int),
                stack.len() <= whole.len(),
                sink.spec_written() == start + code.take(whole.len() - stack.len()),
                old(sink).spec_writes_succeed() ==> sink.spec_writes_succeed(),
                start == old(sink).spec_written(),
            decreases stack.len(),
        {
            let ghost s = stack.len();
            let bit = stack.pop().unwrap();
            match sink.write_bit(bit) {
                Err(e) => {
                    return Err(e);
                },
                Ok(()) => {},
            }
            proof {
                assert(code[whole.len() - s] == whole[s - 1]);
                assert(stack@ =~= whole.take(stack.len() as int));
                assert(sink.spec_written() =~= start + code.take(whole.len() - stack.len()));
            }
        }
        proof {
            assert(code.take(whole.len() as int) =~= code);
        }
        Ok(())
    }

    #[verifier::rlimit(40)]
    fn decode<R: BitRead>(&self, source: &mut R) -> (r: Result<Option<u64>, std::io::Error>) {
        let ghost start = source.spec_unread();
        let mut result: u64 = 0;
        let mut fibs = Fib::new();
        let mut previous = false;
        let ghost mut bs: Seq<bool> = Seq::empty();
        proof {
            assert(start =~= bs + start);
        }
        loop
            invariant
                start == old(source).spec_unread(),
                start == bs + source.spec_unread(),
                fibs.i_1 == fib(bs.len()),
                fibs.i == fib(bs.len() + 1),
                result == fib_value(bs),
                previous == (bs.len() > 0 && bs.last()),
                no_adjacent(bs),
                old(source).spec_reads_succeed() ==> source.spec_reads_succeed(),
                self.spec_is_end(start) ==> forall|j: int| 0 <= j < bs.len() ==> !#[trigger] bs[j],
                forall|v: u64, rest: Seq<bool>|
                    self.spec_round_trips(v) && start == #[trigger] (self.spec_code(v) + rest) ==> bs.len()
                        <= fib_index(v as nat) && bs == zeck_bits(v as nat, fib_index(v as nat)).take(bs.len() as int),
            decreases source.spec_unread().len(),
        {
            let ghost unread = source.spec_unread();
            let ghost k = bs.len();
            match source.read_bit() {
                Err(e) => {
                    proof {
                        assert forall|v: u64, rest: Seq<bool>|
                            old(source).spec_reads_succeed() && self.spec_round_trips(v) && start
                                == #[trigger] (self.spec_code(v) + rest) implies false by {
                            lemma_code_facts(v as nat);
                        }
                    }
                    return Err(e);
                },
                Ok(Some(bit)) => {
                    let ghost after = source.spec_unread();
                    proof {
                        assert(unread =~= seq![bit] + after);
                        assert(start =~= bs.push(bit) + after);
                        assert(start[k as int] == bit);
                    }
                    if bit && previous {
                        proof {
                            let kk = start.len() - after.len();
                            assert(start.take(kk) =~= bs.push(true));
                            assert(start.take(kk).drop_last() =~= bs);
                            assert(after =~= start.skip(kk));
                            assert forall|v: u64, rest: Seq<bool>|
                                old(source).spec_reads_succeed() && self.spec_round_trips(v) && start
                                    == #[trigger] (self.spec_code(v) + rest) implies result == v && after == rest by {
                                lemma_read_step(start, bs, bit, after, v as nat, rest);
                                lemma_code_facts(v as nat);
                            }
                        }
                        return Ok(Some(result));
                    }
                    proof {
                        assert forall|v: u64, rest: Seq<bool>|
                            self.spec_round_trips(v) && start == #[trigger] (self.spec_code(v) + rest) implies {
                                &&& k < fib_index(v as nat)
                                &&& (bit ==> result + fib(k + 1) <= v)
                                &&& fib(k + 2) <= u64::MAX
                                &&& bs.push(bit) == zeck_bits(v as nat, fib_index(v as nat)).take((k + 1) as int)
                            } by {
                            lemma_read_step(start, bs, bit, after, v as nat, rest);
                            if k == fib_index(v as nat) {
                                lemma_code_facts(v as nat);
                                if k == 0 {
                                    lemma_fib_mono(1, 1);
                                } else {
                                    assert(bs.last());
                                }
                            }
                        }
                    }
                    if bit {
                        result = match result.checked_add(fibs.i) {
                            Some(x) => x,
                            None => {
                                return too_many_bits("Fibonacci::decode");
                            },
                        };
                    }
                    proof {
                        assert(fib(k + 2) == fib(k) + fib(k + 1));
                    }
                    match fibs.next() {
                        Err(e) => {
                            proof {
                                if self.spec_is_end(start) {
                                    lemma_fib_mono(k + 2, start.len() + 1);
                                }
                            }
                            return Err(e);
                        },
                        Ok(()) => {},
                    }
                    proof {
                        let old_bs = bs;
                        bs = bs.push(bit);
                        assert(bs.drop_last() =~= old_bs);
                        assert forall|j: int| 0 <= j < bs.len() - 1 implies !(#[trigger] bs[j] && bs[j + 1]) by {
                            if j < old_bs.len() - 1 {
                                assert(bs[j] == old_bs[j]);
                                assert(bs[j + 1] == old_bs[j + 1]);
                            } else {
                                assert(bs[j] == old_bs.last());
                            }
                        }
                        if self.spec_is_end(start) {
                            assert forall|j: int| 0 <= j < bs.len() implies !#[trigger] bs[j] by {
                                assert(bs[j] == start[j]);
                            }
                        }
                    }
                    previous = bit;
                },
                Ok(None) => {
                    proof {
                        assert forall|v: u64, rest: Seq<bool>|
                            old(source).spec_reads_succeed() && self.spec_round_trips(v) && start
                                == #[trigger] (self.spec_code(v) + rest) implies false by {
                            lemma_code_facts(v as nat);
                        }
                        lemma_value_zero(bs);
                        assert(start =~= bs);
                    }
                    if result == 0 {
                        return Ok(None);
                    } else {
                        return out_of_bits("Fibonacci::decode");
                    }
                },
            }
        }
    }
}
} // verus!
