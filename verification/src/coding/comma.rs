//! Comma codes.

use vstd::prelude::*;

verus! {

use vstd::arithmetic::power2::pow2;
use crate::bits::{bit_of, low_mask, lemma_bits_from_fits, lemma_low_mask_value, lemma_word_ext};
use crate::bit_vec::traits::word_bits;
use crate::errors::{out_of_bits, too_many_bits};
use crate::storage::BlockType;
use crate::stream::traits::{BitRead, BitWrite};
use super::traits::UniversalCode;

/// `Comma(n)` encodes in base 2<sup>n</sup> - 1, using n bits per digit.
pub struct Comma(pub u8);

/// The digits of `v` in base `b`, most significant first; none for zero.
pub open spec fn comma_digits(v: nat, b: nat) -> Seq<nat>
    decreases v,
{
    if v == 0 || b < 2 {
        Seq::empty()
    } else {
        proof {
            vstd::arithmetic::div_mod::lemma_div_decreases(v as int, b as int);
        }
        comma_digits(v / b, b).push(v % b)
    }
}

/// The number that the digits `ds` (most significant first) write in base `b`.
pub open spec fn digits_value(ds: Seq<nat>, b: nat) -> nat
    decreases ds.len(),
{
    if ds.len() == 0 {
        0
    } else {
        digits_value(ds.drop_last(), b) * b + ds.last()
    }
}

/// The digits `ds`, `n` bits each, least significant bit first.
pub open spec fn digits_bits(ds: Seq<nat>, n: nat) -> Seq<bool>
    decreases ds.len(),
{
    if ds.len() == 0 {
        Seq::empty()
    } else {
        digits_bits(ds.drop_last(), n) + word_bits(ds.last() as u64, n)
    }
}

/// The base of `Comma(n)`: the largest `n`-bit number, which is kept for the terminator.
pub open spec fn comma_base(n: u8) -> nat {
    low_mask(n as nat) as nat
}

/// The digits of `v` are below the base and write `v`.
proof fn lemma_comma_digits(v: nat, b: nat)
    requires
        b >= 2,
    ensures
        digits_value(comma_digits(v, b), b) == v,
        forall|i: int| 0 <= i < comma_digits(v, b).len() ==> #[trigger] comma_digits(v, b)[i] < b,
    decreases v,
{
    if v > 0 {
        vstd::arithmetic::div_mod::lemma_div_decreases(v as int, b as int);
        lemma_comma_digits(v / b, b);
        let ds = comma_digits(v, b);
        assert(ds.drop_last() =~= comma_digits(v / b, b));
        vstd::arithmetic::div_mod::lemma_fundamental_div_mod(v as int, b as int);
        vstd::arithmetic::mul::lemma_mul_is_commutative((v / b) as int, b as int);
        assert forall|i: int| 0 <= i < ds.len() implies #[trigger] ds[i] < b by {
            if i < ds.len() - 1 {
                assert(ds[i] == comma_digits(v / b, b)[i]);
            }
        }
    }
}

/// A prefix of digits writes no more than all of them.
proof fn lemma_prefix_value(ds: Seq<nat>, b: nat, t: nat)
    requires
        b >= 1,
        t <= ds.len(),
    ensures
        digits_value(ds.take(t as int), b) <= digits_value(ds, b),
    decreases ds.len() - t,
{
    if t < ds.len() {
        lemma_prefix_value(ds, b, t + 1);
        assert(ds.take((t + 1) as int).drop_last() =~= ds.take(t as int));
        let x = digits_value(ds.take(t as int), b);
        assert(x <= x * b) by (nonlinear_arith)
            requires
                b >= 1,
        ;
    } else {
        assert(ds.take(t as int) =~= ds);
    }
}

/// The bits of digits side by side are those of each part side by side.
proof fn lemma_digits_bits_append(a: Seq<nat>, c: Seq<nat>, n: nat)
    ensures
        digits_bits(a + c, n) == digits_bits(a, n) + digits_bits(c, n),
    decreases c.len(),
{
    if c.len() == 0 {
        assert(a + c =~= a);
        assert(digits_bits(a, n) + digits_bits(c, n) =~= digits_bits(a, n));
    } else {
        lemma_digits_bits_append(a, c.drop_last(), n);
        assert((a + c).drop_last() =~= a + c.drop_last());
        assert(digits_bits(a, n) + digits_bits(c, n) =~= digits_bits(a, n) + digits_bits(c.drop_last(), n)
            + word_bits(c.last() as u64, n));
    }
}

/// Equal sequences with a common prefix have equal rests.
proof fn lemma_cancel(a: Seq<bool>, x: Seq<bool>, y: Seq<bool>)
    requires
        a + x == a + y,
    ensures
        x == y,
{
    assert(x =~= (a + x).skip(a.len() as int));
    assert(y =~= (a + y).skip(a.len() as int));
}

/// A word read back from the bits of a number that fits them is that number.
proof fn lemma_read_back(d: u64, x: nat, n: nat)
    requires
        n <= 64,
        x <= low_mask(n),
        forall|j: nat| #[trigger] bit_of(d, j) == (j < n && word_bits(x as u64, n)[j as int]),
    ensures
        d == x,
{
    lemma_bits_from_fits(x as u64, n);
    assert forall|j: nat| j < 64 implies #[trigger] bit_of(d, j) == bit_of(x as u64, j) by {}
    lemma_word_ext(d, x as u64);
}

/// The base of `Comma(n)`, as the code computes it, and that it is at least three.
proof fn lemma_comma_base(n: u8)
    requires
        2 <= n < 64,
    ensures
        1u64 << (n as u64) == pow2(n as nat),
        pow2(n as nat) >= 4,
        comma_base(n) == pow2(n as nat) - 1,
{
    vstd::bits::lemma_u64_pow2_no_overflow(n as nat);
    vstd::bits::lemma_u64_shl_is_mul(1u64, n as u64);
    vstd::arithmetic::power2::lemma2_to64();
    if n > 2 {
        vstd::arithmetic::power2::lemma_pow2_strictly_increases(2, n as nat);
    }
    lemma_low_mask_value(n as nat);
}

impl UniversalCode for Comma {
    open spec fn spec_code(&self, value: u64) -> Seq<bool> {
        digits_bits(comma_digits(value as nat, comma_base(self.0)), self.0 as nat) + word_bits(
            comma_base(self.0) as u64,
            self.0 as nat,
        )
    }

    /// Digits of at least two bits, and fewer than 64.
    open spec fn spec_encodable(&self, value: u64) -> bool {
        2 <= self.0 < 64
    }

    open spec fn spec_encodes(&self, value: u64) -> bool {
        true
    }

    open spec fn spec_round_trips(&self, value: u64) -> bool {
        2 <= self.0 < 64
    }

    open spec fn spec_decodable(&self, input: Seq<bool>) -> bool {
        2 <= self.0 < 64
    }

    open spec fn spec_is_end(&self, input: Seq<bool>) -> bool {
        input.len() == 0
    }

    /// Digits below the base, with or without leading zeros, then the terminator.
    open spec fn spec_reads_as(&self, word: Seq<bool>, value: u64) -> bool {
        exists|ds: Seq<nat>|
            #![trigger digits_value(ds, comma_base(self.0))]
            {
                &&& forall|i: int| 0 <= i < ds.len() ==> #[trigger] ds[i] < comma_base(self.0)
                &&& digits_value(ds, comma_base(self.0)) == value
                &&& word == digits_bits(ds, self.0 as nat) + word_bits(comma_base(self.0) as u64, self.0 as nat)
            }
    }

    fn encode<W: BitWrite>(&self, sink: &mut W, value: u64) -> (r: Result<(), std::io::Error>) {
        let n = self.0;
        proof {
            lemma_comma_base(n);
        }
        let base: u64 = (1u64 << (n as u64)) - 1;
        let ghost b = comma_base(n);
        let ghost digits = comma_digits(value as nat, b);
        proof {
            lemma_comma_digits(value as nat, b);
        }
        let mut stack: Vec<u64> = Vec::new();
        let mut rest = value;
        while rest > 0
            invariant
                b == base,
                base >= 3,
                digits == comma_digits(value as nat, b),
                digits == comma_digits(rest as nat, b) + stack@.map_values(|d: u64| d as nat).reverse(),
            decreases rest,
        {
            let ghost before = stack@;
            stack.push(rest % base);
            proof {
                assert(comma_digits(rest as nat, b) == comma_digits((rest / base) as nat, b).push(
                    (rest % base) as nat,
                ));
                assert(comma_digits(rest as nat, b) + before.map_values(|d: u64| d as nat).reverse()
                    =~= comma_digits((rest / base) as nat, b) + stack@.map_values(|d: u64| d as nat).reverse());
            }
            rest = rest / base;
        }
        proof {
            assert(digits =~= stack@.map_values(|d: u64| d as nat).reverse());
        }
        let ghost start = sink.spec_written();
        let ghost len = digits.len();
        proof {
            assert(digits.take(0) =~= Seq::<nat>::empty());
        }
        while stack.len() > 0
            invariant
                b == base,
                base >= 3,
                2 <= n < 64,
                len == digits.len(),
                stack.len() <= len,
                forall|i: int| 0 <= i < stack.len() ==> #[trigger] stack@[i] as nat == digits[len - 1 - i],
                forall|i: int| 0 <= i < len ==> #[trigger] digits[i] < b,
                sink.spec_written() == start + digits_bits(digits.take(len - stack.len()), n as nat),
                old(sink).spec_writes_succeed() ==> sink.spec_writes_succeed(),
                start == old(sink).spec_written(),
            decreases stack.len(),
        {
            let ghost s = stack.len();
            let digit = stack.pop().unwrap();
            match sink.write_int(n as usize, digit) {
                Err(e) => {
                    return Err(e);
                },
                Ok(()) => {},
            }
            proof {
                let t = digits.take(len - s + 1);
                assert(t.drop_last() =~= digits.take(len - s));
                assert(t.last() == digit as nat);
            }
        }
        proof {
            assert(digits.take(len as int) =~= digits);
        }
        sink.write_int(n as usize, base)
    }

    fn decode<R: BitRead>(&self, source: &mut R) -> (r: Result<Option<u64>, std::io::Error>) {
        let n = self.0;
        proof {
            lemma_comma_base(n);
        }
        let base: u64 = (1u64 << (n as u64)) - 1;
        let ghost b = comma_base(n);
        let ghost start = source.spec_unread();
        let ghost mut ds: Seq<nat> = Seq::empty();
        proof {
            assert(start =~= digits_bits(ds, n as nat) + start);
            assert(comma_base(n) as u64 == base);
        }
        let mut result: u64 = 0;
        let mut consumed = false;
        loop
            invariant
                b == base,
                base >= 3,
                2 <= n < 64,
                b == comma_base(n),
                comma_base(n) as u64 == base,
                n == self.0,
                start == old(source).spec_unread(),
                forall|i: int| 0 <= i < ds.len() ==> #[trigger] ds[i] < b,
                result == digits_value(ds, b),
                start == digits_bits(ds, n as nat) + source.spec_unread(),
                consumed == (ds.len() > 0),
                old(source).spec_reads_succeed() ==> source.spec_reads_succeed(),
                forall|v: u64, rest: Seq<bool>|
                    old(source).spec_reads_succeed() && self.spec_round_trips(v) && start
                        == #[trigger] (self.spec_code(v) + rest) ==> ds.len() <= comma_digits(v as nat, b).len()
                        && ds == comma_digits(v as nat, b).take(ds.len() as int),
            decreases source.spec_unread().len(),
        {
            let ghost unread = source.spec_unread();
            match source.read_int::<u64>(n as usize) {
                Err(e) => {
                    proof {
                        assert forall|v: u64, rest: Seq<bool>|
                            old(source).spec_reads_succeed() && self.spec_round_trips(v) && start
                                == #[trigger] (self.spec_code(v) + rest) implies false by {
                            let dv = comma_digits(v as nat, b);
                            lemma_comma_digits(v as nat, b);
                            assert(dv =~= ds + dv.skip(ds.len() as int));
                            lemma_digits_bits_append(ds, dv.skip(ds.len() as int), n as nat);
                            let tailbits = digits_bits(dv.skip(ds.len() as int), n as nat) + word_bits(base, n as nat) + rest;
                            assert(start =~= digits_bits(ds, n as nat) + tailbits);
                            lemma_cancel(digits_bits(ds, n as nat), unread, tailbits);
                        }
                    }
                    return Err(e);
                },
                Ok(Some(digit)) => {
                    let ghost after = source.spec_unread();
                    proof {
                        assert forall|j: nat| #[trigger] bit_of(digit, j) == (j < n && unread[j as int]) by {
                            assert(bit_of(digit.word(), j) == (j < n && unread[j as int]));
                        }
                        assert(unread == unread.take(n as int) + after);
                        crate::bits::lemma_fits_from_bits(digit, n as nat);
                        assert(unread.take(n as int) =~= word_bits(digit, n as nat));
                        assert(digits_bits(ds.push(digit as nat), n as nat) =~= digits_bits(ds, n as nat)
                            + word_bits(digit, n as nat)) by {
                            assert(ds.push(digit as nat).drop_last() =~= ds);
                        }
                        assert(start =~= digits_bits(ds.push(digit as nat), n as nat) + after);
                        // Where the input is a code word, the digit read is its next digit,
                        // or the terminator after the last one.
                        assert forall|v: u64, rest: Seq<bool>|
                            old(source).spec_reads_succeed() && self.spec_round_trips(v) && start
                                == #[trigger] (self.spec_code(v) + rest) implies {
                                let dv = comma_digits(v as nat, b);
                                &&& (ds.len() < dv.len() ==> digit as nat == dv[ds.len() as int])
                                &&& (ds.len() == dv.len() ==> digit == base && after == rest)
                            } by {
                            let dv = comma_digits(v as nat, b);
                            lemma_comma_digits(v as nat, b);
                            assert(dv =~= ds + dv.skip(ds.len() as int));
                            lemma_digits_bits_append(ds, dv.skip(ds.len() as int), n as nat);
                            let tailbits = digits_bits(dv.skip(ds.len() as int), n as nat) + word_bits(base, n as nat) + rest;
                            assert(start =~= digits_bits(ds, n as nat) + tailbits);
                            lemma_cancel(digits_bits(ds, n as nat), unread, tailbits);
                            if ds.len() < dv.len() {
                                let x = dv[ds.len() as int];
                                assert(dv.skip(ds.len() as int) =~= seq![x] + dv.skip((ds.len() + 1) as int));
                                lemma_digits_bits_append(seq![x], dv.skip((ds.len() + 1) as int), n as nat);
                                assert(digits_bits(seq![x], n as nat) =~= word_bits(x as u64, n as nat)) by {
                                    assert(seq![x].drop_last() =~= Seq::<nat>::empty());
                                    assert(seq![x].last() == x);
                                    assert(digits_bits(Seq::<nat>::empty(), n as nat) =~= Seq::<bool>::empty());
                                    assert(Seq::<bool>::empty() + word_bits(x as u64, n as nat) =~= word_bits(x as u64, n as nat));
                                }
                                assert forall|j: nat| #[trigger] bit_of(digit, j) == (j < n && word_bits(x as u64, n as nat)[j as int]) by {
                                    if j < n {
                                        assert(unread[j as int] == word_bits(x as u64, n as nat)[j as int]);
                                    }
                                }
                                lemma_read_back(digit, x, n as nat);
                            } else {
                                assert(dv.skip(ds.len() as int) =~= Seq::<nat>::empty());
                                assert forall|j: nat| #[trigger] bit_of(digit, j) == (j < n && word_bits(base, n as nat)[j as int]) by {
                                    if j < n {
                                        assert(unread[j as int] == word_bits(base, n as nat)[j as int]);
                                    }
                                }
                                lemma_read_back(digit, base as nat, n as nat);
                                assert(after =~= rest);
                            }
                        }
                    }
                    if digit == base {
                        proof {
                            let k = start.len() - after.len();
                            assert(start.take(k) =~= digits_bits(ds, n as nat) + word_bits(base, n as nat));
                            assert(after =~= start.skip(k));
                            assert(digits_value(ds, comma_base(self.0)) == result as nat);
                            assert(start.take(k) == digits_bits(ds, n as nat) + word_bits(comma_base(self.0) as u64, n as nat));
                            assert(self.spec_reads_as(start.take(k), result));
                            assert forall|v: u64, rest: Seq<bool>|
                                old(source).spec_reads_succeed() && self.spec_round_trips(v) && start
                                    == #[trigger] (self.spec_code(v) + rest) implies result == v && after == rest by {
                                let dv = comma_digits(v as nat, b);
                                lemma_comma_digits(v as nat, b);
                                if ds.len() < dv.len() {
                                    assert(dv[ds.len() as int] < b);
                                }
                                assert(ds =~= dv);
                            }
                        }
                        return Ok(Some(result));
                    }
                    proof {
                        crate::bits::lemma_fits_from_bits(digit, n as nat);
                        assert(digit < base);
                        assert(ds.push(digit as nat).drop_last() =~= ds);
                        assert forall|v: u64, rest: Seq<bool>|
                            old(source).spec_reads_succeed() && self.spec_round_trips(v) && start
                                == #[trigger] (self.spec_code(v) + rest) implies digits_value(ds.push(digit as nat), b) <= v by {
                            let dv = comma_digits(v as nat, b);
                            lemma_comma_digits(v as nat, b);
                            assert(ds.push(digit as nat) =~= dv.take((ds.len() + 1) as int));
                            lemma_prefix_value(dv, b, (ds.len() + 1) as nat);
                        }
                    }
                    consumed = true;
                    let next = match result.checked_mul(base) {
                        Some(x) => x.checked_add(digit),
                        None => None,
                    };
                    result = match next {
                        Some(x) => x,
                        None => {
                            return too_many_bits("Comma::decode");
                        },
                    };
                    proof {
                        let old_ds = ds;
                        ds = ds.push(digit as nat);
                        assert(ds.drop_last() =~= old_ds);
                        assert forall|i: int| 0 <= i < ds.len() implies #[trigger] ds[i] < b by {
                            if i < old_ds.len() {
                                assert(ds[i] == old_ds[i]);
                            }
                        }
                        assert forall|v: u64, rest: Seq<bool>|
                            old(source).spec_reads_succeed() && self.spec_round_trips(v) && start
                                == #[trigger] (self.spec_code(v) + rest) implies ds.len() <= comma_digits(v as nat, b).len()
                                && ds == comma_digits(v as nat, b).take(ds.len() as int) by {
                            let dv = comma_digits(v as nat, b);
                            assert(ds =~= dv.take(ds.len() as int));
                        }
                    }
                },
                Ok(None) => {
                    proof {
                        assert forall|v: u64, rest: Seq<bool>|
                            old(source).spec_reads_succeed() && self.spec_round_trips(v) && start
                                == #[trigger] (self.spec_code(v) + rest) implies false by {
                            let dv = comma_digits(v as nat, b);
                            lemma_comma_digits(v as nat, b);
                            assert(dv =~= ds + dv.skip(ds.len() as int));
                            lemma_digits_bits_append(ds, dv.skip(ds.len() as int), n as nat);
                            let tailbits = digits_bits(dv.skip(ds.len() as int), n as nat) + word_bits(base, n as nat) + rest;
                            assert(start =~= digits_bits(ds, n as nat) + tailbits);
                            lemma_cancel(digits_bits(ds, n as nat), unread, tailbits);
                        }
                    }
                    if consumed {
                        return out_of_bits("Comma::decode");
                    } else {
                        proof {
                            assert(ds =~= Seq::<nat>::empty());
                        }
                        return Ok(None);
                    }
                },
            }
        }
    }
}

} // verus!
