//! Bit-level specifications of machine words shared by the whole library.

use vstd::prelude::*;

verus! {

use vstd::arithmetic::power2::{pow2, lemma_pow2_pos, lemma_pow2_unfold, lemma2_to64};
use vstd::arithmetic::div_mod::{lemma_mod_breakdown, lemma_div_denominator};

/// The number of one bits in the binary representation of `n`.
pub open spec fn popcount(n: nat) -> nat
    decreases n,
{
    if n == 0 {
        0
    } else {
        (n % 2) + popcount(n / 2)
    }
}

/// Adding a low bit below a number adds that bit's count.
pub proof fn lemma_popcount_step(y: nat, b: nat)
    requires
        b < 2,
    ensures
        popcount(2 * y + b) == b + popcount(y),
{
    if 2 * y + b != 0 {
        assert((2 * y + b) % 2 == b) by (nonlinear_arith)
            requires
                b < 2,
        ;
        assert((2 * y + b) / 2 == y) by (nonlinear_arith)
            requires
                b < 2,
        ;
    }
}

/// The ones of `n` are those of its low `2^k`-residue plus those of its quotient.
pub proof fn lemma_popcount_split(n: nat, k: nat)
    ensures
        popcount(n) == popcount(n % pow2(k)) + popcount(
            n / pow2(k),
        ),
    decreases k,
{
    lemma_pow2_pos(k);
    if k == 0 {
        assert(pow2(0) == 1) by {
            lemma2_to64();
        }
    } else {
        let p = pow2((k - 1) as nat);
        lemma_pow2_unfold(k);
        lemma_pow2_pos((k - 1) as nat);
        let h = n / 2;
        lemma_popcount_split(h, (k - 1) as nat);
        // n % (2p) = n % 2 + 2 * ((n / 2) % p)
        lemma_mod_breakdown(n as int, 2, p as int);
        // n / (2p) = (n / 2) / p
        lemma_div_denominator(n as int, 2, p as int);
        assert(n % (2 * p) == 2 * (h % p) + n % 2);
        lemma_popcount_step(h % p, n % 2);
        if n != 0 {
            assert(popcount(n) == n % 2 + popcount(h));
        }
    }
}

} // verus!

verus! {

/// The count of `y` is its lowest bit plus the count of the rest.
pub proof fn lemma_popcount_low_bit(y: u64)
    ensures
        popcount(y as nat) == (y & 1) + popcount((y >> 1) as nat),
{
    lemma_word_facts(y, 0, 0);
}

/// The count of `x` is that of its low octet plus that of the remaining octets.
pub proof fn lemma_popcount_octet_split(x: u64)
    ensures
        popcount(x as nat) == popcount((x & 0xff) as nat) + popcount((x >> 8) as nat),
{
    lemma_popcount_split(x as nat, 8);
    assert(pow2(8) == 256) by {
        lemma2_to64();
    }
    lemma_word_facts(x, 0, 0);
}

} // verus!

verus! {

/// Bit `j` of the word `w`, counting from the least significant bit.
pub open spec fn bit_of(w: u64, j: nat) -> bool {
    j < 64 && (w >> (j as u64)) & 1 == 1
}

/// The word whose `n` lowest bits are set (all bits when `n >= 64`).
pub open spec fn low_mask(n: nat) -> u64 {
    if n >= 64 {
        0xffff_ffff_ffff_ffffu64
    } else {
        ((1u64 << (n as u64)) - 1) as u64
    }
}

/// Block widths that the library supports.
pub open spec fn valid_width(n: nat) -> bool {
    n == 8 || n == 16 || n == 32 || n == 64
}

/// `log2` of a supported block width.
pub open spec fn lg_width(n: nat) -> nat {
    if n == 8 {
        3
    } else if n == 16 {
        4
    } else if n == 32 {
        5
    } else {
        6
    }
}

proof fn lemma_low_mask_bits_bv(n: u64, m: u64, j: u64)
    by (bit_vector)
    requires
        n < 64,
        j < 64,
        m == ((1u64 << n) - 1) as u64,
    ensures
        ((m >> j) & 1 == 1) == (j < n),
{
}

/// The bits of `low_mask(n)` are exactly those below `n`.
pub proof fn lemma_low_mask_bits(n: nat)
    ensures
        forall|j: nat| #[trigger] bit_of(low_mask(n), j) == (j < n && j < 64),
{
    assert forall|j: nat| #[trigger] bit_of(low_mask(n), j) == (j < n && j < 64) by {
        if j < 64 {
            if n >= 64 {
                lemma_word_facts(0, 0, j as u64);
            } else {
                lemma_low_mask_bits_bv(n as u64, low_mask(n), j as u64);
            }
        }
    }
}

/// Facts about single bits, small shifts and masks of a word.
pub proof fn lemma_word_facts(w: u64, m: u64, j: u64)
    by (bit_vector)
    requires
        j < 64,
    ensures
        (w >> j) & 1 == 0 || (w >> j) & 1 == 1,
        (0u64 >> j) & 1 == 0,
        (0xffff_ffff_ffff_ffffu64 >> j) & 1 == 1,
        w & 1 == w % 2,
        w >> 1 == w / 2,
        w & 0xff == w % 256,
        w >> 8 == w / 256,
        w >> 0u64 == w,
        (w & 1 != 0) == ((w >> 0u64) & 1 == 1),
        (w >> j) >> 1 == w >> ((j + 1) as u64),
        0u64 | (1u64 << j) == 1u64 << j,
        w & m <= m,
        w & m <= w,
        w & 0xffff_ffff_ffff_ffffu64 == w,
        1u64 << 0u64 == 1u64,
        (w << 1u64) | 0u64 == w << 1u64,
        j >= 1 ==> (1u64 << ((j - 1) as u64)) << 1u64 == 1u64 << j,
        j >= 1 ==> (1u64 << j) >> 1u64 == 1u64 << ((j - 1) as u64),
        ((w & (1u64 << j)) != 0) == ((w >> j) & 1 == 1),
        (((w & m) >> j) & 1 == 1) == (((w >> j) & 1 == 1) && ((m >> j) & 1 == 1)),
{
}

/// Bit `j` of `w & m` is set where it is set in both.
pub proof fn lemma_and_bits(w: u64, m: u64, j: nat)
    ensures
        bit_of(w & m, j) == (bit_of(w, j) && bit_of(m, j)),
{
    if j < 64 {
        lemma_word_facts(w, m, j as u64);
    }
}

/// The masks of the block widths below the word width.
pub proof fn lemma_width_masks()
    by (bit_vector)
    ensures
        ((1u64 << 0u64) - 1) as u64 == 0u64,
        ((1u64 << 1u64) - 1) as u64 == 1u64,
        ((1u64 << 8u64) - 1) as u64 == 0xffu64,
        ((1u64 << 16u64) - 1) as u64 == 0xffffu64,
        ((1u64 << 32u64) - 1) as u64 == 0xffff_ffffu64,
{
}

proof fn lemma_fits_bits_bv(w: u64, nn: u64, m: u64, jj: u64)
    by (bit_vector)
    requires
        nn < 64,
        jj < 64,
        m == ((1u64 << nn) - 1) as u64,
    ensures
        (w <= m) == (w >> nn == 0),
        (w >> nn == 0 && nn <= jj) ==> (w >> jj) & 1 == 0,
        jj < nn ==> ((w & !m) >> jj) & 1 == 0,
        (w >> jj) & 1 == 0 ==> ((w & !m) >> jj) & 1 == 0,
        w & !m == 0 ==> w <= m,
{
}

proof fn lemma_mask_order_bv(aa: u64, bb: u64)
    by (bit_vector)
    requires
        aa <= bb,
    ensures
        aa < 64 ==> (1u64 << aa) >= 1,
        bb < 64 ==> ((1u64 << aa) - 1) as u64 <= ((1u64 << bb) - 1) as u64,
        aa < 64 ==> ((1u64 << aa) - 1) as u64 <= 0xffff_ffff_ffff_ffffu64,
{
}

proof fn lemma_word_ext_bv(a: u64, b: u64)
    by (bit_vector)
    requires
        (a >> 0u64) & 1 == (b >> 0u64) & 1,
        (a >> 1u64) & 1 == (b >> 1u64) & 1,
        (a >> 2u64) & 1 == (b >> 2u64) & 1,
        (a >> 3u64) & 1 == (b >> 3u64) & 1,
        (a >> 4u64) & 1 == (b >> 4u64) & 1,
        (a >> 5u64) & 1 == (b >> 5u64) & 1,
        (a >> 6u64) & 1 == (b >> 6u64) & 1,
        (a >> 7u64) & 1 == (b >> 7u64) & 1,
        (a >> 8u64) & 1 == (b >> 8u64) & 1,
        (a >> 9u64) & 1 == (b >> 9u64) & 1,
        (a >> 10u64) & 1 == (b >> 10u64) & 1,
        (a >> 11u64) & 1 == (b >> 11u64) & 1,
        (a >> 12u64) & 1 == (b >> 12u64) & 1,
        (a >> 13u64) & 1 == (b >> 13u64) & 1,
        (a >> 14u64) & 1 == (b >> 14u64) & 1,
        (a >> 15u64) & 1 == (b >> 15u64) & 1,
        (a >> 16u64) & 1 == (b >> 16u64) & 1,
        (a >> 17u64) & 1 == (b >> 17u64) & 1,
        (a >> 18u64) & 1 == (b >> 18u64) & 1,
        (a >> 19u64) & 1 == (b >> 19u64) & 1,
        (a >> 20u64) & 1 == (b >> 20u64) & 1,
        (a >> 21u64) & 1 == (b >> 21u64) & 1,
        (a >> 22u64) & 1 == (b >> 22u64) & 1,
        (a >> 23u64) & 1 == (b >> 23u64) & 1,
        (a >> 24u64) & 1 == (b >> 24u64) & 1,
        (a >> 25u64) & 1 == (b >> 25u64) & 1,
        (a >> 26u64) & 1 == (b >> 26u64) & 1,
        (a >> 27u64) & 1 == (b >> 27u64) & 1,
        (a >> 28u64) & 1 == (b >> 28u64) & 1,
        (a >> 29u64) & 1 == (b >> 29u64) & 1,
        (a >> 30u64) & 1 == (b >> 30u64) & 1,
        (a >> 31u64) & 1 == (b >> 31u64) & 1,
        (a >> 32u64) & 1 == (b >> 32u64) & 1,
        (a >> 33u64) & 1 == (b >> 33u64) & 1,
        (a >> 34u64) & 1 == (b >> 34u64) & 1,
        (a >> 35u64) & 1 == (b >> 35u64) & 1,
        (a >> 36u64) & 1 == (b >> 36u64) & 1,
        (a >> 37u64) & 1 == (b >> 37u64) & 1,
        (a >> 38u64) & 1 == (b >> 38u64) & 1,
        (a >> 39u64) & 1 == (b >> 39u64) & 1,
        (a >> 40u64) & 1 == (b >> 40u64) & 1,
        (a >> 41u64) & 1 == (b >> 41u64) & 1,
        (a >> 42u64) & 1 == (b >> 42u64) & 1,
        (a >> 43u64) & 1 == (b >> 43u64) & 1,
        (a >> 44u64) & 1 == (b >> 44u64) & 1,
        (a >> 45u64) & 1 == (b >> 45u64) & 1,
        (a >> 46u64) & 1 == (b >> 46u64) & 1,
        (a >> 47u64) & 1 == (b >> 47u64) & 1,
        (a >> 48u64) & 1 == (b >> 48u64) & 1,
        (a >> 49u64) & 1 == (b >> 49u64) & 1,
        (a >> 50u64) & 1 == (b >> 50u64) & 1,
        (a >> 51u64) & 1 == (b >> 51u64) & 1,
        (a >> 52u64) & 1 == (b >> 52u64) & 1,
        (a >> 53u64) & 1 == (b >> 53u64) & 1,
        (a >> 54u64) & 1 == (b >> 54u64) & 1,
        (a >> 55u64) & 1 == (b >> 55u64) & 1,
        (a >> 56u64) & 1 == (b >> 56u64) & 1,
        (a >> 57u64) & 1 == (b >> 57u64) & 1,
        (a >> 58u64) & 1 == (b >> 58u64) & 1,
        (a >> 59u64) & 1 == (b >> 59u64) & 1,
        (a >> 60u64) & 1 == (b >> 60u64) & 1,
        (a >> 61u64) & 1 == (b >> 61u64) & 1,
        (a >> 62u64) & 1 == (b >> 62u64) & 1,
        (a >> 63u64) & 1 == (b >> 63u64) & 1,
    ensures
        a == b,
{
}

/// Two words with the same bits are equal.
pub proof fn lemma_word_ext(a: u64, b: u64)
    requires
        forall|j: nat| j < 64 ==> #[trigger] bit_of(a, j) == bit_of(b, j),
    ensures
        a == b,
{
    assert forall|j: u64| j < 64 implies #[trigger] ((a >> j) & 1) == ((b >> j) & 1) by {
        assert(bit_of(a, j as nat) == bit_of(b, j as nat));
        lemma_word_facts(a, 0, j);
        lemma_word_facts(b, 0, j);
    }
    assert(((a >> 0u64) & 1) == ((b >> 0u64) & 1));
    assert(((a >> 1u64) & 1) == ((b >> 1u64) & 1));
    assert(((a >> 2u64) & 1) == ((b >> 2u64) & 1));
    assert(((a >> 3u64) & 1) == ((b >> 3u64) & 1));
    assert(((a >> 4u64) & 1) == ((b >> 4u64) & 1));
    assert(((a >> 5u64) & 1) == ((b >> 5u64) & 1));
    assert(((a >> 6u64) & 1) == ((b >> 6u64) & 1));
    assert(((a >> 7u64) & 1) == ((b >> 7u64) & 1));
    assert(((a >> 8u64) & 1) == ((b >> 8u64) & 1));
    assert(((a >> 9u64) & 1) == ((b >> 9u64) & 1));
    assert(((a >> 10u64) & 1) == ((b >> 10u64) & 1));
    assert(((a >> 11u64) & 1) == ((b >> 11u64) & 1));
    assert(((a >> 12u64) & 1) == ((b >> 12u64) & 1));
    assert(((a >> 13u64) & 1) == ((b >> 13u64) & 1));
    assert(((a >> 14u64) & 1) == ((b >> 14u64) & 1));
    assert(((a >> 15u64) & 1) == ((b >> 15u64) & 1));
    assert(((a >> 16u64) & 1) == ((b >> 16u64) & 1));
    assert(((a >> 17u64) & 1) == ((b >> 17u64) & 1));
    assert(((a >> 18u64) & 1) == ((b >> 18u64) & 1));
    assert(((a >> 19u64) & 1) == ((b >> 19u64) & 1));
    assert(((a >> 20u64) & 1) == ((b >> 20u64) & 1));
    assert(((a >> 21u64) & 1) == ((b >> 21u64) & 1));
    assert(((a >> 22u64) & 1) == ((b >> 22u64) & 1));
    assert(((a >> 23u64) & 1) == ((b >> 23u64) & 1));
    assert(((a >> 24u64) & 1) == ((b >> 24u64) & 1));
    assert(((a >> 25u64) & 1) == ((b >> 25u64) & 1));
    assert(((a >> 26u64) & 1) == ((b >> 26u64) & 1));
    assert(((a >> 27u64) & 1) == ((b >> 27u64) & 1));
    assert(((a >> 28u64) & 1) == ((b >> 28u64) & 1));
    assert(((a >> 29u64) & 1) == ((b >> 29u64) & 1));
    assert(((a >> 30u64) & 1) == ((b >> 30u64) & 1));
    assert(((a >> 31u64) & 1) == ((b >> 31u64) & 1));
    assert(((a >> 32u64) & 1) == ((b >> 32u64) & 1));
    assert(((a >> 33u64) & 1) == ((b >> 33u64) & 1));
    assert(((a >> 34u64) & 1) == ((b >> 34u64) & 1));
    assert(((a >> 35u64) & 1) == ((b >> 35u64) & 1));
    assert(((a >> 36u64) & 1) == ((b >> 36u64) & 1));
    assert(((a >> 37u64) & 1) == ((b >> 37u64) & 1));
    assert(((a >> 38u64) & 1) == ((b >> 38u64) & 1));
    assert(((a >> 39u64) & 1) == ((b >> 39u64) & 1));
    assert(((a >> 40u64) & 1) == ((b >> 40u64) & 1));
    assert(((a >> 41u64) & 1) == ((b >> 41u64) & 1));
    assert(((a >> 42u64) & 1) == ((b >> 42u64) & 1));
    assert(((a >> 43u64) & 1) == ((b >> 43u64) & 1));
    assert(((a >> 44u64) & 1) == ((b >> 44u64) & 1));
    assert(((a >> 45u64) & 1) == ((b >> 45u64) & 1));
    assert(((a >> 46u64) & 1) == ((b >> 46u64) & 1));
    assert(((a >> 47u64) & 1) == ((b >> 47u64) & 1));
    assert(((a >> 48u64) & 1) == ((b >> 48u64) & 1));
    assert(((a >> 49u64) & 1) == ((b >> 49u64) & 1));
    assert(((a >> 50u64) & 1) == ((b >> 50u64) & 1));
    assert(((a >> 51u64) & 1) == ((b >> 51u64) & 1));
    assert(((a >> 52u64) & 1) == ((b >> 52u64) & 1));
    assert(((a >> 53u64) & 1) == ((b >> 53u64) & 1));
    assert(((a >> 54u64) & 1) == ((b >> 54u64) & 1));
    assert(((a >> 55u64) & 1) == ((b >> 55u64) & 1));
    assert(((a >> 56u64) & 1) == ((b >> 56u64) & 1));
    assert(((a >> 57u64) & 1) == ((b >> 57u64) & 1));
    assert(((a >> 58u64) & 1) == ((b >> 58u64) & 1));
    assert(((a >> 59u64) & 1) == ((b >> 59u64) & 1));
    assert(((a >> 60u64) & 1) == ((b >> 60u64) & 1));
    assert(((a >> 61u64) & 1) == ((b >> 61u64) & 1));
    assert(((a >> 62u64) & 1) == ((b >> 62u64) & 1));
    assert(((a >> 63u64) & 1) == ((b >> 63u64) & 1));
    lemma_word_ext_bv(a, b);
}

/// A word is at most `low_mask(n)` exactly when it has no bit at or above `n`.
pub proof fn lemma_fits_bits(w: u64, n: nat)
    requires
        n <= 64,
    ensures
        (w <= low_mask(n)) == (forall|j: nat| n <= j < 64 ==> !#[trigger] bit_of(w, j)),
{
    if n < 64 {
        let nn = n as u64;
        let m = low_mask(n);
        lemma_fits_bits_bv(w, nn, m, 0);
        if w <= m {
            assert forall|j: nat| n <= j < 64 implies !#[trigger] bit_of(w, j) by {
                lemma_fits_bits_bv(w, nn, m, j as u64);
            }
        } else {
            assert(w >> nn != 0);
            if forall|j: nat| n <= j < 64 ==> !#[trigger] bit_of(w, j) {
                let z = w & !m;
                assert forall|j: nat| j < 64 implies #[trigger] bit_of(z, j) == bit_of(0u64, j) by {
                    let jj = j as u64;
                    lemma_word_facts(w, 0, jj);
                    lemma_fits_bits_bv(w, nn, m, jj);
                    if j >= n {
                        assert(!bit_of(w, j));
                    }
                }
                lemma_word_ext(z, 0);
            }
        }
    }
}

} // verus!

verus! {

proof fn lemma_get_bits_bv(w: u64, s: u64, c: u64, m: u64, j: u64)
    by (bit_vector)
    requires
        s < 64,
        s + c <= 64,
        j < 64,
        c < 64 ==> m == ((1u64 << c) - 1) as u64,
        c >= 64 ==> m == 0xffff_ffff_ffff_ffffu64,
    ensures
        (((w >> s) & m) >> j) & 1 == 1 <==> (j < c && ((w >> ((s + j) as u64)) & 1 == 1)),
{
}

/// The bits of `(w >> s) & low_mask(c)` are the `c` bits of `w` starting at `s`.
pub proof fn lemma_get_bits_word(w: u64, s: nat, c: nat)
    requires
        s < 64,
        s + c <= 64,
    ensures
        forall|j: nat| #[trigger]
            bit_of((w >> (s as u64)) & low_mask(c), j) == (j < c && bit_of(w, s + j)),
{
    assert forall|j: nat| #[trigger]
        bit_of((w >> (s as u64)) & low_mask(c), j) == (j < c && bit_of(w, s + j)) by {
        if j < 64 {
            lemma_get_bits_bv(w, s as u64, c as u64, low_mask(c), j as u64);
        }
    }
}

proof fn lemma_with_bits_bv(w: u64, s: u64, c: u64, m: u64, v: u64, j: u64)
    by (bit_vector)
    requires
        s < 64,
        0 < c,
        s + c <= 64,
        j < 64,
        c < 64 ==> m == ((1u64 << c) - 1) as u64,
        c >= 64 ==> m == 0xffff_ffff_ffff_ffffu64,
    ensures
        ((((w & !(m << s)) | ((v << s) & (m << s))) >> j) & 1 == 1) <==> (if s <= j < s + c {
            (v >> ((j - s) as u64)) & 1 == 1
        } else {
            (w >> j) & 1 == 1
        }),
{
}

/// The word `w` with its `c` bits starting at `s` replaced by the low bits of `v`.
pub open spec fn with_bits_word(w: u64, s: nat, c: nat, v: u64) -> u64 {
    if c == 0 {
        w
    } else {
        (w & !(low_mask(c) << (s as u64))) | ((v << (s as u64)) & (low_mask(c) << (s as u64)))
    }
}

/// Bit `j` of `with_bits_word(w, s, c, v)` comes from `v` inside the span and from `w` outside.
pub proof fn lemma_with_bits_word(w: u64, s: nat, c: nat, v: u64)
    requires
        s + c <= 64,
    ensures
        forall|j: nat| #[trigger]
            bit_of(with_bits_word(w, s, c, v), j) == if s <= j < s + c {
                bit_of(v, (j - s) as nat)
            } else {
                bit_of(w, j)
            },
{
    assert forall|j: nat| #[trigger]
        bit_of(with_bits_word(w, s, c, v), j) == if s <= j < s + c {
            bit_of(v, (j - s) as nat)
        } else {
            bit_of(w, j)
        } by {
        if j < 64 && c > 0 {
            lemma_with_bits_bv(w, s as u64, c as u64, low_mask(c), v, j as u64);
        }
    }
}

} // verus!

verus! {

/// The `c` bits of `w` starting at bit `s`, as a number (zero when `c` is zero).
pub open spec fn get_bits_word(w: u64, s: nat, c: nat) -> u64 {
    if c == 0 {
        0
    } else {
        (w >> (s as u64)) & low_mask(c)
    }
}

/// Computes `low_mask(n)`.
pub fn word_low_mask(n: usize) -> (r: u64)
    ensures
        r == low_mask(n as nat),
{
    if n >= 64 {
        0xffff_ffff_ffff_ffffu64
    } else {
        proof {
            lemma_mask_order_bv(n as u64, n as u64);
        }
        (1u64 << (n as u64)) - 1
    }
}

/// `low_mask` grows with its argument, and masking never exceeds the mask.
pub proof fn lemma_low_mask_mono(a: nat, b: nat)
    requires
        a <= b,
    ensures
        low_mask(a) <= low_mask(b),
{
    if b < 64 {
        lemma_mask_order_bv(a as u64, b as u64);
    } else if a < 64 {
        lemma_mask_order_bv(a as u64, a as u64);
    }
}

/// A masked word is at most the mask.
pub proof fn lemma_and_le(w: u64, m: u64)
    ensures
        w & m <= m,
        w & m <= w,
{
    lemma_word_facts(w, m, 0);
}

} // verus!

verus! {

/// `low_mask(n)` is `2^n - 1` below the word size.
pub proof fn lemma_low_mask_value(n: nat)
    requires
        n < 64,
    ensures
        low_mask(n) == pow2(n) - 1,
{
    vstd::bits::lemma_u64_pow2_no_overflow(n);
    vstd::bits::lemma_u64_shl_is_mul(1u64, n as u64);
}

proof fn lemma_set_bit_bv(w: u64, i: u64, j: u64, v: bool)
    by (bit_vector)
    requires
        i < 64,
        j < 64,
    ensures
        (((if v {
            w | (1u64 << i)
        } else {
            w & !(1u64 << i)
        }) >> j) & 1 == 1) <==> (if j == i {
            v
        } else {
            (w >> j) & 1 == 1
        }),
{
}

/// The word `w` with bit `i` set to `v`.
pub open spec fn with_bit_word(w: u64, i: nat, v: bool) -> u64 {
    if v {
        w | (1u64 << (i as u64))
    } else {
        w & !(1u64 << (i as u64))
    }
}

/// Bit `j` of `with_bit_word(w, i, v)` is `v` at `i` and that of `w` elsewhere.
pub proof fn lemma_with_bit_word(w: u64, i: nat, v: bool)
    requires
        i < 64,
    ensures
        forall|j: nat| #[trigger]
            bit_of(with_bit_word(w, i, v), j) == if j == i {
                v
            } else {
                bit_of(w, j)
            },
{
    assert forall|j: nat| #[trigger]
        bit_of(with_bit_word(w, i, v), j) == if j == i {
            v
        } else {
            bit_of(w, j)
        } by {
        if j < 64 {
            lemma_set_bit_bv(w, i as u64, j as u64, v);
        }
    }
}

} // verus!

verus! {

/// A word with no bit at or above `n` fits in `n` bits.
pub proof fn lemma_fits_from_bits(w: u64, n: nat)
    requires
        n <= 64,
        forall|j: nat| n <= j < 64 ==> !#[trigger] bit_of(w, j),
    ensures
        w <= low_mask(n),
{
    lemma_fits_bits(w, n);
}

/// A word that fits in `n` bits has no bit at or above `n`.
pub proof fn lemma_bits_from_fits(w: u64, n: nat)
    requires
        n <= 64,
        w <= low_mask(n),
    ensures
        forall|j: nat| n <= j ==> !#[trigger] bit_of(w, j),
{
    lemma_fits_bits(w, n);
    assert forall|j: nat| n <= j implies !#[trigger] bit_of(w, j) by {
        if j < 64 {
        }
    }
}

/// The zero word has no bits.
pub proof fn lemma_zero_bits()
    ensures
        forall|j: nat| !#[trigger] bit_of(0u64, j),
{
    assert forall|j: nat| !#[trigger] bit_of(0u64, j) by {
        if j < 64 {
            lemma_word_facts(0, 0, j as u64);
        }
    }
}

} // verus!

verus! {

/// The position `63 - leading_zeros(w)` of the highest set bit of `w > 1` brackets `w`
/// between consecutive powers of two.
pub proof fn lemma_highest_bit(w: u64, lz: int)
    requires
        w > 0,
        lz == vstd::std_specs::bits::u64_leading_zeros(w),
    ensures
        0 <= lz < 64,
        pow2((63 - lz) as nat) <= w < pow2((64 - lz) as nat),
{
    vstd::std_specs::bits::axiom_u64_leading_zeros(w);
    let r = (63 - lz) as u64;
    assert(w >> r == 1) by (bit_vector)
        requires
            r < 64,
            (w >> r) & 1u64 != 0u64,
            w >> ((r + 1) as u64) == 0,
    ;
    vstd::bits::lemma_u64_shr_is_div(w, r);
    lemma_pow2_pos(r as nat);
    vstd::arithmetic::power2::lemma_pow2_unfold((r + 1) as nat);
    assert(pow2(r as nat) <= w) by (nonlinear_arith)
        requires
            w as nat / pow2(r as nat) == 1,
            pow2(r as nat) > 0,
    ;
    assert(w < 2 * pow2(r as nat)) by (nonlinear_arith)
        requires
            w as nat / pow2(r as nat) == 1,
            pow2(r as nat) > 0,
    ;
}

} // verus!

verus! {

proof fn lemma_or_shift_bv(h: u64, l: u64, m: u64, j: u64)
    by (bit_vector)
    requires
        m < 64,
        j < 64,
        l >> m == 0,
    ensures
        ((((h << m) | l) >> j) & 1 == 1) <==> (if j < m {
            (l >> j) & 1 == 1
        } else {
            (h >> ((j - m) as u64)) & 1 == 1
        }),
{
}

/// Bits of `(h << m) | l` where `l` fits in `m` bits: those of `l` below `m`, those of `h`
/// shifted up from `m`.
pub proof fn lemma_or_shift_bits(h: u64, l: u64, m: nat)
    requires
        m < 64,
        l <= low_mask(m),
    ensures
        forall|j: nat|
            j < 64 ==> #[trigger] bit_of((h << (m as u64)) | l, j) == if j < m {
                bit_of(l, j)
            } else {
                bit_of(h, (j - m) as nat)
            },
{
    let mm = m as u64;
    assert(l >> mm == 0) by (bit_vector)
        requires
            mm < 64,
            l <= ((1u64 << mm) - 1) as u64,
    ;
    assert forall|j: nat| j < 64 implies #[trigger] bit_of((h << (m as u64)) | l, j) == if j < m {
        bit_of(l, j)
    } else {
        bit_of(h, (j - m) as nat)
    } by {
        lemma_or_shift_bv(h, l, mm, j as u64);
    }
}

} // verus!

verus! {

proof fn lemma_shr_bits_bv(w: u64, m: u64, j: u64)
    by (bit_vector)
    requires
        m < 64,
        j < 64,
    ensures
        (((w >> m) >> j) & 1 == 1) <==> (j + m < 64 && (w >> ((j + m) as u64)) & 1 == 1),
{
}

/// Bit `j` of `w >> m` is bit `j + m` of `w`.
pub proof fn lemma_shr_bits(w: u64, m: nat)
    requires
        m < 64,
    ensures
        forall|j: nat| #[trigger] bit_of(w >> (m as u64), j) == bit_of(w, j + m),
{
    assert forall|j: nat| #[trigger] bit_of(w >> (m as u64), j) == bit_of(w, j + m) by {
        if j < 64 {
            lemma_shr_bits_bv(w, m as u64, j as u64);
        }
    }
}

} // verus!

verus! {

proof fn lemma_shl_wrap_bv(x: u64, s: u64, p: u64)
    by (bit_vector)
    requires
        s < 64,
        p == 1u64 << s,
    ensures
        x << s == ((x * p) % 0x1_0000_0000_0000_0000) as u64,
{
}

/// Shifting left by `s` multiplies by `2^s`, wrapping around at 64 bits.
pub proof fn lemma_shl_wrap(x: u64, s: nat)
    requires
        s < 64,
    ensures
        (x << (s as u64)) as nat == (x * pow2(s)) % 0x1_0000_0000_0000_0000,
        x * pow2(s) <= u64::MAX ==> (x << (s as u64)) == x * pow2(s),
{
    vstd::bits::lemma_u64_pow2_no_overflow(s);
    vstd::bits::lemma_u64_shl_is_mul(1u64, s as u64);
    lemma_shl_wrap_bv(x, s as u64, 1u64 << (s as u64));
    if x * pow2(s) <= u64::MAX {
        vstd::arithmetic::div_mod::lemma_small_mod((x * pow2(s)) as nat, 0x1_0000_0000_0000_0000);
    }
}

} // verus!

verus! {

/// The number of one bits of `w` below bit `k`.
pub open spec fn ones_below(w: u64, k: nat) -> nat
    decreases k,
{
    if k == 0 {
        0
    } else {
        ones_below(w, (k - 1) as nat) + if bit_of(w, (k - 1) as nat) {
            1nat
        } else {
            0nat
        }
    }
}

proof fn lemma_mask_split_bv(w: u64, k: u64, k1: u64, m: u64, m1: u64)
    by (bit_vector)
    requires
        k < 64,
        k1 == k + 1,
        m == ((1u64 << k) - 1) as u64,
        k < 63 ==> m1 == ((1u64 << k1) - 1) as u64,
        k == 63 ==> m1 == 0xffff_ffff_ffff_ffffu64,
    ensures
        (w & m1) % ((m + 1) as u64) == w & m,
        (w & m1) / ((m + 1) as u64) == (w >> k) & 1,
{
}

/// Counting the ones of `w` under a mask of `k` low bits counts its ones below `k`.
pub proof fn lemma_popcount_low_mask(w: u64, k: nat)
    requires
        k <= 64,
    ensures
        popcount((w & low_mask(k)) as nat) == ones_below(w, k),
    decreases k,
{
    if k == 0 {
        lemma_width_masks();
        lemma_word_facts(w, 0, 0);
    } else {
        let j = (k - 1) as nat;
        lemma_popcount_low_mask(w, j);
        let x = w & low_mask(k);
        lemma_low_mask_value(j);
        lemma_mask_split_bv(w, j as u64, k as u64, low_mask(j), low_mask(k));
        lemma_popcount_split(x as nat, j);
        let jj = j as u64;
        let b = (w >> jj) & 1;
        lemma_word_facts(w, 0, jj);
        assert(popcount(1) == 1) by {
            reveal_with_fuel(popcount, 2);
        }
        vstd::bits::lemma_u64_pow2_no_overflow(j);
        assert(pow2(j) == (low_mask(j) + 1) as u64);
        assert(x as nat % pow2(j) == (w & low_mask(j)) as nat);
        assert(x as nat / pow2(j) == b as nat);
        assert(popcount(b as nat) == if bit_of(w, j) {
            1nat
        } else {
            0nat
        });
    }
}

} // verus!

verus! {

/// Ones below `k` are the ones below `n` when no bit lies in between.
pub proof fn lemma_ones_below_stable(w: u64, n: nat, k: nat)
    requires
        n <= k,
        forall|j: nat| n <= j < k ==> !#[trigger] bit_of(w, j),
    ensures
        ones_below(w, k) == ones_below(w, n),
    decreases k - n,
{
    if n < k {
        lemma_ones_below_stable(w, n, (k - 1) as nat);
    }
}

/// The ones of a word are its ones below bit 64.
pub proof fn lemma_popcount_ones_below(w: u64)
    ensures
        popcount(w as nat) == ones_below(w, 64),
{
    lemma_popcount_low_mask(w, 64);
    lemma_word_facts(w, 0, 0);
}

} // verus!

verus! {

proof fn lemma_word_ops_bv(a: u64, b: u64, s: u64, j: u64)
    by (bit_vector)
    requires
        s < 64,
        j < 64,
    ensures
        (((a | b) >> j) & 1 == 1) == (((a >> j) & 1 == 1) || ((b >> j) & 1 == 1)),
        (((a << s) >> j) & 1 == 1) == (s <= j && ((a >> ((j - s) as u64)) & 1 == 1)),
        (((!a) >> j) & 1 == 1) == !((a >> j) & 1 == 1),
{
}

/// Bit `j` of `a | b` is set where it is set in either.
pub proof fn lemma_or_bits(a: u64, b: u64)
    ensures
        forall|j: nat| #[trigger] bit_of(a | b, j) == (bit_of(a, j) || bit_of(b, j)),
{
    assert forall|j: nat| #[trigger] bit_of(a | b, j) == (bit_of(a, j) || bit_of(b, j)) by {
        if j < 64 {
            lemma_word_ops_bv(a, b, 0, j as u64);
        }
    }
}

/// Bit `j` of `a << s` is bit `j - s` of `a`, and clear below `s`.
pub proof fn lemma_shl_bits(a: u64, s: nat)
    requires
        s < 64,
    ensures
        forall|j: nat| #[trigger] bit_of(a << (s as u64), j) == (s <= j < 64 && bit_of(a, (j - s) as nat)),
{
    assert forall|j: nat| #[trigger] bit_of(a << (s as u64), j) == (s <= j < 64 && bit_of(a, (j - s) as nat)) by {
        if j < 64 {
            lemma_word_ops_bv(a, 0, s as u64, j as u64);
        }
    }
}

/// The bits of `!a` below 64 are the clear bits of `a`.
pub proof fn lemma_not_bits(a: u64)
    ensures
        forall|j: nat| #[trigger] bit_of(!a, j) == (j < 64 && !bit_of(a, j)),
{
    assert forall|j: nat| #[trigger] bit_of(!a, j) == (j < 64 && !bit_of(a, j)) by {
        if j < 64 {
            lemma_word_ops_bv(a, 0, 0, j as u64);
        }
    }
}

/// There are at most `k` ones below bit `k`, and no fewer below a lower bit.
pub proof fn lemma_ones_below_bounds(w: u64, a: nat, k: nat)
    requires
        a <= k,
    ensures
        ones_below(w, k) <= k,
        ones_below(w, a) <= ones_below(w, k) <= ones_below(w, a) + (k - a),
    decreases k,
{
    if k > 0 {
        if a < k {
            lemma_ones_below_bounds(w, a, (k - 1) as nat);
        } else {
            lemma_ones_below_bounds(w, (k - 1) as nat, (k - 1) as nat);
        }
    }
}

/// Below bit `k <= 64`, the ones of `!w` are the zeros of `w`.
pub proof fn lemma_ones_below_not(w: u64, k: nat)
    requires
        k <= 64,
    ensures
        ones_below(!w, k) + ones_below(w, k) == k,
    decreases k,
{
    if k > 0 {
        lemma_ones_below_not(w, (k - 1) as nat);
        lemma_not_bits(w);
    }
}

/// The all-ones word has `k` ones below bit `k <= 64`; the zero word has none.
pub proof fn lemma_ones_below_full(k: nat)
    requires
        k <= 64,
    ensures
        ones_below(0xffff_ffff_ffff_ffffu64, k) == k,
        ones_below(0u64, k) == 0,
    decreases k,
{
    if k > 0 {
        lemma_ones_below_full((k - 1) as nat);
        lemma_word_facts(0, 0, (k - 1) as u64);
    }
}

} // verus!
