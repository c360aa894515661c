//! How a full small block is stored.
//!
//! The class of a small block, its number of ones, is kept apart from its code. The code is
//! the block's index among the blocks of its class, in the combinatorial number system: for
//! the ones at positions `p_1 < p_2 < ... < p_k`, the sum of `binom(p_i, i)`. It takes as many
//! bits as the largest index of the class needs, so a class with few blocks takes few bits,
//! and the classes of no ones and of all ones take none.

use vstd::prelude::*;

verus! {

use vstd::arithmetic::power2::{pow2, lemma_pow2_unfold, lemma_pow2_pos, lemma2_to64};
use crate::bits::{
    bit_of,
    low_mask,
    with_bit_word,
    lemma_with_bit_word,
    lemma_low_mask_value,
    ones_below,
    popcount,
    word_low_mask,
    lemma_not_bits,
    lemma_ones_below_bounds,
    lemma_ones_below_not,
    lemma_popcount_low_mask,
    lemma_popcount_ones_below,
    lemma_word_ext,
    lemma_word_facts,
    lemma_zero_bits,
};
use super::helpers::select_raw;

/// The binomial coefficient: the number of ways to choose `k` of `n`.
pub open spec fn binom(n: nat, k: nat) -> nat
    decreases n,
{
    if k == 0 {
        1
    } else if n == 0 {
        0
    } else {
        binom((n - 1) as nat, (k - 1) as nat) + binom((n - 1) as nat, k)
    }
}

/// The number of bits that `x` needs.
pub open spec fn bit_len(x: nat) -> nat
    decreases x,
{
    if x == 0 {
        0
    } else {
        1 + bit_len(x / 2)
    }
}

/// The number of code bits of a block of class `class`: enough for the largest index among
/// the blocks of that class.
pub open spec fn spec_code_length(class: u8) -> nat {
    if class <= 64 {
        bit_len((binom(64, class as nat) - 1) as nat)
    } else {
        0
    }
}

/// The index of the ones of `w` below bit `m` among the sets of as many positions below `m`.
pub open spec fn enum_code(w: u64, m: nat) -> nat
    decreases m,
{
    if m == 0 {
        0
    } else {
        enum_code(w, (m - 1) as nat) + if bit_of(w, (m - 1) as nat) {
            binom((m - 1) as nat, ones_below(w, (m - 1) as nat) + 1)
        } else {
            0
        }
    }
}

/// Bit `j` of the `k` positions below `m` whose index is `code`, found greedily from the
/// top: position `m - 1` is taken where the index reaches the sets that take it.
pub open spec fn greedy_bit(code: nat, k: nat, m: nat, j: nat) -> bool
    decreases m,
{
    if m == 0 {
        false
    } else {
        let q = (m - 1) as nat;
        let set = k > 0 && code >= binom(q, k);
        if j == q {
            set
        } else if j > q {
            false
        } else if set {
            greedy_bit((code - binom(q, k)) as nat, (k - 1) as nat, q, j)
        } else {
            greedy_bit(code, k, q, j)
        }
    }
}

/// The block that `code` stands for in class `class`: the word whose bits the greedy
/// decoding gives.
pub open spec fn block_word(code: u64, class: u8) -> u64 {
    choose|w: u64| #[trigger] decodes_to(w, code, class)
}

/// The bits of `w` are those that the greedy decoding of `code` in class `class` gives.
pub open spec fn decodes_to(w: u64, code: u64, class: u8) -> bool {
    forall|j: nat| j < 64 ==> #[trigger] bit_of(w, j) == greedy_bit(code as nat, class as nat, 64, j)
}

/// Binomial coefficients of `n >= 1` are at most `2^(n - 1)`.
proof fn lemma_binom_bound(n: nat, k: nat)
    requires
        n >= 1,
    ensures
        binom(n, k) <= pow2((n - 1) as nat),
    decreases n,
{
    if n == 1 {
        assert(pow2(0) == 1) by {
            vstd::arithmetic::power2::lemma2_to64();
        }
        if k >= 2 {
            assert(binom(0, (k - 1) as nat) == 0);
            assert(binom(0, k) == 0);
        } else if k == 1 {
            assert(binom(0, 1) == 0);
            assert(binom(1, 1) == binom(0, 0) + binom(0, 1));
        }
    } else {
        if k > 0 {
            lemma_binom_bound((n - 1) as nat, (k - 1) as nat);
            lemma_binom_bound((n - 1) as nat, k);
        } else {
            lemma_pow2_pos((n - 1) as nat);
        }
        lemma_pow2_unfold((n - 1) as nat);
    }
}

/// Binomial coefficients up to 64 fit 63 bits.
proof fn lemma_binom_fits(n: nat, k: nat)
    requires
        n <= 64,
    ensures
        binom(n, k) <= 0x8000_0000_0000_0000,
{
    lemma2_to64();
    if n >= 1 {
        lemma_binom_bound(n, k);
        if n < 64 {
            vstd::arithmetic::power2::lemma_pow2_strictly_increases((n - 1) as nat, 63);
        }
        vstd::arithmetic::power2::lemma2_to64_rest();
        assert(pow2(63) == 0x8000_0000_0000_0000);
    } else {
        assert(binom(0, k) <= 1);
    }
}

/// Choosing at most `n` of `n` can be done.
proof fn lemma_binom_pos(n: nat, k: nat)
    requires
        k <= n,
    ensures
        binom(n, k) >= 1,
    decreases n,
{
    if k > 0 && n > 0 {
        lemma_binom_pos((n - 1) as nat, (k - 1) as nat);
    }
}

/// Choosing more than `n` of `n` cannot be done.
proof fn lemma_binom_zero(n: nat, k: nat)
    requires
        k > n,
    ensures
        binom(n, k) == 0,
    decreases n,
{
    if n > 0 {
        lemma_binom_zero((n - 1) as nat, (k - 1) as nat);
        lemma_binom_zero((n - 1) as nat, k);
    }
}

/// Absorption: `binom(n, k) * k == n * binom(n - 1, k - 1)`.
proof fn lemma_absorb(n: nat, k: nat)
    requires
        n >= 1,
        k >= 1,
    ensures
        binom(n, k) * k == n * binom((n - 1) as nat, (k - 1) as nat),
    decreases n,
{
    if n == 1 {
        if k >= 2 {
            lemma_binom_zero(0, (k - 1) as nat);
            lemma_binom_zero(1, k);
            assert(binom(n, k) * k == 0) by (nonlinear_arith)
                requires
                    binom(n, k) == 0,
            ;
            assert(n * binom((n - 1) as nat, (k - 1) as nat) == 0) by (nonlinear_arith)
                requires
                    binom((n - 1) as nat, (k - 1) as nat) == 0,
            ;
        } else {
            assert(binom(0, 1) == 0);
            assert(binom(1, 1) == binom(0, 0) + binom(0, 1));
            assert(binom(n, k) == 1);
            assert(binom((n - 1) as nat, (k - 1) as nat) == 1);
        }
    } else {
        let m = (n - 1) as nat;
        // binom(n, k) = binom(m, k - 1) + binom(m, k)
        lemma_absorb(m, k);
        let a = binom(m, (k - 1) as nat);
        let b = binom(m, k);
        let bk = binom((m - 1) as nat, (k - 1) as nat);
        assert(b * k == m * bk);
        if k == 1 {
            assert(binom(m, 0) == 1);
            assert(binom((m - 1) as nat, 0) == 1);
            assert(binom(n, k) * k == a + b) by (nonlinear_arith)
                requires
                    binom(n, k) == a + b,
                    k == 1,
            ;
            assert(a + b == n * a) by (nonlinear_arith)
                requires
                    a == 1,
                    b == m * bk,
                    bk == 1,
                    n == m + 1,
            ;
        } else {
            lemma_absorb(m, (k - 1) as nat);
            let c = binom((m - 1) as nat, (k - 2) as nat);
            assert(a * (k - 1) == m * c);
            assert(a == c + bk);
            assert(binom(n, k) * k == n * a) by (nonlinear_arith)
                requires
                    binom(n, k) == a + b,
                    b * k == m * bk,
                    a * (k - 1) == m * c,
                    a == c + bk,
                    n == m + 1,
                    k >= 2,
            ;
        }
    }
}

/// `x` fits in `bit_len(x)` bits, and in any `n` bits that hold it.
proof fn lemma_bit_len(x: nat, n: nat)
    ensures
        x < pow2(bit_len(x)),
        x < pow2(n) ==> bit_len(x) <= n,
    decreases x,
{
    assert(pow2(0) == 1) by {
        vstd::arithmetic::power2::lemma2_to64();
    }
    if x > 0 {
        if n > 0 {
            lemma_bit_len(x / 2, (n - 1) as nat);
            lemma_pow2_unfold(n);
        } else {
            lemma_bit_len(x / 2, 0);
        }
        lemma_pow2_unfold(bit_len(x / 2) + 1);
    }
}

/// The code lengths are below 64 bits, and a class's indices fit its length.
proof fn lemma_code_length(class: u8)
    requires
        class <= 64,
    ensures
        spec_code_length(class) < 64,
        binom(64, class as nat) >= 1,
        (binom(64, class as nat) - 1) as nat <= low_mask(spec_code_length(class)),
{
    let b = binom(64, class as nat);
    lemma_binom_bound(64, class as nat);
    lemma_binom_pos(64, class as nat);
    lemma2_to64();
    lemma_bit_len((b - 1) as nat, 63);
    lemma_low_mask_value(spec_code_length(class));
}

/// Every class's code fits less than a word.
pub broadcast proof fn lemma_code_length_fits(class: u8)
    ensures
        #[trigger] spec_code_length(class) < 64,
{
    if class <= 64 {
        lemma_code_length(class);
    }
}

/// The index of the ones below `m` is below the number of such sets.
proof fn lemma_enum_bound(w: u64, m: nat)
    ensures
        enum_code(w, m) < binom(m, ones_below(w, m)),
    decreases m,
{
    if m > 0 {
        let q = (m - 1) as nat;
        lemma_enum_bound(w, q);
    }
}

/// The greedy decoding of the index of the ones of `w` below `m` gives back those ones.
proof fn lemma_greedy(w: u64, m: nat)
    ensures
        forall|j: nat| #[trigger] greedy_bit(enum_code(w, m), ones_below(w, m), m, j) == (j < m
            && bit_of(w, j)),
    decreases m,
{
    if m > 0 {
        let q = (m - 1) as nat;
        lemma_greedy(w, q);
        lemma_enum_bound(w, q);
        let k = ones_below(w, m);
        let c = enum_code(w, m);
        assert forall|j: nat| #[trigger] greedy_bit(c, k, m, j) == (j < m && bit_of(w, j)) by {
            if j < q {
                assert(greedy_bit(enum_code(w, q), ones_below(w, q), q, j) == (j < q && bit_of(w, j)));
            }
        }
    }
}

/// Encoding a block and decoding its code gives the block back.
proof fn lemma_block_word(w: u64, class: u8)
    requires
        class as nat == ones_below(w, 64),
        enum_code(w, 64) <= u64::MAX,
    ensures
        block_word(enum_code(w, 64) as u64, class) == w,
{
    lemma_greedy(w, 64);
    let code = enum_code(w, 64) as u64;
    assert(decodes_to(w, code, class));
    let v = block_word(code, class);
    assert(decodes_to(v, code, class));
    lemma_word_ext(v, w);
}

/// `binom(64, class)`.
fn binom_64(class: u8) -> (r: u64)
    requires
        class <= 64,
    ensures
        r == binom(64, class as nat),
{
    // binom(64 - class + i, i), for i from 0 up to class.
    let start: u64 = 64 - class as u64;
    let mut x: u64 = 1;
    let mut i: u64 = 0;
    while i < class as u64
        invariant
            class <= 64,
            start == 64 - class,
            i <= class,
            x == binom((start + i) as nat, i as nat),
        decreases class - i,
    {
        let m = start + i;
        proof {
            lemma_absorb((m + 1) as nat, (i + 1) as nat);
            lemma_binom_fits((m + 1) as nat, (i + 1) as nat);
            lemma_binom_fits(m as nat, i as nat);
            let y = binom((m + 1) as nat, (i + 1) as nat);
            assert((x * (m + 1)) as int == y * (i + 1)) by (nonlinear_arith)
                requires
                    y * (i + 1) == (m + 1) * binom(m as nat, i as nat),
                    x == binom(m as nat, i as nat),
            ;
            vstd::arithmetic::div_mod::lemma_div_by_multiple(y as int, (i + 1) as int);
            assert(x * (m + 1) <= 0x8000_0000_0000_0000 * 64) by (nonlinear_arith)
                requires
                    x <= 0x8000_0000_0000_0000,
                    m + 1 <= 64,
            ;
        }
        let product: u128 = x as u128 * (m + 1) as u128;
        x = (product / (i + 1) as u128) as u64;
        i = i + 1;
    }
    x
}

/// The number of bits that `x` needs.
fn bit_length(x: u64) -> (r: u8)
    ensures
        r == bit_len(x as nat),
{
    proof {
        lemma2_to64();
        lemma_bit_len(x as nat, 64);
    }
    let mut v: u64 = x;
    let mut len: u8 = 0;
    while v > 0
        invariant
            len + bit_len(v as nat) == bit_len(x as nat),
            bit_len(x as nat) <= 64,
        decreases v,
    {
        v = v / 2;
        len = len + 1;
    }
    len
}

/// The code length of a class.
pub fn code_length(class: u8) -> (r: u8)
    requires
        class <= 64,
    ensures
        r == spec_code_length(class),
{
    proof {
        lemma_code_length(class);
    }
    bit_length(binom_64(class) - 1)
}

/// One step down from `binom(p, k)`: `binom(p - 1, k - 1)`, by absorption.
fn binom_down(x: u64, p: u64, k: u64) -> (r: u64)
    requires
        1 <= p <= 64,
        1 <= k,
        x == binom(p as nat, k as nat),
    ensures
        r == binom((p - 1) as nat, (k - 1) as nat),
{
    proof {
        lemma_absorb(p as nat, k as nat);
        lemma_binom_fits(p as nat, k as nat);
        let y = binom((p - 1) as nat, (k - 1) as nat);
        if k > 64 {
            lemma_binom_zero(p as nat, k as nat);
        }
        assert(x * k == y * p) by (nonlinear_arith)
            requires
                x * k == p * y,
        ;
        vstd::arithmetic::div_mod::lemma_div_by_multiple(y as int, p as int);
    }
    if k > 64 {
        proof {
            lemma_binom_zero((p - 1) as nat, (k - 1) as nat);
        }
        return 0;
    }
    proof {
        assert(x * k <= 0x8000_0000_0000_0000 * 64) by (nonlinear_arith)
            requires
                x <= 0x8000_0000_0000_0000,
                k <= 64,
        ;
    }
    let product: u128 = x as u128 * k as u128;
    (product / p as u128) as u64
}

/// The code of `block`, whose class is `class`: its length and its bits.
pub fn encode(block: u64, class: u8) -> (r: (u8, u64))
    requires
        class == popcount(block as nat),
    ensures
        r.0 == spec_code_length(class),
        r.1 <= low_mask(r.0 as nat),
        block_word(r.1, class) == block,
{
    proof {
        lemma_popcount_ones_below(block);
        lemma_ones_below_bounds(block, 0, 64);
        lemma_enum_bound(block, 64);
        lemma_code_length(class);
        lemma_binom_fits(64, class as nat);
    }
    // Down from the top: `k` ones below `p`, `x == binom(p, k)`, and `code` the part of the
    // index that the ones at or above `p` give.
    let mut x: u64 = binom_64(class);
    let mut k: u64 = class as u64;
    let mut code: u64 = 0;
    let mut p: u64 = 64;
    while p > 0
        invariant
            p <= 64,
            k == ones_below(block, p as nat),
            x == binom(p as nat, k as nat),
            code + enum_code(block, p as nat) == enum_code(block, 64),
            enum_code(block, 64) < binom(64, class as nat),
            binom(64, class as nat) <= 0x8000_0000_0000_0000,
        decreases p,
    {
        let q = p - 1;
        proof {
            lemma_word_facts(block, 0, q);
            lemma_ones_below_bounds(block, q as nat, p as nat);
        }
        if k > 0 {
            let y = binom_down(x, p, k);
            // binom(q, k) is what is left of binom(p, k).
            let rest = x - y;
            if (block >> q) & 1 == 1 {
                code = code + rest;
                x = y;
                k = k - 1;
            } else {
                x = rest;
            }
        } else {
            proof {
                assert(!bit_of(block, q as nat));
            }
        }
        p = q;
    }
    proof {
        lemma_block_word(block, class);
    }
    (code_length(class), code)
}

/// The word that `code` stands for in class `class`.
fn decode_word(code: u64, class: u8) -> (r: u64)
    requires
        class <= 64,
    ensures
        r == block_word(code, class),
{
    proof {
        lemma_zero_bits();
    }
    let mut w: u64 = 0;
    let mut c: u64 = code;
    let mut k: u64 = class as u64;
    let mut x: u64 = binom_64(class);
    let mut p: u64 = 64;
    while p > 0
        invariant
            p <= 64,
            k <= 64,
            x == binom(p as nat, k as nat),
            forall|j: nat|
                j < 64 ==> #[trigger] greedy_bit(code as nat, class as nat, 64, j) == if j >= p {
                    bit_of(w, j)
                } else {
                    greedy_bit(c as nat, k as nat, p as nat, j)
                },
            forall|j: nat| j < p ==> !#[trigger] bit_of(w, j),
        decreases p,
    {
        let q = p - 1;
        let ghost old_w = w;
        let ghost old_c = c as nat;
        let ghost old_k = k as nat;
        if k > 0 {
            let y = binom_down(x, p, k);
            let rest = x - y;
            if c >= rest {
                c = c - rest;
                x = y;
                k = k - 1;
                proof {
                    lemma_with_bit_word(old_w, q as nat, true);
                }
                w = w | (1u64 << q);
                proof {
                    assert(w == with_bit_word(old_w, q as nat, true));
                }
            } else {
                x = rest;
            }
        }
        proof {
            assert forall|j: nat| j < 64 implies #[trigger] greedy_bit(code as nat, class as nat, 64, j)
                == if j >= q {
                bit_of(w, j)
            } else {
                greedy_bit(c as nat, k as nat, q as nat, j)
            } by {
                if j < p {
                    assert(greedy_bit(old_c, old_k, p as nat, j) == if j == q {
                        bit_of(w, j)
                    } else {
                        greedy_bit(c as nat, k as nat, q as nat, j)
                    });
                }
            }
        }
        p = q;
    }
    proof {
        assert(decodes_to(w, code, class));
        let v = block_word(code, class);
        assert(decodes_to(v, code, class));
        lemma_word_ext(v, w);
    }
    w
}

/// Bit `pos` of the block that `code` stands for.
pub fn decode_bit(code: u64, class: u8, pos: u64) -> (r: bool)
    requires
        class <= 64,
        pos < 64,
    ensures
        r == bit_of(block_word(code, class), pos as nat),
{
    let w = decode_word(code, class);
    proof {
        lemma_word_facts(w, 0, pos);
    }
    (w >> pos) & 1 == 1
}

/// The ones of the block that `code` stands for below bit `pos`.
pub fn rank(code: u64, class: u8, pos: u64) -> (r: u64)
    requires
        class <= 64,
        pos <= 64,
    ensures
        r == ones_below(block_word(code, class), pos as nat),
{
    let w = decode_word(code, class);
    let mask = word_low_mask(pos as usize);
    proof {
        lemma_popcount_low_mask(w, pos as nat);
        lemma_ones_below_bounds(w, 0, pos as nat);
    }
    crate::broadword::count_ones(w & mask) as u64
}

/// The position of the `rank`th one of `x`, counting from zero.
pub fn select1_raw(x: u64, rank: u64) -> (r: u64)
    requires
        rank < ones_below(x, 64),
    ensures
        r < 64,
        bit_of(x, r as nat),
        ones_below(x, r as nat) == rank,
{
    proof {
        lemma_ones_below_bounds(x, 0, 64);
    }
    select_raw(x, (rank + 1) as u8) as u64
}

/// The position of the `rank`th one of the block that `code` stands for.
pub fn select1(code: u64, class: u8, rank: u64) -> (r: u64)
    requires
        class <= 64,
        rank < ones_below(block_word(code, class), 64),
    ensures
        r < 64,
        bit_of(block_word(code, class), r as nat),
        ones_below(block_word(code, class), r as nat) == rank,
{
    select1_raw(decode_word(code, class), rank)
}

/// The position of the `rank`th zero of the block that `code` stands for.
pub fn select0(code: u64, class: u8, rank: u64) -> (r: u64)
    requires
        class <= 64,
        rank + ones_below(block_word(code, class), 64) < 64,
    ensures
        r < 64,
        !bit_of(block_word(code, class), r as nat),
        r - ones_below(block_word(code, class), r as nat) == rank,
{
    let w = decode_word(code, class);
    proof {
        lemma_ones_below_not(w, 64);
    }
    let r = select1_raw(!w, rank);
    proof {
        lemma_ones_below_not(w, r as nat);
        lemma_not_bits(w);
    }
    r
}

} // verus!
