//! A dictionary that answers both rank and select queries over a growing bitmap.
//!
//! The bitmap is cut into small blocks of 64 bits. Each full small block is stored as its
//! class (its number of ones) and a code of a length that the class determines; the last,
//! possibly partial, small block is kept apart as a plain word. Every 1024 bits, a large block
//! records the rank before it and where its codes start. For select, the large block of every
//! 2048th one (and zero) is recorded, to start the search near the answer.

pub mod constants;
pub mod helpers;
pub mod block_code;
pub mod varint_buffer;

use vstd::prelude::*;

verus! {

use crate::bits::{
    bit_of,
    low_mask,
    ones_below,
    popcount,
    lemma_ones_below_bounds,
    lemma_popcount_ones_below,
    lemma_shr_bits,
    lemma_with_bit_word,
    with_bit_word,
    lemma_zero_bits,
    lemma_word_facts,
};
use crate::bit_vec::traits::{blocks_bits, word_bits};
use crate::int_vec::traits::{bits_word, lemma_bits_word, lemma_bits_word_agree};
use crate::rank::traits::{count_in, lemma_count_agree, lemma_count_bool, lemma_count_le, lemma_count_mono, lemma_count_window};
use crate::rank::prim::lemma_count_word_bits;
use crate::select::traits::{
    SelectSupport,
    SelectSupport0,
    SelectSupport1,
    is_occurrence,
    select_answer,
    lemma_occurrence_exists,
};
use crate::space_usage::{SpaceUsage, saturated};
use self::constants::{LARGE_BLOCK_SIZE, SELECT_BLOCK_SIZE, SMALL_BLOCK_PER_LARGE_BLOCK, SMALL_BLOCK_SIZE};
use self::block_code::{spec_code_length, block_word, code_length};

broadcast use self::block_code::lemma_code_length_fits;
use self::varint_buffer::VarintBuffer;

/// The code bits that the first `i` small blocks take.
pub open spec fn code_offset(classes: Seq<u8>, i: nat) -> nat
    decreases i,
{
    if i == 0 {
        0
    } else {
        code_offset(classes, (i - 1) as nat) + spec_code_length(classes[i - 1])
    }
}

/// The ones of the first `i` small blocks.
pub open spec fn class_sum(classes: Seq<u8>, i: nat) -> nat
    decreases i,
{
    if i == 0 {
        0
    } else {
        class_sum(classes, (i - 1) as nat) + classes[i - 1] as nat
    }
}

/// The code of full small block `i`: the number that its code bits make, least significant
/// first.
pub open spec fn stored_code(classes: Seq<u8>, codes: Seq<bool>, i: int) -> u64 {
    bits_word(codes, code_offset(classes, i as nat) as int, spec_code_length(classes[i])) as u64
}

/// Bit `j` of full small block `i`: of the block that its class and code stand for.
pub open spec fn stored_bit(classes: Seq<u8>, codes: Seq<bool>, i: int, j: int) -> bool {
    bit_of(block_word(stored_code(classes, codes, i), classes[i]), j as nat)
}

/// The number of full small blocks of a bitmap of `len` bits: all but the last block.
pub open spec fn full_blocks(len: nat) -> nat {
    if len == 0 {
        0
    } else {
        ((len - 1) as nat / 64) as nat
    }
}

/// The number of large blocks of a bitmap of `len` bits: one for each start of 1024 bits.
pub open spec fn large_count(len: nat) -> nat {
    ((len + 1023) as nat / 1024) as nat
}

/// The number of select entries for `count` occurrences: one for each 2048th.
pub open spec fn select_count(count: nat) -> nat {
    ((count + 2047) as nat / 2048) as nat
}

/// The rank before a large block, and where its small blocks' codes start.
#[derive(Debug, Eq, PartialEq)]
struct LargeBlock {
    pointer: u64,
    rank: u64,
}

impl SpaceUsage for LargeBlock {
    open spec fn spec_stack_only() -> bool {
        true
    }

    open spec fn spec_heap_floor(&self) -> nat {
        0
    }

    open spec fn spec_heap_outcome(&self, h: nat) -> bool {
        h == 0
    }

    fn is_stack_only() -> (r: bool) {
        true
    }

    fn heap_bytes(&self) -> (r: usize) {
        0
    }
}

/// The last small block, which is still being filled: its bits and their counts.
#[derive(Debug, Eq, PartialEq)]
struct LastBlock {
    bits: u64,
    num_ones: u64,
    num_zeros: u64,
}

impl LastBlock {
    /// An empty block.
    fn new() -> (r: Self)
        ensures
            r.bits == 0,
            r.num_ones == 0,
            r.num_zeros == 0,
    {
        LastBlock { bits: 0, num_ones: 0, num_zeros: 0 }
    }

    /// The position of the `rank`th zero of the block.
    fn select0(&self, rank: u8) -> (r: u64)
        requires
            rank + ones_below(self.bits, 64) < 64,
        ensures
            r < 64,
            !bit_of(self.bits, r as nat),
            r - ones_below(self.bits, r as nat) == rank,
    {
        let ghost w = self.bits;
        proof {
            crate::bits::lemma_ones_below_not(w, 64);
        }
        let r = block_code::select1_raw(!self.bits, rank as u64);
        proof {
            crate::bits::lemma_ones_below_not(w, r as nat);
            crate::bits::lemma_not_bits(w);
        }
        r
    }

    /// The position of the `rank`th one of the block.
    fn select1(&self, rank: u8) -> (r: u64)
        requires
            rank < ones_below(self.bits, 64),
        ensures
            r < 64,
            bit_of(self.bits, r as nat),
            ones_below(self.bits, r as nat) == rank,
    {
        block_code::select1_raw(self.bits, rank as u64)
    }

    /// The number of ones at positions `pos` and above.
    fn count_suffix(&self, pos: u64) -> (r: u64)
        requires
            pos < 64,
        ensures
            r + ones_below(self.bits, pos as nat) == ones_below(self.bits, 64),
    {
        proof {
            lemma_shift_ones(self.bits, pos as nat);
        }
        crate::broadword::count_ones(self.bits >> pos) as u64
    }

    /// Bit `pos` of the block.
    fn get_bit(&self, pos: u64) -> (r: bool)
        requires
            pos < 64,
        ensures
            r == bit_of(self.bits, pos as nat),
    {
        (self.bits >> pos) & 1 == 1
    }

    /// Sets bit `pos`, which is clear, and counts it.
    fn set_one(&mut self, pos: u64)
        requires
            pos < 64,
            old(self).num_ones < 64,
        ensures
            final(self).bits == with_bit_word(old(self).bits, pos as nat, true),
            final(self).num_ones == old(self).num_ones + 1,
            final(self).num_zeros == old(self).num_zeros,
    {
        self.bits = self.bits | (1u64 << pos);
        self.num_ones = self.num_ones + 1;
    }

    /// Counts a clear bit at `pos`.
    fn set_zero(&mut self, _pos: u64)
        requires
            old(self).num_zeros < 64,
        ensures
            final(self).bits == old(self).bits,
            final(self).num_ones == old(self).num_ones,
            final(self).num_zeros == old(self).num_zeros + 1,
    {
        self.num_zeros = self.num_zeros + 1;
    }
}

/// The ones of `w >> q` are those of `w` from bit `q` on.
proof fn lemma_shift_ones(w: u64, q: nat)
    requires
        q < 64,
    ensures
        popcount((w >> (q as u64)) as nat) + ones_below(w, q) == ones_below(w, 64),
{
    lemma_popcount_ones_below(w >> (q as u64));
    lemma_shr_bits(w, q);
    lemma_shifted_ones(w, q, (64 - q) as nat);
    let v = w >> (q as u64);
    crate::bits::lemma_ones_below_stable(v, (64 - q) as nat, 64);
}

/// Counting `k` bits of `w >> q` counts the bits of `w` from `q` to `q + k`.
proof fn lemma_shifted_ones(w: u64, q: nat, k: nat)
    requires
        q < 64,
        q + k <= 64,
    ensures
        ones_below(w >> (q as u64), k) + ones_below(w, q) == ones_below(w, q + k),
    decreases k,
{
    lemma_shr_bits(w, q);
    if k > 0 {
        lemma_shifted_ones(w, q, (k - 1) as nat);
    }
}

/// `x` for ones, and `n - x` for zeros.
fn rank_by_bit(x: u64, n: u64, b: bool) -> (r: u64)
    requires
        !b ==> x <= n,
    ensures
        r == if b {
            x
        } else {
            (n - x) as u64
        },
{
    if b {
        x
    } else {
        n - x
    }
}


/// How the block counts grow by one bit.
proof fn lemma_counts_step(len: nat)
    ensures
        len % 64 == 0 ==> full_blocks(len + 1) == len / 64,
        len % 64 == 0 && len > 0 ==> full_blocks(len) + 1 == len / 64 && 64 * full_blocks(len)
            + 64 == len,
        len % 64 != 0 ==> full_blocks(len + 1) == full_blocks(len) && len % 1024 != 0,
        len % 1024 == 0 ==> large_count(len + 1) == large_count(len) + 1 && large_count(len)
            == len / 1024 && 16 * (len / 1024) == len / 64,
        len % 1024 != 0 ==> large_count(len + 1) == large_count(len),
        64 * full_blocks(len + 1) <= len < 64 * full_blocks(len + 1) + 64,
        large_count(len + 1) >= 1,
        1024 * (large_count(len + 1) - 1) <= len,
        16 * (large_count(len + 1) - 1) <= full_blocks(len + 1),
{
    let q = (len / 64) as int;
    let r = (len % 64) as int;
    vstd::arithmetic::div_mod::lemma_fundamental_div_mod(len as int, 64);
    let q2 = (len / 1024) as int;
    let r2 = (len % 1024) as int;
    vstd::arithmetic::div_mod::lemma_fundamental_div_mod(len as int, 1024);
    if r == 0 && len > 0 {
        vstd::arithmetic::div_mod::lemma_fundamental_div_mod_converse((len - 1) as int, 64, q - 1, 63);
    }
    if r != 0 {
        vstd::arithmetic::div_mod::lemma_fundamental_div_mod_converse((len - 1) as int, 64, q, r - 1);
        assert(r2 != 0) by (nonlinear_arith)
            requires
                len == 64 * q + r,
                len == 1024 * q2 + r2,
                0 < r < 64,
                0 <= r2 < 1024,
        {
            if r2 == 0 {
                vstd::arithmetic::div_mod::lemma_fundamental_div_mod_converse(len as int, 64, 16 * q2, 0);
            }
        }
    }
    vstd::arithmetic::div_mod::lemma_fundamental_div_mod_converse(len as int, 64, q, r);
    vstd::arithmetic::div_mod::lemma_fundamental_div_mod_converse((len + 1023) as int, 1024, if r2 == 0 { q2 } else { q2 + 1 }, if r2 == 0 { 1023 } else { r2 - 1 });
    vstd::arithmetic::div_mod::lemma_fundamental_div_mod_converse((len + 1024) as int, 1024, q2 + 1, r2);
    if r2 == 0 {
        vstd::arithmetic::div_mod::lemma_fundamental_div_mod_converse(len as int, 64, 16 * q2, 0);
    }
    assert(16 * q2 <= q) by (nonlinear_arith)
        requires
            len == 64 * q + r,
            len == 1024 * q2 + r2,
            0 <= r < 64,
            0 <= r2 < 1024,
    ;
}

/// How the number of select entries grows by one occurrence.
proof fn lemma_select_step(n: nat)
    ensures
        n % 2048 == 0 ==> select_count(n + 1) == select_count(n) + 1 && select_count(n) == n
            / 2048,
        n % 2048 != 0 ==> select_count(n + 1) == select_count(n),
{
    let q = (n / 2048) as int;
    let r = (n % 2048) as int;
    vstd::arithmetic::div_mod::lemma_fundamental_div_mod(n as int, 2048);
    vstd::arithmetic::div_mod::lemma_fundamental_div_mod_converse((n + 2047) as int, 2048, if r == 0 { q } else { q + 1 }, if r == 0 { 2047 } else { r - 1 });
    vstd::arithmetic::div_mod::lemma_fundamental_div_mod_converse((n + 2048) as int, 2048, q + 1, r);
}

/// Counting a sequence with one more element: the same up to its old end, and one more there
/// where the element is the value counted.
proof fn lemma_count_push<T>(s: Seq<T>, x: T, v: T)
    ensures
        forall|k: nat| k <= s.len() ==> #[trigger] count_in(s.push(x), v, k) == count_in(s, v, k),
        count_in(s.push(x), v, s.len() + 1) == count_in(s, v, s.len()) + if x == v {
            1nat
        } else {
            0nat
        },
{
    assert forall|k: nat| k <= s.len() implies #[trigger] count_in(s.push(x), v, k) == count_in(
        s,
        v,
        k,
    ) by {
        crate::rank::traits::lemma_count_agree(s.push(x), s, v, k);
    }
    assert(s.push(x)[s.len() as int] == x);
    assert(count_in(s.push(x), v, s.len()) == count_in(s, v, s.len()));
    assert(count_in(s.push(x), v, s.len() + 1) == count_in(s.push(x), v, s.len()) + if s.push(
        x,
    )[s.len() as int] == v {
        1nat
    } else {
        0nat
    });
}

/// An occurrence in a sequence with one more element is one of the old sequence, or the new
/// element with as many occurrences before it as the old sequence has.
proof fn lemma_occurrence_push<T>(s: Seq<T>, x: T, v: T, o: nat, p: nat)
    requires
        is_occurrence(s.push(x), v, o, p),
    ensures
        p < s.len() ==> is_occurrence(s, v, o, p),
        p == s.len() ==> x == v && o == count_in(s, v, s.len()),
{
    lemma_count_push(s, x, v);
}

/// Setting a clear bit adds one to the ones at and above it.
proof fn lemma_ones_below_set(w: u64, i: nat, k: nat)
    requires
        i < 64,
        k <= 64,
        !bit_of(w, i),
    ensures
        ones_below(with_bit_word(w, i, true), k) == ones_below(w, k) + if i < k {
            1nat
        } else {
            0nat
        },
    decreases k,
{
    lemma_with_bit_word(w, i, true);
    if k > 0 {
        lemma_ones_below_set(w, i, (k - 1) as nat);
    }
}

/// The ones of the 64 bits of `w` that `s` holds from `start` on.
proof fn lemma_word_window(s: Seq<bool>, w: u64, start: nat, k: nat)
    requires
        k <= 64,
        start + k <= s.len(),
        forall|j: nat| j < k ==> #[trigger] bit_of(w, j) == s[(start + j) as int],
    ensures
        count_in(s, true, start + k) == count_in(s, true, start) + ones_below(w, k),
{
    let wb = word_bits(w, 64);
    assert forall|j: int| 0 <= j < k implies #[trigger] wb[j] == s[start + j] by {
        assert(bit_of(w, j as nat) == s[(start + j) as int]);
    }
    lemma_count_window(s, wb, true, start, k);
    lemma_count_word_bits(w, 64, k);
}

/// Appending a block and code bits keeps the codes of the blocks before.
proof fn lemma_stored_code_push(classes: Seq<u8>, codes: Seq<bool>, c: u8, extra: Seq<bool>, i: int)
    requires
        0 <= i < classes.len(),
        code_offset(classes, classes.len()) <= codes.len(),
    ensures
        stored_code(classes.push(c), codes + extra, i) == stored_code(classes, codes, i),
{
    lemma_sums_push(classes, c);
    lemma_offset_mono(classes, i as nat, classes.len());
    let off = code_offset(classes, i as nat) as int;
    let len = spec_code_length(classes[i]);
    assert(classes.push(c)[i] == classes[i]);
    assert forall|j: int| 0 <= j < len implies #[trigger] (codes + extra)[off + j] == codes[off + j] by {}
    lemma_bits_word_agree(codes + extra, off, codes, off, len);
}

/// The code bits appended for a new block make its code.
proof fn lemma_stored_code_new(classes: Seq<u8>, codes: Seq<bool>, c: u8, code: u64)
    requires
        code_offset(classes, classes.len()) == codes.len(),
        spec_code_length(c) <= 64,
        code <= low_mask(spec_code_length(c)),
    ensures
        stored_code(classes.push(c), codes + word_bits(code, spec_code_length(c)), classes.len() as int)
            == code,
{
    let len = spec_code_length(c);
    let t = codes + word_bits(code, len);
    lemma_sums_push(classes, c);
    assert(classes.push(c)[classes.len() as int] == c);
    crate::bits::lemma_fits_bits(code, len);
    assert forall|j: nat| #[trigger] bit_of(code, j) == (j < len && t[codes.len() as int + j]) by {
        if j >= 64 {
        } else if j >= len {
        }
    }
    lemma_bits_word(code, t, codes.len() as int, len);
}

/// The code offsets and ones sums of a prefix stay when a class is appended.
proof fn lemma_sums_push(classes: Seq<u8>, c: u8)
    ensures
        forall|i: nat| i <= classes.len() ==> #[trigger] code_offset(classes.push(c), i) == code_offset(classes, i),
        forall|i: nat| i <= classes.len() ==> #[trigger] class_sum(classes.push(c), i) == class_sum(classes, i),
        code_offset(classes.push(c), classes.len() + 1) == code_offset(classes, classes.len()) + spec_code_length(c),
        class_sum(classes.push(c), classes.len() + 1) == class_sum(classes, classes.len()) + c,
{
    assert forall|i: nat| i <= classes.len() implies #[trigger] code_offset(classes.push(c), i)
        == code_offset(classes, i) by {
        lemma_offset_prefix(classes, c, i);
    }
    assert forall|i: nat| i <= classes.len() implies #[trigger] class_sum(classes.push(c), i)
        == class_sum(classes, i) by {
        lemma_offset_prefix(classes, c, i);
    }
    lemma_offset_prefix(classes, c, classes.len());
}

proof fn lemma_offset_prefix(classes: Seq<u8>, c: u8, i: nat)
    requires
        i <= classes.len(),
    ensures
        code_offset(classes.push(c), i) == code_offset(classes, i),
        class_sum(classes.push(c), i) == class_sum(classes, i),
    decreases i,
{
    if i > 0 {
        lemma_offset_prefix(classes, c, (i - 1) as nat);
        assert(classes.push(c)[i - 1] == classes[i - 1]);
    }
}

/// Code offsets do not decrease, and a block's code ends by the offset of any later block.
proof fn lemma_offset_mono(classes: Seq<u8>, i: nat, k: nat)
    requires
        i < k,
    ensures
        code_offset(classes, i) + spec_code_length(classes[i as int]) <= code_offset(classes, k),
        class_sum(classes, i) + classes[i as int] <= class_sum(classes, k),
    decreases k - i,
{
    if i + 1 < k {
        lemma_offset_mono(classes, i, (k - 1) as nat);
    }
}

/// Code offsets grow by at most 64 bits per block.
proof fn lemma_offset_bound(classes: Seq<u8>, i: nat)
    ensures
        code_offset(classes, i) <= 64 * i,
    decreases i,
{
    if i > 0 {
        lemma_offset_bound(classes, (i - 1) as nat);
    }
}

/// Where small block `i` falls among large blocks.
proof fn lemma_block_grid(i: nat)
    ensures
        (64 * i) / 1024 == i / 16,
        ((64 * i) % 1024 == 0) == (i % 16 == 0),
        forall|p: nat| 64 * i <= p < 64 * i + 64 ==> #[trigger] (p / 1024) == i / 16,
        16 * (i / 16) <= i,
        large_count(64 * (i + 1)) == i / 16 + 1,
        i % 16 == 0 ==> large_count(64 * i) == i / 16,
        i % 16 != 0 ==> large_count(64 * i) == i / 16 + 1,
        1024 * (i / 16) <= 64 * i,
{
    let q = (i / 16) as int;
    let r = (i % 16) as int;
    vstd::arithmetic::div_mod::lemma_fundamental_div_mod(i as int, 16);
    assert(64 * i == 1024 * q + 64 * r);
    vstd::arithmetic::div_mod::lemma_fundamental_div_mod_converse((64 * i) as int, 1024, q, 64 * r);
    assert forall|p: nat| 64 * i <= p < 64 * i + 64 implies #[trigger] (p / 1024) == i / 16 by {
        vstd::arithmetic::div_mod::lemma_fundamental_div_mod_converse(p as int, 1024, q, p - 1024 * q);
    }
    vstd::arithmetic::div_mod::lemma_fundamental_div_mod_converse((64 * (i + 1) + 1023) as int, 1024, q + 1, 64 * r + 64 + 1023 - 1024);
    if r == 0 {
        vstd::arithmetic::div_mod::lemma_fundamental_div_mod_converse((64 * i + 1023) as int, 1024, q, 1023);
    } else {
        vstd::arithmetic::div_mod::lemma_fundamental_div_mod_converse((64 * i + 1023) as int, 1024, q + 1, 64 * r - 1);
    }
}

/// Counting up to `c <= 64` more occurrences passes at most one multiple of 2048, and the
/// select entries grow by one exactly when it does.
proof fn lemma_select_block(n: nat, c: nat)
    requires
        c <= 64,
    ensures
        select_count(n) <= select_count(n + c) <= select_count(n) + 1,
        select_count(n) == (n + 2047) / 2048,
        select_count(n + c) == (n + c + 2047) / 2048,
        forall|o: nat| n <= o < n + c && o % 2048 == 0 ==> #[trigger] (o / 2048) == select_count(n)
            && select_count(n + c) == select_count(n) + 1,
{
    let q = ((n + 2047) / 2048) as int;
    vstd::arithmetic::div_mod::lemma_fundamental_div_mod((n + 2047) as int, 2048);
    vstd::arithmetic::div_mod::lemma_fundamental_div_mod((n + c + 2047) as int, 2048);
    assert forall|o: nat| n <= o < n + c && o % 2048 == 0 implies #[trigger] (o / 2048) == select_count(n)
        && select_count(n + c) == select_count(n) + 1 by {
        vstd::arithmetic::div_mod::lemma_fundamental_div_mod(o as int, 2048);
    }
}

/// The representation of a dictionary.
#[derive(Debug)]
struct DictRepr {
    len: u64,
    num_ones: u64,
    num_zeros: u64,
    // Small block metadata: the class (number of ones) of each full small block, and their
    // codes, one after the other.
    sb_classes: Vec<u8>,
    sb_indices: VarintBuffer,
    // Large block metadata, every LARGE_BLOCK_SIZE bits: the rank before the block, and where
    // its small blocks' codes start.
    large_blocks: Vec<LargeBlock>,
    // Select acceleration: the large block of every SELECT_BLOCK_SIZE'th one, and zero.
    select_one_inds: Vec<u64>,
    select_zero_inds: Vec<u64>,
    // The small block that is being filled.
    last_block: LastBlock,
}

impl View for DictRepr {
    type V = Seq<bool>;

    /// The bits of the bitmap.
    closed spec fn view(&self) -> Seq<bool> {
        let m = self.sb_classes.len() as int;
        Seq::new(
            self.len as nat,
            |p: int|
                if p < 64 * m {
                    stored_bit(self.sb_classes@, self.sb_indices.bits(), p / 64, p % 64)
                } else {
                    bit_of(self.last_block.bits, (p - 64 * m) as nat)
                },
        )
    }
}

impl DictRepr {
    /// The representation holds `m` full small blocks and `nlarge` large blocks, with every
    /// count, code pointer and select entry as the bits determine it.
    closed spec fn wf_parts(&self, m: nat, nlarge: nat) -> bool {
        &&& self.wf_store(m)
        &&& self.wf_counts(m)
        &&& self.wf_large(m, nlarge)
        &&& self.wf_select()
    }

    /// The small blocks: `m` full ones with their classes and codes, and the last one.
    closed spec fn wf_store(&self, m: nat) -> bool {
        let len = self.len as nat;
        let classes = self.sb_classes@;
        let tail = (len - 64 * m) as nat;
        &&& self.sb_indices.wf()
        &&& self.len == self.num_ones + self.num_zeros
        &&& classes.len() == m
        &&& 64 * m <= len <= 64 * m + 64
        &&& self.sb_indices.bits().len() == code_offset(classes, m)
        &&& forall|j: nat| tail <= j ==> !#[trigger] bit_of(self.last_block.bits, j)
        &&& self.last_block.num_ones == ones_below(self.last_block.bits, 64)
        &&& self.last_block.num_ones + self.last_block.num_zeros == tail
        &&& forall|i: int| 0 <= i < m ==> #[trigger] classes[i] <= 64
    }

    /// The ones of the full small blocks, and of the whole bitmap.
    closed spec fn wf_counts(&self, m: nat) -> bool {
        &&& forall|i: nat| i <= m ==> #[trigger] class_sum(self.sb_classes@, i) == count_in(self@, true, 64 * i)
        &&& self.num_ones == count_in(self@, true, self.len as nat)
    }

    /// The large blocks: the rank before each and where its codes start.
    closed spec fn wf_large(&self, m: nat, nlarge: nat) -> bool {
        &&& self.large_blocks.len() == nlarge
        &&& nlarge > 0 ==> 1024 * (nlarge - 1) <= self.len && 16 * (nlarge - 1) <= m
        &&& forall|k: int|
            #![trigger self.large_blocks@[k]]
            0 <= k < nlarge ==> {
                &&& self.large_blocks@[k].rank == count_in(self@, true, (1024 * k) as nat)
                &&& self.large_blocks@[k].pointer == code_offset(self.sb_classes@, (16 * k) as nat)
            }
    }

    /// The select entries: the large block of every 2048th one, and zero.
    closed spec fn wf_select(&self) -> bool {
        let s = self@;
        &&& self.select_one_inds.len() == select_count(self.num_ones as nat)
        &&& forall|o: nat, p: nat|
            o % 2048 == 0 && #[trigger] is_occurrence(s, true, o, p) ==> self.select_one_inds@[(o
                / 2048) as int] == p / 1024
        &&& self.select_zero_inds.len() == select_count(self.num_zeros as nat)
        &&& forall|o: nat, p: nat|
            o % 2048 == 0 && #[trigger] is_occurrence(s, false, o, p) ==> self.select_zero_inds@[(o
                / 2048) as int] == p / 1024
    }

    /// The representation is that of its bits.
    closed spec fn wf(&self) -> bool {
        self.wf_parts(full_blocks(self.len as nat), large_count(self.len as nat))
    }

    /// Create a new `RsDict` with zero capacity.
    fn new() -> (r: Self)
        ensures
            r.wf(),
            r@ == Seq::<bool>::empty(),
    {
        Self::with_capacity(0)
    }

    /// Create a new `RsDict` with the given capacity preallocated.
    fn with_capacity(n: usize) -> (r: Self)
        ensures
            r.wf(),
            r@ == Seq::<bool>::empty(),
    {
        let r = DictRepr {
            large_blocks: Vec::with_capacity(n / LARGE_BLOCK_SIZE as usize),
            select_one_inds: Vec::with_capacity(n / SELECT_BLOCK_SIZE as usize),
            select_zero_inds: Vec::with_capacity(n / SELECT_BLOCK_SIZE as usize),
            sb_classes: Vec::with_capacity(n / SMALL_BLOCK_SIZE as usize),
            sb_indices: VarintBuffer::with_capacity(n),
            len: 0,
            num_ones: 0,
            num_zeros: 0,
            last_block: LastBlock::new(),
        };
        proof {
            lemma_zero_bits();
            crate::bits::lemma_ones_below_full(64);
            assert(r@ =~= Seq::<bool>::empty());
            assert forall|i: nat| i <= 0 implies #[trigger] class_sum(r.sb_classes@, i) == count_in(
                r@,
                true,
                64 * i,
            ) by {}
        }
        r
    }

    /// Return the length of the underlying bitmap.
    fn len(&self) -> (r: usize)
        ensures
            r == self@.len() as usize,
    {
        self.len as usize
    }

    /// Return whether the underlying bitmap is empty.
    fn is_empty(&self) -> (r: bool)
        ensures
            r == (self@.len() == 0),
    {
        self.len == 0
    }

    /// Count the number of set bits in the underlying bitmap.
    fn count_ones(&self) -> (r: usize)
        requires
            self.wf(),
        ensures
            r == count_in(self@, true, self@.len()) as usize,
    {
        self.num_ones as usize
    }

    /// Count the number of unset bits in the underlying bitmap.
    fn count_zeros(&self) -> (r: usize)
        requires
            self.wf(),
        ensures
            r == count_in(self@, false, self@.len()) as usize,
    {
        proof {
            lemma_count_bool(self@, self@.len());
        }
        self.num_zeros as usize
    }
}

impl DictRepr {
    /// Closes the last small block, which is full (or there is none yet), and starts a large
    /// block where one begins here.
    #[verifier::rlimit(40)]
    fn write_block(&mut self)
        requires
            old(self).wf(),
            old(self).len % 64 == 0,
            old(self).len + 64 <= usize::MAX,
        ensures
            final(self).wf_parts(full_blocks((old(self).len + 1) as nat), large_count((old(self).len + 1) as nat)),
            final(self)@ == old(self)@,
            final(self).len == old(self).len,
            final(self).num_ones == old(self).num_ones,
            final(self).num_zeros == old(self).num_zeros,
            final(self).last_block.bits == 0,
            final(self).last_block.num_ones == 0,
            final(self).last_block.num_zeros == 0,
    {
        let ghost s = self@;
        let ghost len = self.len as nat;
        let ghost m = self.sb_classes.len() as nat;
        let ghost classes = self.sb_classes@;
        let ghost codes = self.sb_indices.bits();
        proof {
            lemma_counts_step(len);
            lemma_offset_bound(classes, m);
        }
        if self.len > 0 {
            let mut block = LastBlock::new();
            std::mem::swap(&mut block, &mut self.last_block);
            proof {
                lemma_ones_below_bounds(block.bits, 0, 64);
                lemma_popcount_ones_below(block.bits);
            }
            let sb_class = block.num_ones as u8;
            self.sb_classes.push(sb_class);
            let (code_len, code) = block_code::encode(block.bits, sb_class);
            self.sb_indices.push(code_len as usize, code);
            proof {
                let c = sb_class;
                let nc = self.sb_classes@;
                let ncodes = self.sb_indices.bits();
                lemma_sums_push(classes, c);
                assert(nc == classes.push(c));
                assert forall|p: int| 0 <= p < len implies #[trigger] self@[p] == s[p] by {
                    let i = p / 64;
                    let j = p % 64;
                    vstd::arithmetic::div_mod::lemma_fundamental_div_mod(p, 64);
                    if i < m {
                        assert(nc[i] == classes[i]);
                        lemma_offset_mono(classes, i as nat, m);
                        assert(code_offset(nc, i as nat) == code_offset(classes, i as nat));
                        lemma_stored_code_push(classes, codes, c, word_bits(code, code_len as nat), i);
                    } else {
                        assert(i == m);
                        crate::bits::lemma_ones_below_full(64);
                        lemma_word_facts(0, 0, j as u64);
                        lemma_stored_code_new(classes, codes, c, code);
                    }
                }
                assert(self@ =~= s);
                assert forall|j: nat| j < 64 implies #[trigger] bit_of(block.bits, j) == s[(64 * m
                    + j) as int] by {}
                lemma_word_window(s, block.bits, 64 * m, 64);
                assert forall|i: nat| i <= m + 1 implies #[trigger] class_sum(nc, i) == count_in(
                    self@,
                    true,
                    64 * i,
                ) by {
                    if i <= m {
                        assert(class_sum(nc, i) == class_sum(classes, i));
                    }
                }
                assert forall|i: int| 0 <= i < m + 1 implies #[trigger] nc[i] <= 64 by {
                    if i < m {
                        assert(nc[i] == classes[i]);
                    }
                }
            }
        }
        let ghost mid_large = self.large_blocks@;
        let ghost mid_classes = self.sb_classes@;
        proof {
            if len == 0 {
                lemma_zero_bits();
                crate::bits::lemma_word_ext(self.last_block.bits, 0);
            }
            assert(self@ == s);
        }
        if self.len % LARGE_BLOCK_SIZE == 0 {
            let lblock = LargeBlock { rank: self.num_ones, pointer: self.sb_indices.len() as u64 };
            self.large_blocks.push(lblock);
        }
        proof {
            lemma_zero_bits();
            crate::bits::lemma_ones_below_full(64);
            let nm = self.sb_classes.len() as nat;
            assert(nm == full_blocks(len + 1));
            if len > 0 {
                lemma_sums_push(classes, mid_classes[m as int]);
                assert(mid_classes == classes.push(mid_classes[m as int]));
            }
            assert forall|k: int|
                #![trigger self.large_blocks@[k]]
                0 <= k < large_count(len + 1) implies {
                &&& self.large_blocks@[k].rank == count_in(self@, true, (1024 * k) as nat)
                &&& self.large_blocks@[k].pointer == code_offset(self.sb_classes@, (16 * k) as nat)
            } by {
                if k < large_count(len) {
                    assert(self.large_blocks@[k] == mid_large[k]);
                    assert(16 * k <= m);
                    assert(code_offset(self.sb_classes@, (16 * k) as nat) == code_offset(classes, (16 * k) as nat));
                } else {
                    assert(len % 1024 == 0);
                    assert(k == len / 1024);
                    assert(self.large_blocks@[k].rank == self.num_ones);
                    assert(16 * k == nm);
                }
            }
        }
    }

    /// Push a bit at the end of the underlying bitmap.
    ///
    /// The bitmap must be shorter than `u64::MAX` bits, and its length plus a small block must
    /// fit a `usize`.
    #[verifier::rlimit(40)]
    fn push(&mut self, bit: bool)
        requires
            old(self).wf(),
            old(self)@.len() < u64::MAX,
            old(self)@.len() + 64 <= usize::MAX,
        ensures
            final(self).wf(),
            final(self)@ == old(self)@.push(bit),
    {
        let ghost s = self@;
        let ghost len = self.len as nat;
        proof {
            lemma_counts_step(len);
        }
        if self.len % SMALL_BLOCK_SIZE == 0 {
            self.write_block();
        }
        let ghost m = self.sb_classes.len() as nat;
        let ghost tail = (len - 64 * m) as nat;
        let ghost old_bits = self.last_block.bits;
        let ghost old_ones = self.select_one_inds@;
        let ghost old_zeros = self.select_zero_inds@;
        proof {
            assert(self.wf_parts(full_blocks(len + 1), large_count(len + 1)));
            vstd::arithmetic::div_mod::lemma_fundamental_div_mod_converse(len as int, 64, m as int, tail as int);
            lemma_select_step(self.num_ones as nat);
            lemma_select_step(self.num_zeros as nat);
        }
        if bit {
            self.last_block.set_one(self.len % SMALL_BLOCK_SIZE);
            if self.num_ones % SELECT_BLOCK_SIZE == 0 {
                self.select_one_inds.push(self.len / LARGE_BLOCK_SIZE);
            }
            self.num_ones = self.num_ones + 1;
        } else {
            self.last_block.set_zero(self.len % SMALL_BLOCK_SIZE);
            if self.num_zeros % SELECT_BLOCK_SIZE == 0 {
                self.select_zero_inds.push(self.len / LARGE_BLOCK_SIZE);
            }
            self.num_zeros = self.num_zeros + 1;
        }
        self.len = self.len + 1;
        proof {
            let ns = self@;
            lemma_with_bit_word(old_bits, tail, true);
            assert forall|p: int| 0 <= p < len + 1 implies #[trigger] ns[p] == s.push(bit)[p] by {
                if p >= 64 * m {
                    if p < len {
                        assert(p - 64 * m != tail);
                    }
                }
            }
            assert(ns =~= s.push(bit));
            if bit {
                lemma_ones_below_set(old_bits, tail, 64);
            }
            lemma_count_push(s, bit, true);
            lemma_count_push(s, bit, false);
            assert forall|o: nat, p: nat|
                o % 2048 == 0 && #[trigger] is_occurrence(ns, true, o, p) implies self.select_one_inds@[(o
                / 2048) as int] == p / 1024 by {
                lemma_occurrence_push(s, bit, true, o, p);
                if p < len {
                    assert(o < count_in(s, true, len)) by {
                        lemma_count_mono(s, true, p + 1, len);
                    }
                    assert(o / 2048 < old_ones.len()) by {
                        vstd::arithmetic::div_mod::lemma_div_is_ordered(o as int, (count_in(s, true, len) + 2047) as int, 2048);
                    }
                }
            }
            assert forall|o: nat, p: nat|
                o % 2048 == 0 && #[trigger] is_occurrence(ns, false, o, p) implies self.select_zero_inds@[(o
                / 2048) as int] == p / 1024 by {
                lemma_occurrence_push(s, bit, false, o, p);
                lemma_count_bool(s, len);
                if p < len {
                    assert(o < count_in(s, false, len)) by {
                        lemma_count_mono(s, false, p + 1, len);
                    }
                    assert(o / 2048 < old_zeros.len()) by {
                        vstd::arithmetic::div_mod::lemma_div_is_ordered(o as int, (count_in(s, false, len) + 2047) as int, 2048);
                    }
                }
            }
            let nm = full_blocks(len + 1);
            let classes = self.sb_classes@;
            assert forall|i: nat| i <= nm implies #[trigger] class_sum(classes, i) == count_in(ns, true, 64 * i) by {
                assert(class_sum(classes, i) == count_in(s, true, 64 * i));
            }
            let nl = large_count(len + 1);
            assert forall|k: int|
                #![trigger self.large_blocks@[k]]
                0 <= k < nl implies {
                &&& self.large_blocks@[k].rank == count_in(self@, true, (1024 * k) as nat)
                &&& self.large_blocks@[k].pointer == code_offset(self.sb_classes@, (16 * k) as nat)
            } by {
                assert(self.large_blocks@[k].rank == count_in(s, true, (1024 * k) as nat));
                assert(1024 * k <= len);
            }
            assert(self.num_ones == count_in(ns, true, len + 1));
            assert(self.wf_store(nm));
            assert(self.wf_counts(nm));
            assert(self.wf_large(nm, nl));
            assert(self.wf_select());
            assert(self.wf_parts(full_blocks(len + 1), large_count(len + 1)));
        }
    }
}

/// The ones and the code bits of small blocks `start .. end`.
fn scan_block(classes: &Vec<u8>, start: usize, end: usize) -> (r: (u64, u64))
    requires
        start <= end <= classes.len(),
        end - start <= 16,
        forall|i: int| 0 <= i < classes.len() ==> #[trigger] classes@[i] <= 64,
    ensures
        r.0 == class_sum(classes@, end as nat) - class_sum(classes@, start as nat),
        r.1 == code_offset(classes@, end as nat) - code_offset(classes@, start as nat),
{
    let mut class_total: u64 = 0;
    let mut length_total: u64 = 0;
    let mut i = start;
    while i < end
        invariant
            start <= i <= end <= classes.len(),
            end - start <= 16,
            forall|k: int| 0 <= k < classes.len() ==> #[trigger] classes@[k] <= 64,
            class_total == class_sum(classes@, i as nat) - class_sum(classes@, start as nat),
            length_total == code_offset(classes@, i as nat) - code_offset(classes@, start as nat),
            class_total <= 64 * (i - start),
            length_total <= 64 * (i - start),
        decreases end - i,
    {
        let class = classes[i];
        class_total = class_total + class as u64;
        length_total = length_total + code_length(class) as u64;
        i = i + 1;
    }
    (class_total, length_total)
}

impl DictRepr {
    /// Where the last small block starts.
    fn last_block_ind(&self) -> (r: u64)
        requires
            self.wf(),
        ensures
            r == 64 * full_blocks(self.len as nat),
    {
        if self.len == 0 {
            return 0;
        }
        ((self.len - 1) / SMALL_BLOCK_SIZE) * SMALL_BLOCK_SIZE
    }

    /// Whether `pos` falls in (or after) the last small block.
    fn is_last_block(&self, pos: u64) -> (r: bool)
        requires
            self.wf(),
        ensures
            r == (pos >= 64 * full_blocks(self.len as nat)),
    {
        pos >= self.last_block_ind()
    }

    /// The `code_len` code bits from `ptr`.
    fn read_sb_index(&self, ptr: u64, code_len: u8) -> (r: u64)
        requires
            self.wf(),
            code_len <= 64,
            ptr + code_len <= self.sb_indices.bits().len(),
        ensures
            forall|j: nat| #[trigger] bit_of(r, j) == (j < code_len && self.sb_indices.bits()[ptr + j]),
    {
        proof {
            self.sb_indices.lemma_len_bound();
        }
        self.sb_indices.get(ptr as usize, code_len as usize)
    }

    /// The bits of full small block `i` are those of the word that its code stands for.
    proof fn lemma_block_bits(&self, i: nat, code: u64)
        requires
            self.wf(),
            i < self.sb_classes.len(),
            forall|j: nat| #[trigger] bit_of(code, j) == (j < spec_code_length(self.sb_classes@[i as int])
                && self.sb_indices.bits()[(code_offset(self.sb_classes@, i) + j) as int]),
        ensures
            forall|j: nat| j < 64 ==> #[trigger] bit_of(block_word(code, self.sb_classes@[i as int]), j)
                == self@[(64 * i + j) as int],
            forall|k: nat| k <= 64 ==> #[trigger] count_in(self@, true, 64 * i + k) == count_in(self@, true, 64 * i)
                + ones_below(block_word(code, self.sb_classes@[i as int]), k),
            ones_below(block_word(code, self.sb_classes@[i as int]), 64) == self.sb_classes@[i as int],
            code_offset(self.sb_classes@, i) + spec_code_length(self.sb_classes@[i as int]) <= self.sb_indices.bits().len(),
    {
        let classes = self.sb_classes@;
        let c = classes[i as int];
        let w = block_word(code, c);
        let m = classes.len();
        lemma_offset_mono(classes, i, m);
        lemma_bits_word(
            code,
            self.sb_indices.bits(),
            code_offset(classes, i) as int,
            spec_code_length(c),
        );
        assert(stored_code(classes, self.sb_indices.bits(), i as int) == code);
        assert forall|j: nat| j < 64 implies #[trigger] bit_of(w, j) == self@[(64 * i + j) as int] by {
            let p = (64 * i + j) as int;
            vstd::arithmetic::div_mod::lemma_fundamental_div_mod_converse(p, 64, i as int, j as int);
            crate::bits::lemma_ones_below_full(64);
            lemma_word_facts(0, 0, j as u64);
        }
        assert forall|k: nat| k <= 64 implies #[trigger] count_in(self@, true, 64 * i + k) == count_in(self@, true, 64 * i)
            + ones_below(w, k) by {
            lemma_word_window(self@, w, 64 * i, k);
        }
        assert(class_sum(classes, i + 1) == class_sum(classes, i) + c);
        assert(count_in(self@, true, 64 * i + 64) == count_in(self@, true, 64 * (i + 1)));
    }

    /// Query the number of `bit` values at positions before `pos` (all of them where `pos` is
    /// past the end).
    #[verifier::rlimit(40)]
    #[verifier::spinoff_prover]
    fn rank(&self, pos: u64, bit: bool) -> (r: u64)
        requires
            self.wf(),
        ensures
            r == count_in(self@, bit, if pos < self@.len() { pos as nat } else { self@.len() }),
    {
        let ghost s = self@;
        let ghost len = self.len as nat;
        let ghost m = self.sb_classes.len() as nat;
        if pos >= self.len {
            proof {
                lemma_count_bool(s, len);
            }
            return rank_by_bit(self.num_ones, self.len, bit);
        }
        proof {
            lemma_count_bool(s, pos as nat);
            lemma_count_le(s, true, pos as nat);
        }
        // In the last block, count the ones from our position on, and take them from the total.
        if self.is_last_block(pos) {
            let q = pos % SMALL_BLOCK_SIZE;
            proof {
                vstd::arithmetic::div_mod::lemma_fundamental_div_mod_converse(pos as int, 64, m as int, pos - 64 * m);
                let b = self.last_block.bits;
                assert forall|j: nat| j < (len - 64 * m) implies #[trigger] bit_of(b, j) == s[(64 * m + j) as int] by {}
                lemma_word_window(s, b, 64 * m, (len - 64 * m) as nat);
                lemma_word_window(s, b, 64 * m, q as nat);
                crate::bits::lemma_ones_below_stable(b, (len - 64 * m) as nat, 64);
                lemma_ones_below_bounds(b, q as nat, 64);
            }
            let trailing_ones = self.last_block.count_suffix(q);
            return rank_by_bit(self.num_ones - trailing_ones, pos, bit);
        }
        // Start with the rank from our position's large block.
        let lblock = pos / LARGE_BLOCK_SIZE;
        let sblock = (pos / SMALL_BLOCK_SIZE) as usize;
        proof {
            vstd::arithmetic::div_mod::lemma_fundamental_div_mod(pos as int, 1024);
            vstd::arithmetic::div_mod::lemma_fundamental_div_mod(pos as int, 64);
            vstd::arithmetic::div_mod::lemma_div_is_ordered(pos as int, (len + 1023) as int, 1024);
            assert(sblock < m) by (nonlinear_arith)
                requires
                    pos < 64 * m,
                    sblock == pos / 64,
            ;
            assert(16 * lblock <= sblock < 16 * lblock + 16) by (nonlinear_arith)
                requires
                    pos == 1024 * lblock + pos % 1024,
                    0 <= pos % 1024 < 1024,
                    pos == 64 * sblock + pos % 64,
                    0 <= pos % 64 < 64,
            ;
        }
        let mut pointer = self.large_blocks[lblock as usize].pointer;
        let mut rank = self.large_blocks[lblock as usize].rank;
        // Add in the ranks (the classes) of the small blocks up to our position's.
        let sblock_start = (lblock * SMALL_BLOCK_PER_LARGE_BLOCK) as usize;
        let (class_total, length_total) = scan_block(&self.sb_classes, sblock_start, sblock);
        proof {
            lemma_offset_mono(self.sb_classes@, sblock as nat, m);
            lemma_count_le(s, true, (64 * sblock) as nat);
            lemma_count_mono(s, true, (64 * sblock) as nat, pos as nat);
            lemma_offset_bound(self.sb_classes@, m);
        }
        rank = rank + class_total;
        pointer = pointer + length_total;
        // Off a small block boundary, add in the rank within the small block.
        if pos % SMALL_BLOCK_SIZE != 0 {
            let sb_class = self.sb_classes[sblock];
            let code = self.read_sb_index(pointer, code_length(sb_class));
            proof {
                self.lemma_block_bits(sblock as nat, code);
                let k = (pos % 64) as nat;
                assert(count_in(self@, true, 64 * (sblock as nat) + k) == count_in(self@, true, 64 * (sblock as nat))
                    + ones_below(block_word(code, sb_class), k));
            }
            rank = rank + block_code::rank(code, sb_class, pos % SMALL_BLOCK_SIZE);
        }
        rank_by_bit(rank, pos, bit)
    }

    /// Query the `pos`th bit (zero-indexed) of the underlying bitmap.
    fn get_bit(&self, pos: u64) -> (r: bool)
        requires
            self.wf(),
            pos < self@.len(),
        ensures
            r == self@[pos as int],
    {
        let ghost s = self@;
        let ghost len = self.len as nat;
        let ghost m = self.sb_classes.len() as nat;
        if self.is_last_block(pos) {
            proof {
                vstd::arithmetic::div_mod::lemma_fundamental_div_mod_converse(pos as int, 64, m as int, pos - 64 * m);
            }
            return self.last_block.get_bit(pos % SMALL_BLOCK_SIZE);
        }
        let lblock = pos / LARGE_BLOCK_SIZE;
        let sblock = (pos / SMALL_BLOCK_SIZE) as usize;
        proof {
            vstd::arithmetic::div_mod::lemma_fundamental_div_mod(pos as int, 1024);
            vstd::arithmetic::div_mod::lemma_fundamental_div_mod(pos as int, 64);
            vstd::arithmetic::div_mod::lemma_div_is_ordered(pos as int, (len + 1023) as int, 1024);
            assert(sblock < m) by (nonlinear_arith)
                requires
                    pos < 64 * m,
                    sblock == pos / 64,
            ;
            assert(16 * lblock <= sblock < 16 * lblock + 16) by (nonlinear_arith)
                requires
                    pos == 1024 * lblock + pos % 1024,
                    0 <= pos % 1024 < 1024,
                    pos == 64 * sblock + pos % 64,
                    0 <= pos % 64 < 64,
            ;
            lemma_offset_bound(self.sb_classes@, m);
            lemma_offset_mono(self.sb_classes@, sblock as nat, m);
        }
        proof {
            assert(self.large_blocks@[lblock as int].rank == count_in(s, true, (1024 * lblock) as nat));
            self.sb_indices.lemma_len_bound();
        }
        let sblock_start = (lblock * SMALL_BLOCK_PER_LARGE_BLOCK) as usize;
        let mut pointer = self.large_blocks[lblock as usize].pointer;
        let mut i = sblock_start;
        while i < sblock
            invariant
                self.wf(),
                sblock_start <= i <= sblock < self.sb_classes.len(),
                pointer == code_offset(self.sb_classes@, i as nat),
                code_offset(self.sb_classes@, sblock as nat) <= self.sb_indices.bits().len(),
                self.sb_indices.bits().len() <= usize::MAX,
            decreases sblock - i,
        {
            proof {
                lemma_offset_mono(self.sb_classes@, i as nat, sblock as nat);
            }
            pointer = pointer + code_length(self.sb_classes[i]) as u64;
            i = i + 1;
        }
        let sb_class = self.sb_classes[sblock];
        let code_len = code_length(sb_class);
        let code = self.read_sb_index(pointer, code_len);
        proof {
            self.lemma_block_bits(sblock as nat, code);
            assert(pos == 64 * sblock + pos % 64);
        }
        block_code::decode_bit(code, sb_class, pos % SMALL_BLOCK_SIZE)
    }

    /// Query the `pos`th bit (zero-indexed) of the underlying bitmap and the number of set bits
    /// to the left of `pos` in a single operation.
    fn bit_and_one_rank(&self, pos: u64) -> (r: (bool, u64))
        requires
            self.wf(),
            pos < self@.len(),
        ensures
            r.0 == self@[pos as int],
            r.1 == count_in(self@, true, pos as nat),
    {
        let ghost s = self@;
        let ghost len = self.len as nat;
        let ghost m = self.sb_classes.len() as nat;
        proof {
            lemma_count_le(s, true, pos as nat);
        }
        if self.is_last_block(pos) {
            let sb_pos = pos % SMALL_BLOCK_SIZE;
            proof {
                vstd::arithmetic::div_mod::lemma_fundamental_div_mod_converse(pos as int, 64, m as int, pos - 64 * m);
                let b = self.last_block.bits;
                assert forall|j: nat| j < (len - 64 * m) implies #[trigger] bit_of(b, j) == s[(64 * m + j) as int] by {}
                lemma_word_window(s, b, 64 * m, (len - 64 * m) as nat);
                lemma_word_window(s, b, 64 * m, sb_pos as nat);
                crate::bits::lemma_ones_below_stable(b, (len - 64 * m) as nat, 64);
                lemma_ones_below_bounds(b, sb_pos as nat, 64);
            }
            let bit = self.last_block.get_bit(sb_pos);
            let after_rank = self.last_block.count_suffix(sb_pos);
            return (bit, self.num_ones - after_rank);
        }
        let lblock = pos / LARGE_BLOCK_SIZE;
        let sblock = (pos / SMALL_BLOCK_SIZE) as usize;
        proof {
            vstd::arithmetic::div_mod::lemma_fundamental_div_mod(pos as int, 1024);
            vstd::arithmetic::div_mod::lemma_fundamental_div_mod(pos as int, 64);
            vstd::arithmetic::div_mod::lemma_div_is_ordered(pos as int, (len + 1023) as int, 1024);
            assert(sblock < m) by (nonlinear_arith)
                requires
                    pos < 64 * m,
                    sblock == pos / 64,
            ;
            assert(16 * lblock <= sblock < 16 * lblock + 16) by (nonlinear_arith)
                requires
                    pos == 1024 * lblock + pos % 1024,
                    0 <= pos % 1024 < 1024,
                    pos == 64 * sblock + pos % 64,
                    0 <= pos % 64 < 64,
            ;
            lemma_offset_bound(self.sb_classes@, m);
            lemma_offset_mono(self.sb_classes@, sblock as nat, m);
            lemma_count_le(s, true, (64 * sblock) as nat);
            assert(self.large_blocks@[lblock as int].rank == count_in(s, true, (1024 * lblock) as nat));
            assert(class_sum(self.sb_classes@, (16 * lblock) as nat) == count_in(s, true, (64 * (16 * lblock)) as nat));
            assert(class_sum(self.sb_classes@, sblock as nat) == count_in(s, true, (64 * sblock) as nat));
            self.sb_indices.lemma_len_bound();
        }
        let sblock_start = (lblock * SMALL_BLOCK_PER_LARGE_BLOCK) as usize;
        let mut pointer = self.large_blocks[lblock as usize].pointer;
        let mut rank = self.large_blocks[lblock as usize].rank;
        let mut i = sblock_start;
        while i < sblock
            invariant
                self.wf(),
                s == self@,
                sblock_start <= i <= sblock < self.sb_classes.len(),
                pointer == code_offset(self.sb_classes@, i as nat),
                rank == class_sum(self.sb_classes@, i as nat),
                code_offset(self.sb_classes@, sblock as nat) <= self.sb_indices.bits().len(),
                class_sum(self.sb_classes@, sblock as nat) == count_in(s, true, (64 * sblock) as nat),
                count_in(s, true, (64 * sblock) as nat) <= 64 * sblock <= pos,
                self.sb_indices.bits().len() <= usize::MAX,
            decreases sblock - i,
        {
            proof {
                lemma_offset_mono(self.sb_classes@, i as nat, sblock as nat);
            }
            let sb_class = self.sb_classes[i];
            pointer = pointer + code_length(sb_class) as u64;
            rank = rank + sb_class as u64;
            i = i + 1;
        }
        let sb_class = self.sb_classes[sblock];
        let code_len = code_length(sb_class);
        let code = self.read_sb_index(pointer, code_len);
        proof {
            self.lemma_block_bits(sblock as nat, code);
            assert(pos == 64 * sblock + pos % 64);
            lemma_count_le(s, true, pos as nat);
            let k = (pos % 64) as nat;
            assert(count_in(self@, true, 64 * (sblock as nat) + k) == count_in(self@, true, 64 * (sblock as nat))
                + ones_below(block_word(code, sb_class), k));
            assert(count_in(s, true, pos as nat) == count_in(s, true, (64 * sblock) as nat) + ones_below(
                block_word(code, sb_class),
                (pos % 64) as nat,
            ));
        }
        rank = rank + block_code::rank(code, sb_class, pos % SMALL_BLOCK_SIZE);
        let bit = block_code::decode_bit(code, sb_class, pos % SMALL_BLOCK_SIZE);
        (bit, rank)
    }
}

impl DictRepr {
    /// The position of the `rank`th one (counting from zero), or `None` past the last one.
    #[verifier::rlimit(40)]
    fn select1(&self, rank: u64) -> (r: Option<u64>)
        requires
            self.wf(),
        ensures
            select_answer(self@, true, rank as nat, r),
    {
        let ghost s = self@;
        let ghost len = self.len as nat;
        let ghost m = self.sb_classes.len() as nat;
        let ghost classes = self.sb_classes@;
        if rank >= self.num_ones {
            return None;
        }
        let ghost tail = (len - 64 * m) as nat;
        let ghost b = self.last_block.bits;
        proof {
            assert forall|j: nat| j < tail implies #[trigger] bit_of(b, j) == s[(64 * m + j) as int] by {}
            lemma_word_window(s, b, 64 * m, tail);
            crate::bits::lemma_ones_below_stable(b, tail, 64);
            assert(class_sum(classes, m) == count_in(s, true, 64 * m));
        }
        // How many ones are there *excluding* the last block?
        let prefix_num_ones = self.num_ones - self.last_block.num_ones;
        // Our rank is in the last block.
        if rank >= prefix_num_ones {
            let lb_rank = (rank - prefix_num_ones) as u8;
            let q = self.last_block.select1(lb_rank);
            proof {
                if q >= tail {
                    assert(!bit_of(b, q as nat));
                }
                lemma_word_window(s, b, 64 * m, q as nat);
            }
            return Some(self.last_block_ind() + q);
        }
        // Use the select pointer to jump forward to a large block, then walk forward over the
        // large blocks that start at or before our rank.
        let select_ind = (rank / SELECT_BLOCK_SIZE) as usize;
        proof {
            let o = (2048 * (rank / 2048)) as nat;
            vstd::arithmetic::div_mod::lemma_fundamental_div_mod(rank as int, 2048);
            vstd::arithmetic::div_mod::lemma_div_is_ordered(rank as int, (self.num_ones + 2047) as int, 2048);
            let p = lemma_occurrence_exists(s, true, o, len);
            vstd::arithmetic::div_mod::lemma_fundamental_div_mod_converse(o as int, 2048, (rank / 2048) as int, 0);
            assert(self.select_one_inds@[select_ind as int] == p / 1024);
            vstd::arithmetic::div_mod::lemma_fundamental_div_mod(p as int, 1024);
            vstd::arithmetic::div_mod::lemma_div_is_ordered(p as int, (len + 1023) as int, 1024);
            lemma_count_mono(s, true, (1024 * (p / 1024)) as nat, p);
            assert(self.large_blocks@[(p / 1024) as int].rank == count_in(s, true, (1024 * (p / 1024)) as nat));
        }
        let lb_start = self.select_one_inds[select_ind] as usize;
        let mut lblock = lb_start;
        while lblock + 1 < self.large_blocks.len() && self.large_blocks[lblock + 1].rank <= rank
            invariant
                self.wf(),
                s == self@,
                len == self.len,
                lblock < self.large_blocks.len(),
                self.large_blocks@[lblock as int].rank <= rank,
            decreases self.large_blocks.len() - lblock,
        {
            lblock = lblock + 1;
        }
        proof {
            assert(self.large_blocks@[lblock as int].rank == count_in(s, true, (1024 * lblock) as nat));
            assert(self.wf_large(m, large_count(len)));
            assert(16 * lblock <= m);
            assert(class_sum(classes, (16 * lblock) as nat) == count_in(s, true, (64 * (16 * lblock)) as nat));
            self.sb_indices.lemma_len_bound();
        }
        // Walk the small blocks, taking out the ones of each, until our rank is within one.
        let sb_start = (lblock as u64 * SMALL_BLOCK_PER_LARGE_BLOCK) as usize;
        let mut pointer = self.large_blocks[lblock].pointer;
        let mut remaining = rank - self.large_blocks[lblock].rank;
        let mut i = sb_start;
        while i < self.sb_classes.len()
            invariant
                self.wf(),
                s == self@,
                classes == self.sb_classes@,
                m == classes.len(),
                len == self.len,
                sb_start <= i <= m,
                pointer == code_offset(classes, i as nat),
                remaining + class_sum(classes, i as nat) == rank,
                rank < class_sum(classes, m),
                64 * m <= len,
                self.sb_indices.bits().len() <= usize::MAX,
            decreases m - i,
        {
            let sb_class = self.sb_classes[i];
            let sb_ones = sb_class as u64;
            let code_len = code_length(sb_class);
            proof {
                lemma_offset_mono(classes, i as nat, m);
                assert(class_sum(classes, (i + 1) as nat) == class_sum(classes, i as nat) + sb_class);
            }
            if remaining < sb_ones {
                let code = self.read_sb_index(pointer, code_len);
                proof {
                    self.lemma_block_bits(i as nat, code);
                    assert(64 * i + 64 <= 64 * m);
                }
                let sb_rank = i as u64 * SMALL_BLOCK_SIZE;
                let block_rank = block_code::select1(code, sb_class, remaining);
                proof {
                    let k = block_rank as nat;
                    assert(count_in(s, true, 64 * (i as nat) + k) == count_in(s, true, 64 * (i as nat))
                        + ones_below(block_word(code, sb_class), k));
                    assert(class_sum(classes, i as nat) == count_in(s, true, 64 * (i as nat)));
                    assert(s[(64 * i + k) as int] == bit_of(block_word(code, sb_class), k));
                }
                return Some(sb_rank + block_rank);
            }
            remaining = remaining - sb_ones;
            pointer = pointer + code_len as u64;
            i = i + 1;
        }
        // The ones before the last block cover our rank, so some small block holds it.
        proof {
            assert(false);
        }
        None
    }

    /// The position of the `rank`th zero (counting from zero), or `None` past the last one.
    #[verifier::rlimit(40)]
    fn select0(&self, rank: u64) -> (r: Option<u64>)
        requires
            self.wf(),
        ensures
            select_answer(self@, false, rank as nat, r),
    {
        let ghost s = self@;
        let ghost len = self.len as nat;
        let ghost m = self.sb_classes.len() as nat;
        let ghost classes = self.sb_classes@;
        proof {
            lemma_count_bool(s, len);
        }
        if rank >= self.num_zeros {
            return None;
        }
        let ghost tail = (len - 64 * m) as nat;
        let ghost b = self.last_block.bits;
        proof {
            assert forall|j: nat| j < tail implies #[trigger] bit_of(b, j) == s[(64 * m + j) as int] by {}
            lemma_word_window(s, b, 64 * m, tail);
            crate::bits::lemma_ones_below_stable(b, tail, 64);
            assert(class_sum(classes, m) == count_in(s, true, 64 * m));
            lemma_count_bool(s, 64 * m);
            lemma_count_le(s, true, 64 * m);
        }
        // How many zeros are there *excluding* the last block?
        let prefix_num_zeros = self.num_zeros - self.last_block.num_zeros;
        // Our rank is in the last block.
        if rank >= prefix_num_zeros {
            let lb_rank = (rank - prefix_num_zeros) as u8;
            let q = self.last_block.select0(lb_rank);
            proof {
                crate::bits::lemma_ones_below_bounds(b, q as nat, 64);
                if q >= tail {
                    crate::bits::lemma_ones_below_stable(b, tail, q as nat);
                }
                lemma_word_window(s, b, 64 * m, q as nat);
                lemma_count_bool(s, (64 * m + q) as nat);
            }
            return Some(self.last_block_ind() + q);
        }
        let select_ind = (rank / SELECT_BLOCK_SIZE) as usize;
        proof {
            let o = (2048 * (rank / 2048)) as nat;
            vstd::arithmetic::div_mod::lemma_fundamental_div_mod(rank as int, 2048);
            vstd::arithmetic::div_mod::lemma_div_is_ordered(rank as int, (self.num_zeros + 2047) as int, 2048);
            let p = lemma_occurrence_exists(s, false, o, len);
            vstd::arithmetic::div_mod::lemma_fundamental_div_mod_converse(o as int, 2048, (rank / 2048) as int, 0);
            assert(self.select_zero_inds@[select_ind as int] == p / 1024);
            vstd::arithmetic::div_mod::lemma_fundamental_div_mod(p as int, 1024);
            vstd::arithmetic::div_mod::lemma_div_is_ordered(p as int, (len + 1023) as int, 1024);
            lemma_count_mono(s, false, (1024 * (p / 1024)) as nat, p);
            lemma_count_bool(s, (1024 * (p / 1024)) as nat);
            assert(self.large_blocks@[(p / 1024) as int].rank == count_in(s, true, (1024 * (p / 1024)) as nat));
        }
        let lb_start = self.select_zero_inds[select_ind] as usize;
        let mut lblock = lb_start;
        proof {
            assert(self.large_blocks@[lblock as int].rank == count_in(s, true, (1024 * lblock) as nat));
            lemma_count_le(s, true, (1024 * lblock) as nat);
            assert forall|k: int| 0 <= k < self.large_blocks.len() implies #[trigger] self.large_blocks@[k].rank
                <= 1024 * k by {
                assert(self.large_blocks@[k].rank == count_in(s, true, (1024 * k) as nat));
                lemma_count_le(s, true, (1024 * k) as nat);
            }
        }
        while lblock + 1 < self.large_blocks.len() && (lblock as u64 + 1) * LARGE_BLOCK_SIZE
            - self.large_blocks[lblock + 1].rank <= rank
            invariant
                self.wf(),
                s == self@,
                len == self.len,
                lblock < self.large_blocks.len(),
                forall|k: int| 0 <= k < self.large_blocks.len() ==> #[trigger] self.large_blocks@[k].rank
                    <= 1024 * k,
                1024 * lblock - self.large_blocks@[lblock as int].rank <= rank,
            decreases self.large_blocks.len() - lblock,
        {
            lblock = lblock + 1;
            proof {
                assert(self.large_blocks@[lblock as int].rank == count_in(s, true, (1024 * lblock) as nat));
                lemma_count_le(s, true, (1024 * lblock) as nat);
            }
        }
        proof {
            assert(self.large_blocks@[lblock as int].rank == count_in(s, true, (1024 * lblock) as nat));
            assert(self.wf_large(m, large_count(len)));
            assert(16 * lblock <= m);
            assert(class_sum(classes, (16 * lblock) as nat) == count_in(s, true, (64 * (16 * lblock)) as nat));
            lemma_count_le(s, true, (1024 * lblock) as nat);
            self.sb_indices.lemma_len_bound();
        }
        let sb_start = (lblock as u64 * SMALL_BLOCK_PER_LARGE_BLOCK) as usize;
        let mut pointer = self.large_blocks[lblock].pointer;
        let mut remaining = rank - ((lblock as u64) * LARGE_BLOCK_SIZE - self.large_blocks[lblock].rank);
        let mut i = sb_start;
        while i < self.sb_classes.len()
            invariant
                self.wf(),
                s == self@,
                classes == self.sb_classes@,
                m == classes.len(),
                len == self.len,
                sb_start <= i <= m,
                pointer == code_offset(classes, i as nat),
                remaining + (64 * i - class_sum(classes, i as nat)) == rank,
                rank < 64 * m - class_sum(classes, m),
                64 * m <= len,
                self.sb_indices.bits().len() <= usize::MAX,
            decreases m - i,
        {
            let sb_class = self.sb_classes[i];
            let code_len = code_length(sb_class);
            proof {
                lemma_offset_mono(classes, i as nat, m);
                assert(class_sum(classes, (i + 1) as nat) == class_sum(classes, i as nat) + sb_class);
                assert(sb_class <= 64);
            }
            let sb_zeros = (SMALL_BLOCK_SIZE as u8 - sb_class) as u64;
            if remaining < sb_zeros {
                let code = self.read_sb_index(pointer, code_len);
                proof {
                    self.lemma_block_bits(i as nat, code);
                    assert(64 * i + 64 <= 64 * m);
                }
                let sb_rank = i as u64 * SMALL_BLOCK_SIZE;
                let block_rank = block_code::select0(code, sb_class, remaining);
                proof {
                    let k = block_rank as nat;
                    crate::bits::lemma_ones_below_bounds(block_word(code, sb_class), k, 64);
                    assert(count_in(s, true, 64 * (i as nat) + k) == count_in(s, true, 64 * (i as nat))
                        + ones_below(block_word(code, sb_class), k));
                    assert(class_sum(classes, i as nat) == count_in(s, true, 64 * (i as nat)));
                    assert(s[(64 * i + k) as int] == bit_of(block_word(code, sb_class), k));
                    lemma_count_bool(s, (64 * i + k) as nat);
                }
                return Some(sb_rank + block_rank);
            }
            remaining = remaining - sb_zeros;
            pointer = pointer + code_len as u64;
            i = i + 1;
        }
        proof {
            assert(false);
        }
        None
    }
}


/// One step of building from blocks: with block `i` added, the dictionary is that of the first
/// `i + 1` blocks, coded (or kept apart where it is the last one).
#[verifier::rlimit(100)]
proof fn lemma_from_blocks_step(old_d: DictRepr, d: DictRepr, ws: Seq<u64>, i: nat, block: u64, code: u64)
    requires
        i < ws.len(),
        block == ws[i as int],
        64 * ws.len() + 4096 <= usize::MAX,
        old_d.len == 64 * i,
        old_d@ == blocks_bits(ws.take(i as int)),
        old_d.wf_parts(i, large_count(64 * i)),
        old_d.last_block.bits == 0,
        d.len == old_d.len + 64,
        d.num_ones == old_d.num_ones + popcount(block as nat),
        d.num_zeros == old_d.num_zeros + 64 - popcount(block as nat),
        popcount(block as nat) <= 64,
        d.large_blocks@ == if i % 16 == 0 {
            old_d.large_blocks@.push(LargeBlock { rank: old_d.num_ones, pointer: old_d.sb_indices.bits().len() as u64 })
        } else {
            old_d.large_blocks@
        },
        i + 1 == ws.len() ==> {
            &&& d.sb_classes@ == old_d.sb_classes@
            &&& d.sb_indices == old_d.sb_indices
            &&& d.last_block.bits == block
            &&& d.last_block.num_ones == popcount(block as nat)
            &&& d.last_block.num_zeros == 64 - popcount(block as nat)
        },
        i + 1 < ws.len() ==> {
            &&& d.sb_classes@ == old_d.sb_classes@.push(popcount(block as nat) as u8)
            &&& d.sb_indices.wf()
            &&& d.sb_indices.bits() == old_d.sb_indices.bits() + word_bits(code, spec_code_length(popcount(block as nat) as u8))
            &&& block_word(code, popcount(block as nat) as u8) == block
            &&& code <= low_mask(spec_code_length(popcount(block as nat) as u8))
            &&& d.last_block == old_d.last_block
        },
        d.select_one_inds@ == if (old_d.num_ones + 2047) / 2048 != (old_d.num_ones + 2047 + popcount(block as nat)) / 2048 {
            old_d.select_one_inds@.push((64 * i / 1024) as u64)
        } else {
            old_d.select_one_inds@
        },
        d.select_zero_inds@ == if (old_d.num_zeros + 2047) / 2048 != (old_d.num_zeros + 2047 + (64 - popcount(block as nat))) / 2048 {
            old_d.select_zero_inds@.push((64 * i / 1024) as u64)
        } else {
            old_d.select_zero_inds@
        },
    ensures
        d@ == blocks_bits(ws.take((i + 1) as int)),
        i + 1 < ws.len() ==> d.wf_parts(i + 1, large_count(64 * (i + 1))) && d.last_block.bits == 0,
        i + 1 == ws.len() ==> d.wf(),
{
    let s = old_d@;
    let classes = old_d.sb_classes@;
    let mid_large = old_d.large_blocks@;
    let old_ones = old_d.select_one_inds@;
    let old_zeros = old_d.select_zero_inds@;
    let n = ws.len();
    let sb_class = popcount(block as nat) as u8;
    lemma_counts_step(64 * i);
    lemma_block_grid(i);
    lemma_offset_bound(classes, i);
    lemma_popcount_ones_below(block);
    let ns = d@;
    let nlen = (64 * i + 64) as nat;
    let c = sb_class as nat;
    let nc = d.sb_classes@;
    let last = i + 1 == n;
    let m = nc.len();
    if !last {
        lemma_sums_push(classes, sb_class);
        assert(nc == classes.push(sb_class));
    }
    // The bits are those of the blocks so far.
    assert forall|p: int| 0 <= p < nlen implies #[trigger] ns[p] == blocks_bits(ws.take((i + 1) as int))[p] by {
        let k = p / 64;
        let j = p % 64;
        vstd::arithmetic::div_mod::lemma_fundamental_div_mod(p, 64);
        assert(ws.take((i + 1) as int)[k] == ws[k]);
        if k < i {
            assert(ws.take(i as int)[k] == ws[k]);
            assert(s[p] == blocks_bits(ws.take(i as int))[p]);
            if !last {
                assert(nc[k] == classes[k]);
                lemma_offset_mono(classes, k as nat, i as nat);
                assert(code_offset(nc, k as nat) == code_offset(classes, k as nat));
                lemma_stored_code_push(
                    classes,
                    old_d.sb_indices.bits(),
                    sb_class,
                    word_bits(code, spec_code_length(sb_class)),
                    k,
                );
            }
        } else {
            assert(k == i);
            if !last {
                crate::bits::lemma_ones_below_full(64);
                lemma_word_facts(0, 0, j as u64);
                lemma_stored_code_new(classes, old_d.sb_indices.bits(), sb_class, code);
            }
        }
    }
    assert(ns =~= blocks_bits(ws.take((i + 1) as int)));
    assert forall|p: int| 0 <= p < 64 * i implies #[trigger] ns[p] == s[p] by {
        let k = p / 64;
        vstd::arithmetic::div_mod::lemma_fundamental_div_mod(p, 64);
        assert(ws.take(i as int)[k] == ws[k]);
        assert(ws.take((i + 1) as int)[k] == ws[k]);
        assert(s[p] == blocks_bits(ws.take(i as int))[p]);
    }
    crate::rank::traits::lemma_count_agree(ns, s, true, (64 * i) as nat);
    crate::rank::traits::lemma_count_agree(ns, s, false, (64 * i) as nat);
    assert forall|k: nat| k <= 64 * i implies #[trigger] count_in(ns, true, k) == count_in(s, true, k)
        && count_in(ns, false, k) == count_in(s, false, k) by {
        crate::rank::traits::lemma_count_agree(ns, s, true, k);
        crate::rank::traits::lemma_count_agree(ns, s, false, k);
    }
    assert forall|j: nat| j < 64 implies #[trigger] bit_of(block, j) == ns[(64 * i + j) as int] by {
        let p = (64 * i + j) as int;
        vstd::arithmetic::div_mod::lemma_fundamental_div_mod_converse(p, 64, i as int, j as int);
        assert(ws.take((i + 1) as int)[i as int] == block);
    }
    lemma_word_window(ns, block, (64 * i) as nat, 64);
    lemma_count_bool(ns, nlen);
    lemma_count_bool(s, (64 * i) as nat);
    // The small blocks.
    assert forall|k: nat| k <= m implies #[trigger] class_sum(nc, k) == count_in(ns, true, 64 * k) by {
        if k <= i {
            if !last {
                assert(class_sum(nc, k) == class_sum(classes, k));
            }
            assert(class_sum(classes, k) == count_in(s, true, 64 * k));
        }
    }
    assert forall|k: int| 0 <= k < m implies #[trigger] nc[k] <= 64 by {
        if k < i {
            assert(nc[k] == classes[k]);
        }
    }
    assert(d.wf_store(m));
    assert(d.wf_counts(m));
    // The large blocks.
    let nl = large_count(nlen);
    assert forall|k: int|
        #![trigger d.large_blocks@[k]]
        0 <= k < nl implies {
        &&& d.large_blocks@[k].rank == count_in(ns, true, (1024 * k) as nat)
        &&& d.large_blocks@[k].pointer == code_offset(nc, (16 * k) as nat)
    } by {
        if k < large_count((64 * i) as nat) {
            assert(d.large_blocks@[k] == mid_large[k]);
            assert(mid_large[k].rank == count_in(s, true, (1024 * k) as nat));
            assert(16 * k <= i);
            if !last {
                assert(code_offset(nc, (16 * k) as nat) == code_offset(classes, (16 * k) as nat));
            }
        } else {
            assert(k == i / 16);
            assert(1024 * k == 64 * i);
            assert(16 * k == i);
            if !last {
                assert(code_offset(nc, i as nat) == code_offset(classes, i as nat));
            }
        }
    }
    assert(d.wf_large(m, nl));
    // The select entries.
    lemma_select_block(count_in(s, true, (64 * i) as nat), c);
    lemma_select_block(count_in(s, false, (64 * i) as nat), (64 - c) as nat);
    assert forall|o: nat, p: nat|
        o % 2048 == 0 && #[trigger] is_occurrence(ns, true, o, p) implies d.select_one_inds@[(o
        / 2048) as int] == p / 1024 by {
        if p < 64 * i {
            crate::rank::traits::lemma_count_agree(ns, s, true, p);
            assert(is_occurrence(s, true, o, p));
            lemma_count_mono(s, true, p + 1, (64 * i) as nat);
            vstd::arithmetic::div_mod::lemma_div_is_ordered(o as int, (count_in(s, true, (64 * i) as nat) + 2047) as int, 2048);
        } else {
            lemma_count_mono(ns, true, (64 * i) as nat, p);
            lemma_count_mono(ns, true, p + 1, nlen);
            assert(p / 1024 == i / 16);
        }
    }
    assert forall|o: nat, p: nat|
        o % 2048 == 0 && #[trigger] is_occurrence(ns, false, o, p) implies d.select_zero_inds@[(o
        / 2048) as int] == p / 1024 by {
        if p < 64 * i {
            crate::rank::traits::lemma_count_agree(ns, s, false, p);
            assert(is_occurrence(s, false, o, p));
            lemma_count_mono(s, false, p + 1, (64 * i) as nat);
            vstd::arithmetic::div_mod::lemma_div_is_ordered(o as int, (count_in(s, false, (64 * i) as nat) + 2047) as int, 2048);
        } else {
            lemma_count_mono(ns, false, (64 * i) as nat, p);
            lemma_count_mono(ns, false, p + 1, nlen);
            assert(p / 1024 == i / 16);
        }
    }
    assert(d.wf_select());
    assert(d.wf_parts(m, nl));
}

impl DictRepr {
    /// Builds the dictionary of the bits of `blocks`, 64 per block, least significant first:
    /// the same as pushing those bits one at a time.
    #[verifier::rlimit(100)]
    fn from_blocks_impl(blocks: &[u64]) -> (r: Self)
        requires
            64 * blocks@.len() + 4096 <= usize::MAX,
        ensures
            r.wf(),
            r@ == blocks_bits(blocks@),
    {
        let hint = blocks.len();
        let mut d = DictRepr {
            large_blocks: Vec::with_capacity(hint / LARGE_BLOCK_SIZE as usize),
            select_one_inds: Vec::with_capacity(hint / SELECT_BLOCK_SIZE as usize),
            select_zero_inds: Vec::with_capacity(hint / SELECT_BLOCK_SIZE as usize),
            sb_classes: Vec::with_capacity(hint / SMALL_BLOCK_SIZE as usize),
            sb_indices: VarintBuffer::with_capacity(hint),
            len: 0,
            num_ones: 0,
            num_zeros: 0,
            last_block: LastBlock::new(),
        };
        let ghost ws = blocks@;
        let n = blocks.len();
        proof {
            lemma_zero_bits();
            crate::bits::lemma_ones_below_full(64);
            assert(d@ =~= blocks_bits(ws.take(0)));
            assert(class_sum(d.sb_classes@, 0) == count_in(d@, true, 0));
        }
        let mut i: usize = 0;
        while i < n
            invariant
                ws == blocks@,
                n == ws.len(),
                64 * n + 4096 <= usize::MAX,
                i <= n,
                d.len == 64 * i,
                d.num_ones + d.num_zeros == d.len,
                d@ == blocks_bits(ws.take(i as int)),
                i < n || n == 0 ==> {
                    &&& d.wf_parts(i as nat, large_count((64 * i) as nat))
                    &&& d.last_block.bits == 0
                },
                i == n && n > 0 ==> d.wf(),
            decreases n - i,
        {
            let block = blocks[i];
            let ghost old_d = d;
            let ghost mut g_code: u64 = 0;
            proof {
                lemma_popcount_ones_below(block);
                lemma_ones_below_bounds(block, 0, 64);
                lemma_offset_bound(d.sb_classes@, i as nat);
            }
            let sb_class = crate::broadword::count_ones(block) as u8;
            if i as u64 % SMALL_BLOCK_PER_LARGE_BLOCK == 0 {
                let lblock = LargeBlock { rank: d.num_ones, pointer: d.sb_indices.len() as u64 };
                d.large_blocks.push(lblock);
            }
            // The last block is kept apart rather than coded.
            if i + 1 == n {
                d.last_block = LastBlock { bits: block, num_ones: sb_class as u64, num_zeros: 64 - sb_class as u64 };
            } else {
                d.sb_classes.push(sb_class);
                let (code_len, code) = block_code::encode(block, sb_class);
                d.sb_indices.push(code_len as usize, code);
                proof {
                    g_code = code;
                }
            }
            let lb_start = i as u64 * SMALL_BLOCK_SIZE / LARGE_BLOCK_SIZE;
            // There is a multiple of SELECT_BLOCK_SIZE among the counts of this block's ones
            // exactly when the two quotients below differ.
            let start = d.num_ones + SELECT_BLOCK_SIZE - 1;
            let end = d.num_ones + SELECT_BLOCK_SIZE + sb_class as u64 - 1;
            if start / SELECT_BLOCK_SIZE != end / SELECT_BLOCK_SIZE {
                d.select_one_inds.push(lb_start);
            }
            // Now do the same for the zero indices.
            let start = d.num_zeros + SELECT_BLOCK_SIZE - 1;
            let end = d.num_zeros + SELECT_BLOCK_SIZE + (64 - sb_class as u64) - 1;
            if start / SELECT_BLOCK_SIZE != end / SELECT_BLOCK_SIZE {
                d.select_zero_inds.push(lb_start);
            }
            d.num_ones = d.num_ones + sb_class as u64;
            d.num_zeros = d.num_zeros + (64 - sb_class as u64);
            d.len = d.len + 64;
            proof {
                lemma_from_blocks_step(old_d, d, ws, i as nat, block, g_code);
            }
            i = i + 1;
        }
        d
    }
}

/// The bitmap that pushing each of `bits`, first to last, onto a bitmap `start` leaves.
pub open spec fn pushed(start: Seq<bool>, bits: Seq<bool>) -> Seq<bool>
    decreases bits.len(),
{
    if bits.len() == 0 {
        start
    } else {
        pushed(start.push(bits[0]), bits.drop_first())
    }
}

/// Pushing bits one at a time appends them.
proof fn lemma_pushed_appends(start: Seq<bool>, bits: Seq<bool>)
    ensures
        pushed(start, bits) == start + bits,
    decreases bits.len(),
{
    if bits.len() > 0 {
        lemma_pushed_appends(start.push(bits[0]), bits.drop_first());
        assert(start.push(bits[0]) + bits.drop_first() =~= start + bits);
    } else {
        assert(start + bits =~= start);
    }
}

/// `RsDict::from_blocks` is equivalent to pushing each bit of the blocks, least significant
/// first, onto a new dictionary: both give the bits of the blocks.
pub proof fn lemma_from_blocks_is_pushes(blocks: Seq<u64>)
    ensures
        pushed(Seq::<bool>::empty(), blocks_bits(blocks)) == blocks_bits(blocks),
{
    lemma_pushed_appends(Seq::<bool>::empty(), blocks_bits(blocks));
    assert(Seq::<bool>::empty() + blocks_bits(blocks) =~= blocks_bits(blocks));
}

/// Pushing `b` onto the bits `s` keeps every answer about the old bits: the bits before
/// stay, the counts up to the old end stay, the counts through the new end grow by `b`, and
/// every occurrence that select found is found again.
pub proof fn lemma_push_keeps_answers(s: Seq<bool>, b: bool)
    ensures
        s.push(b).len() == s.len() + 1,
        s.push(b)[s.len() as int] == b,
        forall|j: int| 0 <= j < s.len() ==> #[trigger] s.push(b)[j] == s[j],
        forall|c: bool, pos: nat|
            pos <= s.len() ==> #[trigger] count_in(s.push(b), c, pos) == count_in(s, c, pos),
        count_in(s.push(b), true, s.len() + 1) == count_in(s, true, s.len()) + if b {
            1int
        } else {
            0int
        },
        count_in(s.push(b), false, s.len() + 1) == count_in(s, false, s.len()) + if b {
            0int
        } else {
            1int
        },
        forall|c: bool, k: nat, p: u64|
            select_answer(s, c, k, Some(p)) ==> #[trigger] select_answer(s.push(b), c, k, Some(p)),
{
    let t = s.push(b);
    assert forall|c: bool, pos: nat| pos <= s.len() implies #[trigger] count_in(t, c, pos)
        == count_in(s, c, pos) by {
        lemma_count_agree(t, s, c, pos);
    }
    assert forall|c: bool, k: nat, p: u64| select_answer(s, c, k, Some(p)) implies #[trigger]
        select_answer(t, c, k, Some(p)) by {
        lemma_count_agree(t, s, c, p as nat);
    }
    lemma_count_agree(t, s, true, s.len());
    lemma_count_agree(t, s, false, s.len());
}

/// Data structure for efficiently computing both rank and select queries.
#[derive(Debug)]
pub struct RsDict {
    repr: DictRepr,
}

impl View for RsDict {
    type V = Seq<bool>;

    /// The bits of the bitmap.
    closed spec fn view(&self) -> Seq<bool> {
        self.repr@
    }
}

impl RsDict {
    /// The representation is that of the bits.
    #[verifier::type_invariant]
    spec fn inv(self) -> bool {
        &&& self.repr.wf()
        &&& self.repr@.len() <= usize::MAX
    }

    /// Create a dictionary from a bitset, given as 64-bit blocks, least significant bit first.
    /// This is equivalent to pushing each bit one at a time but is much faster.
    ///
    /// The bits, plus a select block, must fit a `usize`.
    pub fn from_blocks(blocks: &[u64]) -> (r: Self)
        requires
            64 * blocks@.len() + 4096 <= usize::MAX,
        ensures
            r@ == blocks_bits(blocks@),
    {
        RsDict { repr: DictRepr::from_blocks_impl(blocks) }
    }

    /// Create a new `RsDict` with zero capacity.
    pub fn new() -> (r: Self)
        ensures
            r@ == Seq::<bool>::empty(),
    {
        RsDict { repr: DictRepr::new() }
    }

    /// Create a new `RsDict` with the given capacity preallocated.
    pub fn with_capacity(n: usize) -> (r: Self)
        ensures
            r@ == Seq::<bool>::empty(),
    {
        RsDict { repr: DictRepr::with_capacity(n) }
    }

    /// Return the length of the underlying bitmap.
    ///
    /// The length always fits a `usize`.
    pub fn len(&self) -> (r: usize)
        ensures
            r == self@.len(),
    {
        proof {
            use_type_invariant(self);
        }
        self.repr.len()
    }

    /// Return whether the underlying bitmap is empty.
    pub fn is_empty(&self) -> (r: bool)
        ensures
            r == (self@.len() == 0),
    {
        self.repr.is_empty()
    }

    /// Count the number of set bits in the underlying bitmap.
    pub fn count_ones(&self) -> (r: usize)
        ensures
            r == count_in(self@, true, self@.len()),
    {
        proof {
            use_type_invariant(self);
            lemma_count_le(self@, true, self@.len());
        }
        self.repr.count_ones()
    }

    /// Count the number of unset bits in the underlying bitmap.
    pub fn count_zeros(&self) -> (r: usize)
        ensures
            r == count_in(self@, false, self@.len()),
    {
        proof {
            use_type_invariant(self);
            lemma_count_le(self@, false, self@.len());
        }
        self.repr.count_zeros()
    }

    /// Push a bit at the end of the underlying bitmap.
    ///
    /// The bitmap must be shorter than `u64::MAX` bits, and its length plus a small block must
    /// fit a `usize`.
    pub fn push(&mut self, bit: bool)
        requires
            old(self)@.len() < u64::MAX,
            old(self)@.len() + 64 <= usize::MAX,
        ensures
            final(self)@ == old(self)@.push(bit),
    {
        proof {
            use_type_invariant(&*self);
        }
        let mut repr = DictRepr::new();
        std::mem::swap(&mut repr, &mut self.repr);
        repr.push(bit);
        self.repr = repr;
    }

    /// Query the `pos`th bit (zero-indexed) of the underlying bitmap.
    pub fn get_bit(&self, pos: u64) -> (r: bool)
        requires
            pos < self@.len(),
        ensures
            r == self@[pos as int],
    {
        proof {
            use_type_invariant(self);
        }
        self.repr.get_bit(pos)
    }

    /// Query the `pos`th bit (zero-indexed) of the underlying bitmap and the number of set bits
    /// to the left of `pos` in a single operation. This method is faster than calling
    /// `get_bit(pos)` and `rank(pos, true)` separately.
    pub fn bit_and_one_rank(&self, pos: u64) -> (r: (bool, u64))
        requires
            pos < self@.len(),
        ensures
            r.0 == self@[pos as int],
            r.1 == count_in(self@, true, pos as nat),
    {
        proof {
            use_type_invariant(self);
        }
        self.repr.bit_and_one_rank(pos)
    }

    /// The number of `bit` values to the left of `pos`: at positions `0 .. pos`, or all of
    /// them where `pos` is past the end.
    ///
    /// Unlike `RankSupport::rank`, which counts through `pos`, this counts before it.
    pub fn rank(&self, pos: u64, bit: bool) -> (r: u64)
        ensures
            r == count_in(self@, bit, if pos < self@.len() { pos as nat } else { self@.len() }),
    {
        proof {
            use_type_invariant(self);
        }
        self.repr.rank(pos, bit)
    }

    /// The number of ones to the left of `pos`.
    pub fn rank1(&self, pos: u64) -> (r: u64)
        ensures
            r == count_in(self@, true, if pos < self@.len() { pos as nat } else { self@.len() }),
    {
        self.rank(pos, true)
    }

    /// The number of zeros to the left of `pos`.
    pub fn rank0(&self, pos: u64) -> (r: u64)
        ensures
            r == count_in(self@, false, if pos < self@.len() { pos as nat } else { self@.len() }),
    {
        self.rank(pos, false)
    }

    /// The number of bits that queries range over.
    pub fn limit(&self) -> (r: u64)
        ensures
            r == self@.len(),
    {
        self.repr.len
    }
}

impl SelectSupport1 for RsDict {
    open spec fn spec_select1_bits(&self) -> Seq<bool> {
        self@
    }

    fn select1(&self, rank: u64) -> (r: Option<u64>) {
        proof {
            use_type_invariant(self);
        }
        self.repr.select1(rank)
    }
}

impl SelectSupport0 for RsDict {
    open spec fn spec_select0_bits(&self) -> Seq<bool> {
        self@
    }

    fn select0(&self, rank: u64) -> (r: Option<u64>) {
        proof {
            use_type_invariant(self);
        }
        self.repr.select0(rank)
    }
}

impl SelectSupport for RsDict {
    type Over = bool;

    open spec fn spec_select_over(&self) -> Seq<bool> {
        self@
    }

    fn select(&self, rank: u64, bit: bool) -> (r: Option<u64>) {
        if bit {
            self.select1(rank)
        } else {
            self.select0(rank)
        }
    }
}

impl SpaceUsage for DictRepr {
    open spec fn spec_stack_only() -> bool {
        false
    }

    closed spec fn spec_heap_floor(&self) -> nat {
        self.sb_indices.spec_heap_floor() + self.sb_classes.spec_heap_floor()
            + self.large_blocks.spec_heap_floor() + self.select_one_inds.spec_heap_floor()
            + self.select_zero_inds.spec_heap_floor()
    }

    closed spec fn spec_heap_outcome(&self, h: nat) -> bool {
        exists|a: nat, b: nat, c: nat, d: nat, e: nat|
            #![trigger self.sb_indices.spec_heap_outcome(a), self.sb_classes.spec_heap_outcome(b), self.large_blocks.spec_heap_outcome(c), self.select_one_inds.spec_heap_outcome(d), self.select_zero_inds.spec_heap_outcome(e)]
            self.sb_indices.spec_heap_outcome(a) && self.sb_classes.spec_heap_outcome(b)
                && self.large_blocks.spec_heap_outcome(c) && self.select_one_inds.spec_heap_outcome(d)
                && self.select_zero_inds.spec_heap_outcome(e) && h == saturated(a + b + c + d + e)
    }

    fn is_stack_only() -> (r: bool) {
        false
    }

    /// What the metadata vectors and the code buffer own, saturating at `usize::MAX`.
    fn heap_bytes(&self) -> (r: usize) {
        self.sb_indices.heap_bytes().saturating_add(self.sb_classes.heap_bytes()).saturating_add(
            self.large_blocks.heap_bytes(),
        ).saturating_add(self.select_one_inds.heap_bytes()).saturating_add(
            self.select_zero_inds.heap_bytes(),
        )
    }
}

impl SpaceUsage for RsDict {
    open spec fn spec_stack_only() -> bool {
        false
    }

    closed spec fn spec_heap_floor(&self) -> nat {
        self.repr.spec_heap_floor()
    }

    closed spec fn spec_heap_outcome(&self, h: nat) -> bool {
        self.repr.spec_heap_outcome(h)
    }

    fn is_stack_only() -> (r: bool) {
        false
    }

    fn heap_bytes(&self) -> (r: usize) {
        self.repr.heap_bytes()
    }
}

impl DictRepr {
    /// A dictionary's representation owns, on the heap, what its code buffer, its classes,
    /// its large blocks and its two select tables own, each counted once, summed with
    /// saturation.
    proof fn lemma_heap_outcome(&self, h: nat)
        ensures
            self.spec_heap_outcome(h) <==> exists|a: nat, b: nat, c: nat, d: nat, e: nat|
                #![trigger self.sb_indices.spec_heap_outcome(a), self.sb_classes.spec_heap_outcome(b), self.large_blocks.spec_heap_outcome(c), self.select_one_inds.spec_heap_outcome(d), self.select_zero_inds.spec_heap_outcome(e)]
                self.sb_indices.spec_heap_outcome(a) && self.sb_classes.spec_heap_outcome(b)
                    && self.large_blocks.spec_heap_outcome(c) && self.select_one_inds.spec_heap_outcome(d)
                    && self.select_zero_inds.spec_heap_outcome(e) && h == saturated(a + b + c + d + e),
    {
    }
}

impl RsDict {
    /// A dictionary owns, on the heap, what its code buffer, its classes, its large blocks
    /// and its two select tables own, each counted once, summed with saturation.
    proof fn lemma_heap_outcome(&self, h: nat)
        ensures
            self.spec_heap_outcome(h) <==> exists|a: nat, b: nat, c: nat, d: nat, e: nat|
                #![trigger self.repr.sb_indices.spec_heap_outcome(a), self.repr.sb_classes.spec_heap_outcome(b), self.repr.large_blocks.spec_heap_outcome(c), self.repr.select_one_inds.spec_heap_outcome(d), self.repr.select_zero_inds.spec_heap_outcome(e)]
                self.repr.sb_indices.spec_heap_outcome(a) && self.repr.sb_classes.spec_heap_outcome(b)
                    && self.repr.large_blocks.spec_heap_outcome(c)
                    && self.repr.select_one_inds.spec_heap_outcome(d)
                    && self.repr.select_zero_inds.spec_heap_outcome(e) && h == saturated(
                    a + b + c + d + e,
                ),
    {
    }
}

} // verus!
