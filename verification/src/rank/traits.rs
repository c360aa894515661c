//! Rank queries: how many times a value occurs up to a position.

use vstd::prelude::*;

verus! {

/// The number of positions before `end` at which `s` holds `v`.
pub open spec fn count_in<T>(s: Seq<T>, v: T, end: nat) -> nat
    decreases end,
{
    if end == 0 {
        0
    } else {
        count_in(s, v, (end - 1) as nat) + if s[end - 1] == v {
            1nat
        } else {
            0nat
        }
    }
}

/// A count never exceeds the number of positions counted.
pub proof fn lemma_count_le<T>(s: Seq<T>, v: T, end: nat)
    ensures
        count_in(s, v, end) <= end,
    decreases end,
{
    if end > 0 {
        lemma_count_le(s, v, (end - 1) as nat);
    }
}

/// Counting more positions never gives less.
pub proof fn lemma_count_mono<T>(s: Seq<T>, v: T, a: nat, b: nat)
    requires
        a <= b,
    ensures
        count_in(s, v, a) <= count_in(s, v, b),
    decreases b - a,
{
    if a < b {
        lemma_count_mono(s, v, a, (b - 1) as nat);
    }
}

/// Every position before `end` holds either `true` or `false`.
pub proof fn lemma_count_bool(s: Seq<bool>, end: nat)
    ensures
        count_in(s, true, end) + count_in(s, false, end) == end,
    decreases end,
{
    if end > 0 {
        lemma_count_bool(s, (end - 1) as nat);
    }
}

/// Counts depend only on the positions counted.
pub proof fn lemma_count_agree<T>(s: Seq<T>, t: Seq<T>, v: T, end: nat)
    requires
        forall|i: int| 0 <= i < end ==> #[trigger] s[i] == t[i],
    ensures
        count_in(s, v, end) == count_in(t, v, end),
    decreases end,
{
    if end > 0 {
        lemma_count_agree(s, t, v, (end - 1) as nat);
    }
}

/// Counting through a window: the count up to `a + k` is the count up to `a` plus that of
/// the `k` positions of `t` that mirror `s` from `a` on.
pub proof fn lemma_count_window<T>(s: Seq<T>, t: Seq<T>, v: T, a: nat, k: nat)
    requires
        forall|j: int| 0 <= j < k ==> #[trigger] t[j] == s[a + j],
    ensures
        count_in(s, v, a + k) == count_in(s, v, a) + count_in(t, v, k),
    decreases k,
{
    if k > 0 {
        lemma_count_window(s, t, v, a, (k - 1) as nat);
        assert(t[k - 1] == s[a + k - 1]);
    }
}

/// Positions that do not hold `v` add nothing to its count.
pub proof fn lemma_count_skip<T>(s: Seq<T>, v: T, k: nat, e: nat)
    requires
        k <= e,
        forall|j: int| k <= j < e ==> #[trigger] s[j] != v,
    ensures
        count_in(s, v, e) == count_in(s, v, k),
    decreases e - k,
{
    if k < e {
        lemma_count_skip(s, v, k, (e - 1) as nat);
    }
}

/// The ones of `bits` before position `e`, or before its end if that comes first.
pub open spec fn ones_to(bits: Seq<bool>, e: nat) -> nat {
    count_in(
        bits,
        true,
        if e <= bits.len() {
            e
        } else {
            bits.len()
        },
    )
}

/// Among `e - a` positions there are at most `e - a` ones.
pub proof fn lemma_ones_between(bits: Seq<bool>, a: nat, e: nat)
    requires
        a <= e,
    ensures
        ones_to(bits, a) <= ones_to(bits, e) <= ones_to(bits, a) + (e - a),
    decreases e - a,
{
    if a < e {
        lemma_ones_between(bits, a, (e - 1) as nat);
        if e <= bits.len() {
            assert(count_in(bits, true, e) <= count_in(bits, true, (e - 1) as nat) + 1);
        }
    }
}

/// Interface for types that answer rank queries over a sequence of values.
pub trait RankSupport {
    /// The type of value that is counted.
    type Over: Copy;

    /// The sequence that queries count over.
    spec fn spec_over(&self) -> Seq<Self::Over>;

    /// Returns the number of occurrences of `value` at positions `0 ..= position`.
    fn rank(&self, position: u64, value: Self::Over) -> (r: u64)
        requires
            position < self.spec_over().len() <= u64::MAX,
        ensures
            r == count_in(self.spec_over(), value, (position + 1) as nat),
    ;

    /// The number of positions that queries range over.
    fn limit(&self) -> (r: u64)
        ensures
            r == self.spec_over().len(),
    ;
}

/// Rank queries over bits.
pub trait BitRankSupport: RankSupport<Over = bool> {
    /// Returns the number of 1 bits at positions `0 ..= position`.
    fn rank1(&self, position: u64) -> (r: u64)
        requires
            position < self.spec_over().len() <= u64::MAX,
        ensures
            r == count_in(self.spec_over(), true, (position + 1) as nat),
    ;

    /// Returns the number of 0 bits at positions `0 ..= position`.
    fn rank0(&self, position: u64) -> (r: u64)
        requires
            position < self.spec_over().len() <= u64::MAX,
        ensures
            r == count_in(self.spec_over(), false, (position + 1) as nat),
    {
        let ones = self.rank1(position);
        proof {
            lemma_count_bool(self.spec_over(), (position + 1) as nat);
        }
        position + 1 - ones
    }
}

} // verus!
