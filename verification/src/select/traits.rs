//! Select queries: where the occurrence of a value with a given number comes.

use vstd::prelude::*;

verus! {

use crate::rank::traits::{count_in, lemma_count_mono};

/// Whether `p` is the position of occurrence number `index` (counting from zero) of `v` in
/// `s`: `s` holds `v` there, and `index` times before it.
pub open spec fn is_occurrence<T>(s: Seq<T>, v: T, index: nat, p: nat) -> bool {
    &&& p < s.len()
    &&& s[p as int] == v
    &&& count_in(s, v, p) == index
}

/// The answer to a select query for occurrence `index` of `v`: its position, or `None`
/// where `s` holds `v` no more than `index` times.
pub open spec fn select_answer<T>(s: Seq<T>, v: T, index: nat, r: Option<u64>) -> bool {
    match r {
        Some(p) => is_occurrence(s, v, index, p as nat),
        None => count_in(s, v, s.len()) <= index,
    }
}

/// Occurrence `index` of `v` is where `index + 1` occurrences have been counted, and not at a
/// position before.
pub proof fn lemma_occurrence_by_counts<T>(s: Seq<T>, v: T, index: nat, p: nat)
    requires
        p < s.len(),
        count_in(s, v, p) <= index,
        index + 1 <= count_in(s, v, p + 1),
    ensures
        is_occurrence(s, v, index, p),
{
    assert(count_in(s, v, p + 1) == count_in(s, v, p) + if s[p as int] == v {
        1nat
    } else {
        0nat
    });
}

/// There is at most one position for each occurrence.
pub proof fn lemma_occurrence_unique<T>(s: Seq<T>, v: T, index: nat, p: nat, q: nat)
    requires
        is_occurrence(s, v, index, p),
        is_occurrence(s, v, index, q),
    ensures
        p == q,
{
    if p < q {
        lemma_count_mono(s, v, p + 1, q);
        assert(count_in(s, v, p + 1) == index + 1);
    } else if q < p {
        lemma_count_mono(s, v, q + 1, p);
        assert(count_in(s, v, q + 1) == index + 1);
    }
}

/// Where `s` holds `v` more than `index` times, occurrence `index` has a position.
pub proof fn lemma_occurrence_exists<T>(s: Seq<T>, v: T, index: nat, end: nat) -> (p: nat)
    requires
        end <= s.len(),
        index < count_in(s, v, end),
    ensures
        p < end,
        is_occurrence(s, v, index, p),
    decreases end,
{
    if count_in(s, v, (end - 1) as nat) > index {
        lemma_occurrence_exists(s, v, index, (end - 1) as nat)
    } else {
        lemma_occurrence_by_counts(s, v, index, (end - 1) as nat);
        (end - 1) as nat
    }
}

/// Select is a right inverse of rank: through the position of occurrence `index`, there are
/// `index + 1` occurrences.
pub proof fn lemma_rank_of_select<T>(s: Seq<T>, v: T, index: nat, p: nat)
    requires
        is_occurrence(s, v, index, p),
    ensures
        count_in(s, v, p + 1) == index + 1,
{
    assert(count_in(s, v, p + 1) == count_in(s, v, p) + if s[p as int] == v {
        1nat
    } else {
        0nat
    });
}

/// Rank is a left inverse of select at the positions that hold the value: a position holding
/// `v`, with `k` occurrences before it, is occurrence `k`.
pub proof fn lemma_select_of_rank<T>(s: Seq<T>, v: T, p: nat)
    requires
        p < s.len(),
        s[p as int] == v,
    ensures
        is_occurrence(s, v, count_in(s, v, p), p),
{
}

/// A select answer is determined: at most one position answers each query, and one does
/// exactly when the sequence holds the value more than `index` times.
pub proof fn lemma_select_answer_unique<T>(s: Seq<T>, v: T, index: nat, r1: Option<u64>, r2: Option<u64>)
    requires
        s.len() <= u64::MAX,
        select_answer(s, v, index, r1),
        select_answer(s, v, index, r2),
    ensures
        r1 == r2,
{
    match r1 {
        Some(p) => match r2 {
            Some(q) => {
                lemma_occurrence_unique(s, v, index, p as nat, q as nat);
            },
            None => {
                lemma_count_mono(s, v, p as nat + 1, s.len());
                lemma_rank_of_select(s, v, index, p as nat);
            },
        },
        None => match r2 {
            Some(q) => {
                lemma_count_mono(s, v, q as nat + 1, s.len());
                lemma_rank_of_select(s, v, index, q as nat);
            },
            None => {},
        },
    }
}

/// Interface for types that support selecting for 1 bits.
pub trait SelectSupport1 {
    /// The bits that queries select among.
    spec fn spec_select1_bits(&self) -> Seq<bool>;

    /// Returns the position of the `index`th 1 bit (counting from zero), or `None` where
    /// there are no more than `index` of them.
    fn select1(&self, index: u64) -> (r: Option<u64>)
        ensures
            select_answer(self.spec_select1_bits(), true, index as nat, r),
    ;
}

/// Interface for types that support selecting for 0 bits.
pub trait SelectSupport0 {
    /// The bits that queries select among.
    spec fn spec_select0_bits(&self) -> Seq<bool>;

    /// Returns the position of the `index`th 0 bit (counting from zero), or `None` where
    /// there are no more than `index` of them.
    fn select0(&self, index: u64) -> (r: Option<u64>)
        ensures
            select_answer(self.spec_select0_bits(), false, index as nat, r),
    ;
}

/// Interface for types that support select queries over values of (associated type) `Over`.
pub trait SelectSupport {
    /// The type of value that we can search for.
    type Over: Copy;

    /// The sequence that queries select among.
    spec fn spec_select_over(&self) -> Seq<Self::Over>;

    /// Returns the position of the `index`th occurrence of `value` (counting from zero), or
    /// `None` where there are no more than `index` of them.
    fn select(&self, index: u64, value: Self::Over) -> (r: Option<u64>)
        ensures
            select_answer(self.spec_select_over(), value, index as nat, r),
    ;
}

} // verus!
