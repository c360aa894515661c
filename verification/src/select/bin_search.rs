//! Select queries answered by binary search over rank queries.

use vstd::prelude::*;

verus! {

use crate::bit_vec::traits::BitVec;
use crate::internal::search::binary_search_function;
use crate::rank::traits::{BitRankSupport, RankSupport, count_in, lemma_count_mono};
use crate::space_usage::SpaceUsage;
use super::traits::{
    SelectSupport,
    SelectSupport0,
    SelectSupport1,
    select_answer,
    lemma_occurrence_by_counts,
};

/// Performs a select query by binary searching rank queries.
pub struct BinSearchSelect<Rank> {
    rank_support: Rank,
}

impl<Rank> BinSearchSelect<Rank> {
    /// The underlying rank support.
    pub closed spec fn rank_support(&self) -> Rank {
        self.rank_support
    }
}

impl<Rank: RankSupport> BinSearchSelect<Rank> {
    /// Creates a new binary search selection support given a rank support.
    pub fn new(rank_support: Rank) -> (r: Self)
        ensures
            r.rank_support() == rank_support,
    {
        BinSearchSelect { rank_support: rank_support }
    }

    /// Borrows a reference to the underlying rank support.
    pub fn inner(&self) -> (r: &Rank)
        ensures
            *r == self.rank_support(),
    {
        &self.rank_support
    }

    /// Returns the underlying rank support.
    pub fn into_inner(self) -> (r: Rank)
        ensures
            r == self.rank_support(),
    {
        self.rank_support
    }
}

/// Turns what the binary search saw into the select answer: with counts through each
/// position non-decreasing, the first position whose count reaches `index + 1` holds
/// occurrence `index`.
proof fn lemma_search_answer<T>(s: Seq<T>, v: T, index: u64, r: Option<u64>)
    requires
        s.len() <= u64::MAX,
        match r {
            Some(d) => {
                &&& d < s.len()
                &&& index + 1 <= count_in(s, v, (d + 1) as nat)
                &&& 0 < d ==> count_in(s, v, d as nat) < index + 1
            },
            None => 0 < s.len() ==> count_in(s, v, s.len()) < index + 1,
        },
    ensures
        select_answer(s, v, index as nat, r),
{
    match r {
        Some(d) => {
            lemma_occurrence_by_counts(s, v, index as nat, d as nat);
        },
        None => {},
    }
}

impl<Rank: RankSupport> BinSearchSelect<Rank> {
    /// Finds occurrence `index` of `value` by binary search for the first position whose rank
    /// reaches `index + 1`.
    fn search(&self, index: u64, value: Rank::Over) -> (r: Option<u64>)
        ensures
            select_answer(self.rank_support.spec_over(), value, index as nat, r),
    {
        let ghost s = self.rank_support.spec_over();
        let limit = self.rank_support.limit();
        // No sequence of `u64::MAX` positions holds more than `u64::MAX` occurrences.
        let target = match index.checked_add(1) {
            Some(t) => t,
            None => {
                proof {
                    crate::rank::traits::lemma_count_le(s, value, s.len());
                }
                return None;
            },
        };
        let rank = &self.rank_support;
        let f = |i: u64| -> (c: u64)
            requires
                i < limit,
            ensures
                c == count_in(rank.spec_over(), value, (i + 1) as nat),
            { rank.rank(i, value) };
        proof {
            assert forall|d1: u64, d2: u64, r1: u64, r2: u64|
                #![trigger call_ensures(f, (d1,), r1), call_ensures(f, (d2,), r2)]
                0 <= d1 <= d2 < limit && call_ensures(f, (d1,), r1) && call_ensures(f, (d2,), r2)
                    implies r1 <= r2 by {
                lemma_count_mono(s, value, (d1 + 1) as nat, (d2 + 1) as nat);
            }
        }
        let r = binary_search_function(0, limit, target, f);
        proof {
            match r {
                Some(d) => {
                    if 0 < d {
                        let x = choose|x: u64| #[trigger] call_ensures(f, ((d - 1) as u64,), x) && x < target;
                        assert(count_in(s, value, d as nat) < index + 1);
                    }
                },
                None => {},
            }
            lemma_search_answer(s, value, index, r);
        }
        r
    }
}

impl<Rank: BitRankSupport> SelectSupport1 for BinSearchSelect<Rank> {
    open spec fn spec_select1_bits(&self) -> Seq<bool> {
        self.rank_support().spec_over()
    }

    fn select1(&self, index: u64) -> (r: Option<u64>) {
        self.search(index, true)
    }
}

impl<Rank: BitRankSupport> SelectSupport0 for BinSearchSelect<Rank> {
    open spec fn spec_select0_bits(&self) -> Seq<bool> {
        self.rank_support().spec_over()
    }

    fn select0(&self, index: u64) -> (r: Option<u64>) {
        self.search(index, false)
    }
}

impl<Rank: RankSupport> SelectSupport for BinSearchSelect<Rank> {
    type Over = Rank::Over;

    open spec fn spec_select_over(&self) -> Seq<Rank::Over> {
        self.rank_support().spec_over()
    }

    fn select(&self, index: u64, value: Rank::Over) -> (r: Option<u64>) {
        self.search(index, value)
    }
}

impl<Rank: RankSupport> RankSupport for BinSearchSelect<Rank> {
    type Over = Rank::Over;

    open spec fn spec_over(&self) -> Seq<Rank::Over> {
        self.rank_support().spec_over()
    }

    fn rank(&self, position: u64, value: Rank::Over) -> (r: u64) {
        self.rank_support.rank(position, value)
    }

    fn limit(&self) -> (r: u64) {
        self.rank_support.limit()
    }
}

impl<Rank: BitRankSupport> BitRankSupport for BinSearchSelect<Rank> {
    fn rank1(&self, position: u64) -> (r: u64) {
        self.rank_support.rank1(position)
    }

    fn rank0(&self, position: u64) -> (r: u64) {
        self.rank_support.rank0(position)
    }
}

impl<Rank: BitVec> BitVec for BinSearchSelect<Rank> {
    type Block = Rank::Block;

    open spec fn spec_bits(&self) -> Seq<bool> {
        self.rank_support().spec_bits()
    }

    fn bit_len(&self) -> (r: u64) {
        self.rank_support.bit_len()
    }

    fn block_len(&self) -> (r: usize) {
        self.rank_support.block_len()
    }

    fn get_block(&self, position: usize) -> (r: Rank::Block) {
        self.rank_support.get_block(position)
    }

    fn get_bit(&self, position: u64) -> (r: bool) {
        self.rank_support.get_bit(position)
    }

    fn get_bits(&self, start: u64, count: usize) -> (r: Rank::Block) {
        self.rank_support.get_bits(start, count)
    }
}

impl<Rank: SpaceUsage> SpaceUsage for BinSearchSelect<Rank> {
    open spec fn spec_stack_only() -> bool {
        Rank::spec_stack_only()
    }

    open spec fn spec_heap_floor(&self) -> nat {
        self.rank_support().spec_heap_floor()
    }

    open spec fn spec_heap_outcome(&self, h: nat) -> bool {
        self.rank_support().spec_heap_outcome(h)
    }

    fn is_stack_only() -> (r: bool) {
        Rank::is_stack_only()
    }

    fn heap_bytes(&self) -> (r: usize) {
        self.rank_support.heap_bytes()
    }
}

impl<Rank: SpaceUsage> BinSearchSelect<Rank> {
    /// A select structure owns, on the heap, what its rank support owns.
    pub proof fn lemma_heap_outcome(&self, h: nat)
        ensures
            self.spec_heap_outcome(h) <==> self.rank_support().spec_heap_outcome(h),
    {
    }
}

} // verus!
