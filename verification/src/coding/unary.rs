//! The unary code.

use vstd::prelude::*;

verus! {

use crate::errors::{out_of_bits, too_many_bits};
use crate::stream::traits::{BitRead, BitWrite};
use super::traits::UniversalCode;

/// Encodes _n_ as _n_ zeroes followed by a one.
pub struct Unary;

/// The unary code word of `value`: `value` zeroes, then a one.
pub open spec fn unary_code(value: nat) -> Seq<bool> {
    Seq::new(value, |i: int| false).push(true)
}

/// Where the first `k` bits of a unary code word and its continuation are zeroes, the value
/// is at least `k`, and it is `k` where bit `k` is a one.
proof fn lemma_unary_prefix(input: Seq<bool>, v: nat, rest: Seq<bool>, k: nat)
    requires
        input == unary_code(v) + rest,
        forall|j: int| 0 <= j < k ==> input[j] == false,
    ensures
        k <= v,
        k < input.len() && input[k as int] ==> k == v && input.skip((k + 1) as int) == rest,
{
    if k > v {
        assert(input[v as int] == true);
    }
    if k < input.len() && input[k as int] && k < v {
        assert(input[k as int] == false);
    }
    if k == v {
        assert(input.skip((k + 1) as int) =~= rest);
    }
}

impl UniversalCode for Unary {
    open spec fn spec_code(&self, value: u64) -> Seq<bool> {
        unary_code(value as nat)
    }

    open spec fn spec_encodable(&self, value: u64) -> bool {
        true
    }

    open spec fn spec_encodes(&self, value: u64) -> bool {
        true
    }

    open spec fn spec_round_trips(&self, value: u64) -> bool {
        true
    }

    open spec fn spec_decodable(&self, input: Seq<bool>) -> bool {
        true
    }

    open spec fn spec_is_end(&self, input: Seq<bool>) -> bool {
        input.len() == 0
    }

    open spec fn spec_reads_as(&self, word: Seq<bool>, value: u64) -> bool {
        word == unary_code(value as nat)
    }

    fn encode<W: BitWrite>(&self, sink: &mut W, value: u64) -> (r: Result<(), std::io::Error>) {
        let ghost start = sink.spec_written();
        let mut remaining = value;
        while remaining > 0
            invariant
                remaining <= value,
                sink.spec_written() == start + Seq::new((value - remaining) as nat, |i: int| false),
                old(sink).spec_writes_succeed() ==> sink.spec_writes_succeed(),
                start == old(sink).spec_written(),
            decreases remaining,
        {
            let ghost before = sink.spec_written();
            match sink.write_bit(false) {
                Err(e) => {
                    return Err(e);
                },
                Ok(()) => {},
            }
            remaining = remaining - 1;
            proof {
                assert(sink.spec_written() =~= start + Seq::new((value - remaining) as nat, |i: int| false));
            }
        }
        match sink.write_bit(true) {
            Err(e) => {
                return Err(e);
            },
            Ok(()) => {},
        }
        proof {
            assert(sink.spec_written() =~= start + unary_code(value as nat));
        }
        Ok(())
    }

    fn decode<R: BitRead>(&self, source: &mut R) -> (r: Result<Option<u64>, std::io::Error>) {
        let ghost start = source.spec_unread();
        let mut result: u64 = 0;
        let mut consumed = false;
        proof {
            assert(start.skip(0) =~= start);
        }
        loop
            invariant
                start == old(source).spec_unread(),
                result <= start.len(),
                source.spec_unread() == start.skip(result as int),
                forall|j: int| 0 <= j < result ==> start[j] == false,
                consumed == (result > 0),
                old(source).spec_reads_succeed() ==> source.spec_reads_succeed(),
            decreases start.len() - result,
        {
            match source.read_bit() {
                Err(e) => {
                    return Err(e);
                },
                Ok(None) => {
                    proof {
                        assert forall|v: u64, rest: Seq<bool>|
                            old(source).spec_reads_succeed() && self.spec_round_trips(v) && start
                                == #[trigger] (self.spec_code(v) + rest) implies false by {
                            lemma_unary_prefix(start, v as nat, rest, result as nat);
                        }
                    }
                    if consumed {
                        return out_of_bits("Unary::decode");
                    } else {
                        return Ok(None);
                    }
                },
                Ok(Some(bit)) => {
                    proof {
                        assert(start.skip(result as int).drop_first() =~= start.skip(result + 1));
                    }
                    if bit {
                        proof {
                            assert(start.take(result + 1) =~= unary_code(result as nat));
                            assert forall|v: u64, rest: Seq<bool>|
                                old(source).spec_reads_succeed() && self.spec_round_trips(v) && start
                                    == #[trigger] (self.spec_code(v) + rest) implies v == result && source.spec_unread() == rest by {
                                lemma_unary_prefix(start, v as nat, rest, result as nat);
                            }
                        }
                        return Ok(Some(result));
                    }
                    // Only an input of more than `u64::MAX` zeroes gets here.
                    result = match result.checked_add(1) {
                        Some(next) => next,
                        None => {
                            proof {
                                assert forall|v: u64, rest: Seq<bool>|
                                    old(source).spec_reads_succeed() && self.spec_round_trips(v) && start
                                        == #[trigger] (self.spec_code(v) + rest) implies false by {
                                    lemma_unary_prefix(start, v as nat, rest, (result + 1) as nat);
                                }
                            }
                            return too_many_bits("Unary::decode");
                        },
                    };
                    consumed = true;
                },
            }
        }
    }
}

} // verus!
