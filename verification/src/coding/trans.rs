//! Transformations of codes.

use vstd::prelude::*;

verus! {

use crate::errors::too_many_bits;
use crate::stream::traits::{BitRead, BitWrite};
use super::traits::UniversalCode;

/// Lifts any code by adding one to each encoded value, and subtracting one from each decoded
/// value.
///
/// This is useful when the underlying code, like Elias codes, can’t handle 0s.
pub struct Lift0<Code: UniversalCode>(pub Code);

impl<Code: UniversalCode> UniversalCode for Lift0<Code> {
    open spec fn spec_code(&self, value: u64) -> Seq<bool> {
        self.0.spec_code((value + 1) as u64)
    }

    open spec fn spec_encodable(&self, value: u64) -> bool {
        value < u64::MAX ==> self.0.spec_encodable((value + 1) as u64)
    }

    open spec fn spec_encodes(&self, value: u64) -> bool {
        value < u64::MAX && self.0.spec_encodes((value + 1) as u64)
    }

    open spec fn spec_round_trips(&self, value: u64) -> bool {
        value < u64::MAX && self.0.spec_round_trips((value + 1) as u64)
    }

    /// The underlying code takes the input, and reads no part of it as 0.
    open spec fn spec_decodable(&self, input: Seq<bool>) -> bool {
        &&& self.0.spec_decodable(input)
        &&& forall|k: int| 0 <= k <= input.len() ==> !#[trigger] self.0.spec_reads_as(input.take(k), 0)
    }

    open spec fn spec_is_end(&self, input: Seq<bool>) -> bool {
        self.0.spec_is_end(input)
    }

    open spec fn spec_reads_as(&self, word: Seq<bool>, value: u64) -> bool {
        value < u64::MAX && self.0.spec_reads_as(word, (value + 1) as u64)
    }

    fn encode<W: BitWrite>(&self, sink: &mut W, value: u64) -> (r: Result<(), std::io::Error>) {
        if let Some(value) = value.checked_add(1) {
            self.0.encode(sink, value)
        } else {
            too_many_bits("Lift0::encode")
        }
    }

    fn decode<R: BitRead>(&self, source: &mut R) -> (r: Result<Option<u64>, std::io::Error>) {
        let ghost start = source.spec_unread();
        match self.0.decode(source) {
            Ok(Some(n)) => {
                proof {
                    let k = start.len() - source.spec_unread().len();
                    assert(self.0.spec_reads_as(start.take(k), n));
                    assert(n != 0);
                    assert forall|v: u64, rest: Seq<bool>|
                        old(source).spec_reads_succeed() && self.spec_round_trips(v) && start
                            == #[trigger] (self.spec_code(v) + rest) implies n - 1 == v && source.spec_unread() == rest by {
                        assert(start == self.0.spec_code((v + 1) as u64) + rest);
                    }
                }
                Ok(Some(n - 1))
            },
            otherwise => {
                proof {
                    assert forall|v: u64, rest: Seq<bool>|
                        old(source).spec_reads_succeed() && self.spec_round_trips(v) && start
                            == #[trigger] (self.spec_code(v) + rest) implies false by {
                        assert(start == self.0.spec_code((v + 1) as u64) + rest);
                    }
                }
                otherwise
            },
        }
    }
}

} // verus!
