//! The interface of universal codes.

use vstd::prelude::*;

verus! {

use crate::stream::traits::{BitRead, BitWrite};

/// A universal code lets us encode arbitrary sized integers in a self-delimiting code.
///
/// Each code says, over spec functions, what it writes for a value and what it reads back:
/// a code word followed by anything decodes to the value it was written for.
pub trait UniversalCode {
    /// The code word that `encode` writes for `value`.
    spec fn spec_code(&self, value: u64) -> Seq<bool>;

    /// The values that `encode` takes.
    spec fn spec_encodable(&self, value: u64) -> bool;

    /// The values that `encode` writes without reporting an error.
    spec fn spec_encodes(&self, value: u64) -> bool;

    /// The values that read back from their code word.
    spec fn spec_round_trips(&self, value: u64) -> bool;

    /// The inputs that `decode` takes.
    spec fn spec_decodable(&self, input: Seq<bool>) -> bool;

    /// The inputs at which `decode` reports the end of the stream.
    spec fn spec_is_end(&self, input: Seq<bool>) -> bool;

    /// Whether `decode` reads the bits `word` as `value`.
    spec fn spec_reads_as(&self, word: Seq<bool>, value: u64) -> bool;

    /// Writes `value` to `sink`.
    fn encode<W: BitWrite>(&self, sink: &mut W, value: u64) -> (r: Result<(), std::io::Error>)
        requires
            self.spec_encodable(value),
        ensures
            old(sink).spec_writes_succeed() ==> final(sink).spec_writes_succeed() && (r is Ok
                <==> self.spec_encodes(value)),
            r is Ok ==> self.spec_encodes(value) && final(sink).spec_written() == old(sink).spec_written() + self.spec_code(value),
    ;

    /// Reads a value from `source`.
    ///
    /// `Ok(None)` indicates (benign) end of input.
    fn decode<R: BitRead>(&self, source: &mut R) -> (r: Result<Option<u64>, std::io::Error>)
        requires
            self.spec_decodable(old(source).spec_unread()),
        ensures
            old(source).spec_reads_succeed() ==> final(source).spec_reads_succeed(),
            forall|v: u64, rest: Seq<bool>|
                old(source).spec_reads_succeed() && self.spec_round_trips(v) && old(source).spec_unread() == #[trigger] (self.spec_code(v) + rest) ==> r == Ok::<
                    Option<u64>,
                    std::io::Error,
                >(Some(v)) && final(source).spec_unread() == rest,
            old(source).spec_reads_succeed() && self.spec_is_end(old(source).spec_unread()) ==> r
                == Ok::<Option<u64>, std::io::Error>(None),
            r matches Ok(Some(v)) ==> {
                let k = old(source).spec_unread().len() - final(source).spec_unread().len();
                &&& 0 <= k
                &&& final(source).spec_unread() == old(source).spec_unread().skip(k)
                &&& self.spec_reads_as(old(source).spec_unread().take(k), v)
            },
            r matches Ok(None) ==> self.spec_is_end(old(source).spec_unread()) && final(source).spec_unread().len() == 0,
    ;
}

} // verus!
