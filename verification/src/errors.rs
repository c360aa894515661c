//! The errors that decoding reports.

use vstd::prelude::*;

verus! {

/// The standard I/O error, carried through without being looked into.
#[verifier::external_type_specification]
#[verifier::external_body]
pub struct ExIoError(std::io::Error);

/// The error for input that ends in the middle of a code: an `std::io::Error` of kind
/// `InvalidInput`, made by `std::io::Error::new`.
///
/// Trusted: the only claim is that the result is an error.
#[verifier::external_body]
pub fn out_of_bits<A>(who: &str) -> (r: Result<A, std::io::Error>)
    ensures
        r is Err,
{
    Err(
        std::io::Error::new(
            std::io::ErrorKind::InvalidInput,
            format!("{}: could not decode: more bits expected", who),
        ),
    )
}

/// The error for a value too wide for the machine word: an `std::io::Error` of kind
/// `InvalidInput`, made by `std::io::Error::new`.
///
/// Trusted: the only claim is that the result is an error.
#[verifier::external_body]
pub(crate) fn too_many_bits<A>(who: &str) -> (r: Result<A, std::io::Error>)
    ensures
        r is Err,
{
    Err(
        std::io::Error::new(
            std::io::ErrorKind::InvalidInput,
            format!("{}: could not decode: too many bits", who),
        ),
    )
}

/// The error for a position past the end: an `std::io::Error` of kind `NotFound`, made by
/// `std::io::Error::new`.
///
/// Trusted: the only claim is that the result is an error.
#[verifier::external_body]
pub(crate) fn out_of_bounds<A>(who: &str) -> (r: Result<A, std::io::Error>)
    ensures
        r is Err,
{
    Err(
        std::io::Error::new(
            std::io::ErrorKind::NotFound,
            format!("{}: position out of bounds", who),
        ),
    )
}

} // verus!
