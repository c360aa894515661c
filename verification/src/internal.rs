//! Internal building blocks shared by the vector types.

use vstd::prelude::*;

pub mod vector_base;
pub mod search;

verus! {

/// Stops the program with `msg` where `cond` fails; verified callers always meet it.
pub fn require(cond: bool, msg: &str)
    requires
        cond,
{
    if !cond {
        None::<()>.expect(msg);
    }
}

/// Calls `Vec::capacity`: how many elements the vector can hold without reallocating.
///
/// The standard library documents that the capacity is never below the length and that a
/// vector never allocates more than `isize::MAX` bytes; what the capacity is beyond that
/// depends on the allocator, and nothing more is claimed.
#[verifier::external_body]
pub(crate) fn vec_capacity<T>(v: &Vec<T>) -> (r: usize)
    ensures
        r >= v.len(),
        r * vstd::layout::size_of::<T>() <= isize::MAX,
{
    v.capacity()
}

/// Calls `Vec::reserve_exact`, which leaves the elements as they are.
///
/// It panics where the new capacity overflows a `usize` or exceeds `isize::MAX` bytes, which
/// the precondition rules out.
#[verifier::external_body]
pub(crate) fn vec_reserve_exact<T>(v: &mut Vec<T>, additional: usize)
    requires
        old(v).len() + additional <= usize::MAX,
        (old(v).len() + additional) * vstd::layout::size_of::<T>() <= isize::MAX,
    ensures
        final(v)@ == old(v)@,
{
    v.reserve_exact(additional)
}

/// Calls `Vec::shrink_to_fit`, which leaves the elements as they are.
#[verifier::external_body]
pub(crate) fn vec_shrink_to_fit<T>(v: &mut Vec<T>)
    ensures
        final(v)@ == old(v)@,
{
    v.shrink_to_fit()
}

} // verus!
