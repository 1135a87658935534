//! Random draws, from the `rand` crate.

use vstd::prelude::*;

verus! {

/// Relies on `rand::random_range`: a value drawn from `0 .. n`, which it
/// documents to panic only on an empty range.
#[verifier::external_body]
pub(crate) fn random_below(n: usize) -> (r: usize)
    requires
        n > 0,
    ensures
        r < n,
{
    rand::random_range(0..n)
}

} // verus!
