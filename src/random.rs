//! Random draws for sampling, from a seeded `fastrand` generator that the
//! caller owns, so that runs can be repeated.
use vstd::prelude::*;

verus! {

/// The seeded generator of `fastrand`, carried through the extractor unopened.
#[verifier::external_type_specification]
#[verifier::external_body]
pub struct ExRng(fastrand::Rng);

/// Relies on `fastrand::Rng::usize`: a draw from the range `..n` lies below
/// `n`. The range is not empty, so the call does not panic.
#[verifier::external_body]
pub(crate) fn draw_index(rng: &mut fastrand::Rng, n: usize) -> (r: usize)
    requires
        n > 0,
    ensures
        r < n,
{
    rng.usize(..n)
}

} // verus!
