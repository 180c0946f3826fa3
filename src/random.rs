//! The random source used for mine placement.
use vstd::prelude::*;

verus! {

/// The seedable generator of rand, carried through as an opaque value.
#[verifier::external_type_specification]
#[verifier::external_body]
pub struct ExStdRng(rand::rngs::StdRng);

/// Relies on `rand::Rng::gen_range` over `lo..hi`: a value in that half-open
/// range, which must not be empty.
#[verifier::external_body]
pub(crate) fn random_in(rng: &mut rand::rngs::StdRng, lo: usize, hi: usize) -> (r: usize)
    requires
        lo < hi,
    ensures
        lo <= r < hi,
{
    rand::Rng::gen_range(rng, lo..hi)
}

} // verus!
