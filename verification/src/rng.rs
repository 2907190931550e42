//! Trusted access to the external random number generator.
//!
//! The solver's only source of randomness is the standard generator of the
//! rand crate, owned by the caller so that a run is reproducible by seeding
//! it externally.  Verified code reaches it through the one wrapper below.

use vstd::prelude::*;

verus! {

/// rand's standard random number generator, declared so that verified code
/// can carry one around.  Verus sees nothing inside a value of this type.
#[verifier::external_type_specification]
#[verifier::external_body]
pub struct ExStdRng(rand::rngs::StdRng);

/// Relies on rand's `RngExt::random_range` over the range `0..n`: the result
/// is a value in `[0, n)`.  Nothing more is assumed of it; in particular no
/// two draws are assumed to agree, and no distribution is claimed.
#[verifier::external_body]
pub(crate) fn rng_below(rng: &mut rand::rngs::StdRng, n: usize) -> (r: usize)
    requires
        n >= 1,
    ensures
        r < n,
{
    rand::RngExt::random_range(rng, 0..n)
}

} // verus!
