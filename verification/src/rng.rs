use vstd::prelude::*;

verus! {

/// The deterministic, seedable generator that callers hand through the
/// splitting and sampling operations, so that a fixed seed reproduces a
/// whole run. Declared so that it can cross verified signatures; the
/// library never looks inside it.
#[verifier::external_type_specification]
#[verifier::external_body]
pub struct ExStdRng(rand::rngs::StdRng);

/// Relies on rand's `Rng::gen_range` over the half-open range `0..bound`:
/// every draw lies strictly below the bound. The call panics only on an
/// empty range, which the precondition rules out. Which value comes back
/// is random, so no more is claimed.
#[verifier::external_body]
pub(crate) fn rng_below(rng: &mut rand::rngs::StdRng, bound: u64) -> (r: u64)
    requires
        bound >= 1,
    ensures
        r < bound,
{
    rand::Rng::gen_range(rng, 0..bound)
}

} // verus!
