use vstd::prelude::*;

verus! {

#[verifier::external_type_specification]
#[verifier::external_body]
pub struct ExRng(fastrand::Rng);

/// Relies on fastrand::Rng::new: a freshly seeded random generator.
/// Nothing is assumed about the values it will produce.
#[verifier::external_body]
pub(crate) fn rng_new() -> fastrand::Rng {
    fastrand::Rng::new()
}

/// Relies on fastrand::Rng::u64 over the half-open range 0..n: the draw lies
/// in that range (the call panics only on an empty range, which the
/// precondition rules out). Nothing is assumed about its distribution.
#[verifier::external_body]
pub(crate) fn rng_below(rng: &mut fastrand::Rng, n: u64) -> (r: u64)
    requires
        n > 0,
    ensures
        r < n,
{
    rng.u64(0..n)
}

} // verus!
