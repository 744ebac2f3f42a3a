use rand::Rng;
use vstd::prelude::*;

verus! {

/// Relies on `rand::Rng::gen_range` over `low..high` (thread-local generator):
/// a value of the half-open range; it panics only on an empty range.
#[verifier::external_body]
pub(crate) fn random_in_range(low: usize, high: usize) -> (r: usize)
    requires
        low < high,
    ensures
        low <= r < high,
{
    rand::thread_rng().gen_range(low..high)
}

/// Relies on `rand::Rng::gen_range` over `0..=max` (thread-local generator):
/// a value of the closed range, which is never empty.
#[verifier::external_body]
pub(crate) fn random_up_to(max: u64) -> (r: u64)
    ensures
        r <= max,
{
    rand::thread_rng().gen_range(0..=max)
}

/// Relies on `rand::Rng::gen_ratio` (thread-local generator): `true` with
/// probability `numerator / denominator`; documented to be always `false` when
/// `numerator == 0` and always `true` when `numerator == denominator`, and to
/// panic when `denominator == 0` or `numerator > denominator`.
#[verifier::external_body]
pub(crate) fn random_chance(numerator: u32, denominator: u32) -> (r: bool)
    requires
        0 < denominator,
        numerator <= denominator,
    ensures
        numerator == 0 ==> !r,
        numerator == denominator ==> r,
{
    rand::thread_rng().gen_ratio(numerator, denominator)
}

} // verus!
