//! The random number generator, as far as the game relies on it.
use vstd::prelude::*;

verus! {

/// The generator of `rltk`. Nothing is known of what is inside it.
#[verifier::external_type_specification]
#[verifier::external_body]
pub struct ExRandomNumberGenerator(rltk::RandomNumberGenerator);

/// Calls `RandomNumberGenerator::roll_dice`, which adds up `n` throws of a
/// die with the faces 1 to `die_type`. Believed of it: the sum is no less
/// than `n` and no more than `n * die_type`. It panics on a die without
/// faces, and where the sum or `die_type + 1` does not fit in an `i32`,
/// which is why those are left out.
#[verifier::external_body]
pub(crate) fn roll_dice(rng: &mut rltk::RandomNumberGenerator, n: i32, die_type: i32) -> (sum: i32)
    requires
        0 <= n,
        1 <= die_type < i32::MAX,
        n * die_type <= i32::MAX,
    ensures
        n <= sum <= n * die_type,
{
    rng.roll_dice(n, die_type)
}

/// Calls `RandomNumberGenerator::range` on two `i32`, which draws from the
/// numbers from `min` up to, but not including, `max`. Believed of it: the
/// number drawn is one of those. It panics where there is none, which is why
/// that is left out.
#[verifier::external_body]
pub(crate) fn range(rng: &mut rltk::RandomNumberGenerator, min: i32, max: i32) -> (drawn: i32)
    requires
        min < max,
    ensures
        min <= drawn < max,
{
    rng.range(min, max)
}

/// Calls `RandomNumberGenerator::new`, which seeds a generator from the
/// machine's source of randomness. Nothing is believed of the result.
#[verifier::external_body]
pub(crate) fn fresh_rng() -> rltk::RandomNumberGenerator {
    rltk::RandomNumberGenerator::new()
}

} // verus!
