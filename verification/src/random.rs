use rand::rngs::StdRng;
use rand::Rng;
use vstd::prelude::*;

verus! {

/// The seeded random generator that the search draws from.
#[verifier::external_type_specification]
#[verifier::external_body]
pub struct ExStdRng(StdRng);

/// Draws a byte with `Rng::gen_range(0u8..=255)`. Every byte can come back,
/// so nothing is stated of the result.
#[verifier::external_body]
pub(crate) fn random_byte(rng: &mut StdRng) -> u8 {
    rng.gen_range(0u8..=255)
}

/// Draws an index with `Rng::gen_range(0..n)`, which panics on an empty
/// range and otherwise returns a value of the range.
#[verifier::external_body]
pub(crate) fn random_below(rng: &mut StdRng, n: usize) -> (r: usize)
    requires
        n > 0,
    ensures
        r < n,
{
    rng.gen_range(0..n)
}

/// Draws an offset with `Rng::gen_range(lo..=hi)`, which panics on an empty
/// range and otherwise returns a value of the range.
#[verifier::external_body]
pub(crate) fn random_offset(rng: &mut StdRng, lo: i32, hi: i32) -> (r: i32)
    requires
        lo <= hi,
    ensures
        lo <= r <= hi,
{
    rng.gen_range(lo..=hi)
}

/// Draws a coin with `Rng::gen_ratio(numerator, denominator)`, true with
/// chance `numerator / denominator`. It panics when `denominator` is 0 or
/// `numerator > denominator`; its documentation promises `false` for a zero
/// numerator and `true` when numerator and denominator are equal.
#[verifier::external_body]
pub(crate) fn random_ratio(rng: &mut StdRng, numerator: u32, denominator: u32) -> (r: bool)
    requires
        0 < denominator,
        numerator <= denominator,
    ensures
        numerator == 0 ==> !r,
        numerator == denominator ==> r,
{
    rng.gen_ratio(numerator, denominator)
}

} // verus!
