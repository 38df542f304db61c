//! The surface's source of randomness.
//!
//! Plate seeding and boundary growth draw from the thread-local generator of
//! the `rand` crate. Nothing is assumed about which values come back — only
//! that a bounded draw stays in bounds — so everything proved about the
//! surface holds for every sequence of draws.

use vstd::prelude::*;

verus! {

#[verifier::external_type_specification]
#[verifier::external_body]
pub struct ExThreadRng(rand::rngs::ThreadRng);

/// Relies on rand's `thread_rng`: a handle to the thread-local generator.
pub assume_specification[ rand::thread_rng ]() -> rand::rngs::ThreadRng;

/// Relies on rand's `Rng::gen_range` over `0..n`: it panics only on an
/// empty range, which the precondition excludes, and returns a value of the
/// range.
#[verifier::external_body]
pub fn rand_below(rng: &mut rand::rngs::ThreadRng, n: usize) -> (r: usize)
    requires
        n > 0,
    ensures
        r < n,
{
    rand::Rng::gen_range(rng, 0..n)
}

/// Relies on rand's `Rng::gen` with the `Standard` distribution on `bool`:
/// an unconstrained draw.
#[verifier::external_body]
pub fn rand_coin(rng: &mut rand::rngs::ThreadRng) -> (r: bool) {
    rand::Rng::gen::<bool>(rng)
}

/// A draw from `[-b, b]`, centred on zero.
pub fn rand_signed(rng: &mut rand::rngs::ThreadRng, b: i64) -> (r: i64)
    requires
        0 < b <= 1000000000,
    ensures
        -b <= r <= b,
{
    let w: usize = 2 * (b as usize) + 1;
    let d = rand_below(rng, w);
    (d as i64) - b
}

} // verus!
