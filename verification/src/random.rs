//! Random choices. Every choice is one outside draw; what is done with it is
//! decided by functions that take the drawn number as an argument.

use rand::rngs::StdRng;
use rand::Rng;
use vstd::prelude::*;

verus! {

/// The generator that the outside draws advance.
#[verifier::external_type_specification]
#[verifier::external_body]
pub struct ExStdRng(StdRng);

/// `rand::Rng::random_range` over `0..n`: some number below `n`. Which one
/// depends on the generator's state and is left open. The range must not be
/// empty.
#[verifier::external_body]
pub(crate) fn pick_below(rng: &mut StdRng, n: usize) -> (r: usize)
    requires
        n > 0,
    ensures
        r < n,
{
    rng.random_range(0..n)
}

/// `rand::Rng::random` of a `u64`: some number. Which one depends on the
/// generator's state and is left open.
#[verifier::external_body]
pub(crate) fn draw_word(rng: &mut StdRng) -> u64 {
    rng.random()
}

} // verus!
