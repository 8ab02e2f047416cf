//! Random draws.

use vstd::prelude::*;
use rand::Rng;

verus! {

/// `Rng::gen_range` of the crate rand, called on `thread_rng()` with the
/// range `0..bound`. The crate's documentation has it panic on an empty
/// range and otherwise give a value of the range, the upper end excluded.
/// Which value is left open: two draws may differ. The generator is seeded
/// by the system and fails only where the system has no randomness to give.
#[verifier::external_body]
pub(crate) fn random_below(bound: usize) -> (out: usize)
    requires
        bound > 0,
    ensures
        out < bound,
{
    rand::thread_rng().gen_range(0..bound)
}

} // verus!
