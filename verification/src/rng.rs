//! The one source of chance the board draws on.

use rand::Rng;
use vstd::prelude::*;

verus! {

/// Draws a number below `bound`.
///
/// The body calls `rand::Rng::gen_range` with the range `0..bound` on the
/// generator that `rand::thread_rng` hands out. That call panics on an empty
/// range, hence the demand that `bound` be positive. Which number comes is
/// left open: all that is taken on trust is that it lies in the range.
#[verifier::external_body]
pub(crate) fn random_below(bound: usize) -> (r: usize)
    requires
        bound > 0,
    ensures
        r < bound,
{
    rand::thread_rng().gen_range(0..bound)
}

} // verus!
