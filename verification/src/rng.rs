//! Source of randomness for stake-weighted sampling and shuffling.

use vstd::prelude::*;

verus! {

/// Relies on rand's `Rng::gen_range` over `0..bound` on the thread-local
/// generator: it panics only on an empty range and otherwise returns a value
/// inside the range. Nothing more is assumed of a random draw.
#[verifier::external_body]
pub(crate) fn draw_below(bound: u64) -> (r: u64)
    requires
        bound > 0,
    ensures
        r < bound,
{
    rand::Rng::gen_range(&mut rand::thread_rng(), 0..bound)
}

} // verus!
