//! Random draws, for the plugins that simulate faults.

use rand::Rng;
use vstd::prelude::*;

verus! {

/// `Rng::gen_range` on the thread's generator draws a number from `0` up to,
/// not including, `bound`. It panics on an empty range, so `bound` is not
/// zero. Nothing is promised of which number comes.
#[verifier::external_body]
pub(crate) fn draw_below(bound: u64) -> (n: u64)
    requires
        bound > 0,
    ensures
        n < bound,
{
    rand::thread_rng().gen_range(0..bound)
}

} // verus!
