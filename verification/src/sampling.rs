//! The random source: the thread-local generator of the `rand` crate.
//!
//! Nothing is known of a draw but the range it lies in, so every function that
//! draws states what holds of all outcomes, and leaves the rest to a function
//! that takes the draw as an argument.

use rand::rngs::ThreadRng;
use rand::Rng;
use vstd::prelude::*;
use crate::scalar::Scalar;

verus! {

/// The generator that `rand::thread_rng` hands out; opaque to the verifier.
#[verifier::external_type_specification]
#[verifier::external_body]
pub struct ExThreadRng(rand::rngs::ThreadRng);

/// Calls `rand::Rng::gen_range` on the half-open range `lo..hi` of `i64`.
///
/// Trusted: the draw lies in the range. An empty range is left out, because
/// the call panics on it. The call also panics where the thread's generator
/// is due for new entropy and the operating system fails to supply it; no
/// argument decides that, so no clause can leave it out.
#[verifier::external_body]
fn draw_between(rng: &mut ThreadRng, lo: i64, hi: i64) -> (r: i64)
    requires
        lo < hi,
    ensures
        lo <= r < hi,
{
    rng.gen_range(lo..hi)
}

impl Scalar {
    /// A scalar drawn from `[lo, hi)` in steps of a trillionth.
    pub fn gen_range(rng: &mut ThreadRng, lo: Scalar, hi: Scalar) -> (r: Scalar)
        requires
            lo.raw < hi.raw,
        ensures
            lo.raw <= r.raw < hi.raw,
    {
        Scalar { raw: draw_between(rng, lo.raw, hi.raw) }
    }
}

} // verus!
