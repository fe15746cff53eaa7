//! The random source: the thread-local generator of the `rand` crate, of
//! whose draws only their range is known.

use rand::rngs::ThreadRng;
use rand::Rng;
use vstd::prelude::*;

verus! {

/// `rand::rngs::ThreadRng`, a handle to the generator of the current thread.
/// Nothing is known of a value of it.
#[verifier::external_type_specification]
#[verifier::external_body]
pub struct ExThreadRng(ThreadRng);

/// `rand::thread_rng`: a handle to the generator of the current thread.
/// Nothing is claimed of the handle. The generator is seeded from the
/// operating system on a thread's first call, and that call panics if the
/// system cannot provide a seed.
pub assume_specification[ rand::thread_rng ]() -> ThreadRng;

/// `Rng::gen_range` on the range `0..n`: some index below `n`. The call
/// panics on an empty range, so `n` must be positive.
#[verifier::external_body]
pub(crate) fn draw_below(rng: &mut ThreadRng, n: usize) -> (i: usize)
    requires
        n > 0,
    ensures
        i < n,
{
    rng.gen_range(0..n)
}

} // verus!
