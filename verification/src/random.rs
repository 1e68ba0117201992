//! The one source of chance in the library: rand's thread-local generator.

use rand::RngExt;
use vstd::prelude::*;

verus! {

/// Draws an index uniformly from `0..n` with `rand::rng().random_range(0..n)`.
/// The contract claims only that the draw lies in `0..n`; which value comes
/// out rests on chance and is left unsaid. rand panics on an empty range,
/// which `requires` rules out; it also panics if the operating system's
/// generator cannot seed the thread's generator, which nothing here can
/// rule out.
#[verifier::external_body]
pub(crate) fn random_below(n: usize) -> (r: usize)
    requires
        n > 0,
    ensures
        r < n,
{
    rand::rng().random_range(0..n)
}

} // verus!
