//! Random numbers, drawn from the thread-local generator of `rand`.

use vstd::prelude::*;

verus! {

/// Relies on `rand::Rng::gen_range` on `rand::thread_rng()`: a uniform draw
/// from `low..high`; it panics on an empty range, which `requires` rules out.
#[verifier::external_body]
pub(crate) fn random_below(low: usize, high: usize) -> (r: usize)
    requires
        low < high,
    ensures
        low <= r < high,
{
    rand::Rng::gen_range(&mut rand::thread_rng(), low..high)
}

/// Relies on `rand::random::<u64>()`: any 64-bit value.
#[verifier::external_body]
pub(crate) fn random_id() -> (r: u64) {
    rand::random::<u64>()
}

} // verus!
