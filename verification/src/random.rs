//! The uniform random source. Everything here is trusted: the contracts
//! state only what holds of every draw.
use vstd::prelude::*;

verus! {

/// `rand::rngs::ThreadRng`, the thread-local generator. Opaque to the
/// verifier: a value of it is only carried to `uniform_inclusive`.
#[verifier::external_type_specification]
#[verifier::external_body]
pub struct ExThreadRng(rand::rngs::ThreadRng);

/// `rand::thread_rng` hands out the calling thread's generator. Nothing is
/// claimed of the value. The generator is seeded from the operating
/// system at its first use in a thread; where the system gives no
/// entropy then, the call panics. No input decides that, so no
/// precondition can rule it out: it counts with running out of memory.
pub assume_specification[ rand::thread_rng ]() -> (rng: rand::rngs::ThreadRng);

/// `rand::Rng::gen_range` on the inclusive range `low..=high`. Trusted: the
/// value lies in the range. Which value comes is left open, so two calls
/// with the same bounds may differ. `gen_range` panics on an empty range,
/// which `low <= high` rules out. The thread's generator reseeds itself
/// from the operating system from time to time, and panics where that
/// fails; as with the first seeding, no input decides it and no
/// precondition can rule it out.
#[verifier::external_body]
pub(crate) fn uniform_inclusive(rng: &mut rand::rngs::ThreadRng, low: usize, high: usize) -> (r: usize)
    requires
        low <= high,
    ensures
        low <= r <= high,
{
    rand::Rng::gen_range(rng, low..=high)
}

} // verus!
