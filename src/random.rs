use vstd::prelude::*;
use rand::Rng;

verus! {

/// Relies on rand's `thread_rng().gen_range(min..max)`: a value drawn from the
/// half-open range `[min, max)`, which must not be empty (else it panics).
#[verifier::external_body]
pub fn range(min: usize, max: usize) -> (r: usize)
    requires
        min < max,
    ensures
        min <= r < max,
{
    rand::thread_rng().gen_range(min..max)
}

} // verus!
