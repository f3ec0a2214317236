//! The one place where the library draws at random.

use vstd::prelude::*;
use rand::Rng;
use rand::rngs::StdRng;

verus! {

/// The generator `rand::rngs::StdRng`. It is handed on to `draw_below` as it
/// is; nothing is known of its state.
#[verifier::external_type_specification]
#[verifier::external_body]
pub struct ExStdRng(StdRng);

/// Draws an index below `bound` from the generator.
///
/// Calls `rand::Rng::gen_range(0, bound)` on a `rand::rngs::StdRng`. The
/// contract claims what the method's documentation says: the value lies in
/// the half-open range from the lower bound to the upper one. The method
/// panics on an empty range, which `bound > 0` leaves out. Which value
/// comes depends on the generator's state, of which nothing is claimed.
#[verifier::external_body]
pub(crate) fn draw_below(rng: &mut StdRng, bound: usize) -> (r: usize)
    requires
        bound > 0,
    ensures
        r < bound,
{
    rng.gen_range(0, bound)
}

} // verus!
