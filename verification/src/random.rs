//! The random source of the engine. Its generator comes from the `rand`
//! crate; nothing here is proved, the contracts below are taken on trust.

use vstd::prelude::*;
use rand::Rng;

verus! {

/// `rand::rngs::StdRng`, the seedable generator an engine draws from. Its
/// state is opaque to every contract of this crate.
#[verifier::external_type_specification]
#[verifier::external_body]
pub struct ExStdRng(rand::rngs::StdRng);

/// Draws an index below `n` with `rand::Rng::gen_range(0, n)`.
///
/// Trusted: `gen_range` returns a value in the half-open range it is given.
/// It panics where that range is empty, which `n > 0` rules out, and nowhere
/// else. Which index comes back depends on the generator's state and is not
/// stated.
#[verifier::external_body]
pub(crate) fn pick_index(rng: &mut rand::rngs::StdRng, n: usize) -> (i: usize)
    requires
        n > 0,
    ensures
        i < n,
    no_unwind
{
    rng.gen_range(0, n)
}

} // verus!
