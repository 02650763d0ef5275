//! Numbers drawn by chance.
use vstd::prelude::*;

verus! {

/// `Rng::gen_range` on the generator of the thread: some number below the limit.
/// Which one it is rests on chance.
#[verifier::external_body]
pub(crate) fn random_below(limit: usize) -> (number: usize)
    requires
        limit > 0,
    ensures
        number < limit,
{
    rand::Rng::gen_range(&mut rand::thread_rng(), 0..limit)
}

} // verus!
