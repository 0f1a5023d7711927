//! The crate's two sources of randomness, wrapped with contracts that hold
//! of every outcome.

use vstd::prelude::*;
use rand::Rng;
use rand::prelude::SliceRandom;

verus! {

/// Relies on `rand::Rng::gen_range`: the sample lies in the given range,
/// and only an empty range panics.
#[verifier::external_body]
pub(crate) fn random_below(n: u64) -> (r: u64)
    requires
        n >= 1,
    ensures
        r < n,
{
    rand::thread_rng().gen_range(0..n)
}

/// Relies on `rand::seq::SliceRandom::shuffle`: the slice is permuted in
/// place, so the elements are kept, multiplicity included.
#[verifier::external_body]
pub(crate) fn shuffle_vec<T>(v: &mut Vec<T>)
    ensures
        final(v)@.to_multiset() == old(v)@.to_multiset(),
{
    v.shuffle(&mut rand::thread_rng());
}

} // verus!
