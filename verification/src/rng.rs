//! The crate's only sources of chance, behind trusted wrappers.
//!
//! Every random decision in the engine is reduced to one of two integer
//! draws; contracts downstream state what holds of every outcome.

use vstd::prelude::*;
use rand::Rng;
use rand_distr::Distribution;

verus! {

/// Relies on `rand::Rng::gen_range` over `0..n`: returns a uniform index
/// below `n`; it panics only on an empty range, which the precondition
/// rules out.
#[verifier::external_body]
pub fn sample_index(n: usize) -> (r: usize)
    requires
        n >= 1,
    ensures
        r < n,
{
    rand::thread_rng().gen_range(0..n)
}

/// Relies on `rand_distr::WeightedAliasIndex`: a three-way categorical
/// draw returning `i` with probability `w_i` over the total, so an index
/// of zero weight is never returned.  `new` only errors on an empty list,
/// a weight above `u32::MAX / len` or a zero total, all ruled out here.
#[verifier::external_body]
pub fn sample_weighted3(w0: u32, w1: u32, w2: u32) -> (r: usize)
    requires
        w0 + w1 + w2 >= 1,
        w0 <= u32::MAX as int / 3,
        w1 <= u32::MAX as int / 3,
        w2 <= u32::MAX as int / 3,
    ensures
        r < 3,
        r == 0 ==> w0 >= 1,
        r == 1 ==> w1 >= 1,
        r == 2 ==> w2 >= 1,
{
    let dist = rand_distr::WeightedAliasIndex::new(vec![w0, w1, w2]).unwrap();
    dist.sample(&mut rand::thread_rng())
}

} // verus!
