//! The crate's only sources of randomness, each a thin trusted wrapper
//! around the `rand` crate.

use vstd::prelude::*;
use crate::name::Name;

verus! {

/// Relies on `rand::random`: a uniformly random 64-bit name. Nothing is
/// promised of the value.
#[verifier::external_body]
pub fn random_name() -> (r: Name) {
    Name(rand::random::<u64>())
}

/// Relies on `rand::Rng::gen_ratio`: `true` with probability
/// `num / den`; guaranteed `false` when `num` is 0 and `true` when
/// `num == den` (and it panics outside `0 <= num <= den`, `den > 0`).
#[verifier::external_body]
pub fn do_with_ratio(num: u32, den: u32) -> (r: bool)
    requires
        den > 0,
        num <= den,
    ensures
        num == 0 ==> !r,
        num == den ==> r,
{
    let mut rng = rand::thread_rng();
    rand::Rng::gen_ratio(&mut rng, num, den)
}

/// Relies on `rand::Rng::gen_range`: a value sampled from
/// `[start, end)` (it panics on an empty range).
#[verifier::external_body]
pub fn rand_int(start: u64, end: u64) -> (r: u64)
    requires
        start < end,
    ensures
        start <= r < end,
{
    let mut rng = rand::thread_rng();
    rand::Rng::gen_range(&mut rng, start..end)
}

/// Relies on `rand::seq::SliceRandom::shuffle`: reorders the names in
/// place, keeping exactly the same collection of names.
#[verifier::external_body]
pub fn shuffle(values: &mut Vec<Name>)
    ensures
        final(values)@.to_multiset() == old(values)@.to_multiset(),
{
    let mut rng = rand::thread_rng();
    rand::seq::SliceRandom::shuffle(values.as_mut_slice(), &mut rng)
}

} // verus!
