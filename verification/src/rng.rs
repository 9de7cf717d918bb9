//! Randomness, taken on trust from the `rand` crate.
use vstd::prelude::*;

use crate::fixed::FX_ONE;
use crate::mnist::Picture;
use rand::seq::SliceRandom;

verus! {

/// Relies on rand::random_range: the result of sampling an i64 from
/// `0..FX_ONE` lies in that range.  Nothing more is assumed of it.
#[verifier::external_body]
pub fn random_unit() -> (r: i64)
    ensures
        0 <= r < FX_ONE as int,
{
    rand::random_range(0..FX_ONE)
}

/// Relies on rand::seq::SliceRandom::shuffle: it permutes the slice in
/// place, so the new order holds exactly the old elements.  Which order
/// comes out is not assumed.
#[verifier::external_body]
pub fn shuffle_pictures(v: &mut Vec<Picture>)
    ensures
        final(v)@.len() == old(v)@.len(),
        final(v)@.to_multiset() == old(v)@.to_multiset(),
{
    v.as_mut_slice().shuffle(&mut rand::rng());
}

} // verus!
