//! The crate's only source of randomness, drawn from the `rand` crate.

use vstd::prelude::*;
use crate::fixed::SCALE;

verus! {

/// Relies on `rand::random`: a value drawn from the thread-local generator
/// through the `Standard` distribution. Nothing is promised of the value.
pub assume_specification<T>[ rand::random::<T> ]() -> (r: T)
    where
        rand::distributions::Standard: rand::distributions::Distribution<T>,
;

/// One uniform fixed-point sample in `[0, SCALE)`.
pub fn random_scalar() -> (r: i64)
    ensures
        0 <= r < SCALE,
{
    let raw: u32 = rand::random();
    (raw % 1024) as i64
}

} // verus!
