//! The default source of uniform samples: the thread-local random generator.
//!
//! The engine itself only consumes plain fixed-point samples in `[0, SCALE)`,
//! so deterministic sequences can be injected for testing; this module
//! supplies the production sequence.

use vstd::prelude::*;
use crate::fixed::SCALE;
use crate::gen::samples_ok;

verus! {

/// Relies on rand::random: draws one value from the thread-local generator.
/// Nothing can be promised of a random value, so nothing is.
pub assume_specification<T>[ rand::random::<T> ]() -> (r: T)
    where
        rand::distributions::Standard: rand::distributions::Distribution<T>,
;

/// `count` uniform fixed-point samples in `[0, SCALE)`. Each is the remainder
/// of a uniform 32-bit draw, which is unbiased because `SCALE` divides 2^32.
pub fn random_samples(count: usize) -> (samples: Vec<i64>)
    ensures
        samples@.len() == count,
        samples_ok(samples@),
{
    let mut samples: Vec<i64> = Vec::new();
    while samples.len() < count
        invariant
            samples@.len() <= count,
            samples_ok(samples@),
        decreases count - samples@.len(),
    {
        let r: u32 = rand::random();
        let v: i64 = (r % (SCALE as u32)) as i64;
        samples.push(v);
    }
    samples
}

} // verus!
