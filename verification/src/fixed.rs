//! Fixed-point arithmetic helpers.
//!
//! A height or coordinate `v: i64` stands for the real number `v / SCALE`.

use vstd::prelude::*;
use vstd::arithmetic::div_mod::{
    lemma_fundamental_div_mod, lemma_fundamental_div_mod_converse,
    lemma_mod_division_less_than_divisor,
};

verus! {

/// Fixed-point scale: the integer `SCALE` represents the real number 1.0.
pub const SCALE: i64 = 65536;

/// Magnitude bound under which all intermediate values of the engine stay
/// comfortably inside `i64`.
pub const FIXED_LIMIT: i64 = 0x1000_0000_0000_0000;

/// Floor division of a (possibly negative) fixed-point value by a positive
/// divisor. Agrees with mathematical (Euclidean) division for positive
/// divisors.
pub fn div_floor(a: i64, b: i64) -> (q: i64)
    requires
        0 < b <= FIXED_LIMIT,
        -FIXED_LIMIT <= a <= FIXED_LIMIT,
    ensures
        q == a as int / b as int,
{
    if a >= 0 {
        let q: u64 = (a as u64) / (b as u64);
        proof {
            lemma_fundamental_div_mod(a as int, b as int);
            lemma_mod_division_less_than_divisor(a as int, b as int);
        }
        q as i64
    } else {
        let m: u64 = (-a) as u64;
        let bu: u64 = b as u64;
        let qm: u64 = (m + (bu - 1)) / bu;
        proof {
            let mi = m as int;
            let bi = b as int;
            let qi = qm as int;
            lemma_fundamental_div_mod(mi + bi - 1, bi);
            lemma_mod_division_less_than_divisor(mi + bi - 1, bi);
            assert(qi == (mi + bi - 1) / bi);
            assert(mi + bi - 1 == bi * qi + ((mi + bi - 1) % bi));
            assert(0 <= qi * bi - mi < bi);
            assert(-mi == (-qi) * bi + (qi * bi - mi)) by (nonlinear_arith);
            // qm is the ceiling of m / b, so -qm is the floor of -m / b.
            lemma_fundamental_div_mod_converse(-mi, bi, -qi, qi * bi - mi);
        }
        -(qm as i64)
    }
}

} // verus!
