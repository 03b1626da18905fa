//! Elementary number theory (factors, multiples, primality, prime
//! factorization) and a few classic sequence exercises (duplicate
//! detection, anagram check, two-sum), each with a full functional
//! contract.

use vstd::prelude::*;

pub mod dsa;
pub mod prealgebra;

verus! {

} // verus!
