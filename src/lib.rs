//! Keccak-256 (Keccak's padding, not SHA-3's) over Keccak-f[1600], with a second, redundant-base
//! implementation of the permutation whose lanes are big integers in base 13 or 9, so that
//! every bitwise step is an integer addition or multiplication.
use vstd::prelude::*;

pub mod constants;
pub mod permutation;
pub mod sponge;
pub mod hasher;
pub mod codec;
pub mod arith;

verus! {

} // verus!
