//! Arithmetic core for a circle-group FRI low-degree test: the Mersenne31
//! base field and its cubic extension, circle-domain points and twiddles,
//! the circle bit-reversal permutation, the folding rounds, and a packed
//! value abstraction for width-generic batching.

pub mod bitrev;
pub mod domain;
pub mod ext;
pub mod fold;
pub mod m31;
pub mod packed;
pub mod point;
pub mod poseidon2;
