//! Integer core of a feedback-delay-network reverberator: prime delay lengths, the orthogonal
//! feedback-mixing matrix, the phase sign table, and the decisions that keep derived state in
//! step with the controls.

pub mod engine;
pub mod matrix;
pub mod params;
pub mod phases;
pub mod primes;

use vstd::prelude::*;

verus! {

/// The number of delay lines in the network.
pub const M: usize = 32;

/// The capacity, in samples, of each delay line.
pub const D: usize = 50000;

} // verus!
