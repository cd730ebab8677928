//! A small feedforward neural-network engine: dense row-major matrices, a
//! sigmoid-family activation descriptor, forward inference, backpropagation,
//! and a self-describing binary save/load format.
//!
//! Scalars are opaque 64-bit words. The engine never computes on a word
//! itself: every scalar operation (addition, multiplication, the activation
//! function and its derivative) is supplied by the caller as a closure, and
//! every contract states the result in terms of those closures' own
//! contracts. The driver around the library interprets a word as the bit
//! pattern of a double-precision number and supplies the matching arithmetic;
//! the verified layer owns everything else: shapes, row-major layout, the
//! order of the forward and backward passes, and the byte format.

use vstd::prelude::*;

pub mod activations;
pub mod codec;
pub mod laws;
pub mod matrix;
pub mod network;

verus! {

/// The word every accumulation starts from: the caller's scalar
/// interpretation must read it as zero (the all-zero bit pattern does, for
/// the usual interpretations).
pub const ZERO_WORD: u64 = 0;

} // verus!
