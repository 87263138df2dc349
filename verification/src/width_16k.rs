//! Vectors of 16,384 bits.
use vstd::prelude::*;

verus! {

/// Words in a vector: two quanta.
pub const VECTOR_WORDS: usize = 256;

} // verus!
