//! Bit-packed vectors of about ten thousand bits.
use vstd::prelude::*;

verus! {

/// Words in a vector.
pub const VECTOR_WORDS: usize = 157;

/// A vector packed into words, 64 bits to each.
pub struct BitpackedVector {
    pub words: [u64; VECTOR_WORDS],
}

/// A vector stands for the sequence of its words.
impl View for BitpackedVector {
    type V = Seq<u64>;

    open spec fn view(&self) -> Seq<u64> {
        self.words@
    }
}

impl BitpackedVector {
    /// The vector with these words.
    pub fn from_words(words: [u64; VECTOR_WORDS]) -> (v: Self)
        ensures
            v@ == words@,
            v.words@ == words@,
    {
        BitpackedVector { words }
    }

    /// The words of the vector.
    pub fn words(&self) -> (r: &[u64])
        ensures
            r@ == self@,
            r@ == self.words@,
            r@.len() == VECTOR_WORDS,
    {
        self.words.as_slice()
    }
}

/// A vector stands for its words, each in its place.
pub proof fn law_vector_words(v: BitpackedVector, i: int)
    requires
        0 <= i < 157,
    ensures
        v@.len() == 157,
        v@[i] == v.words@[i],
{
}

} // verus!
