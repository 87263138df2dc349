//! Sizes of the parts of a record, and the places of the metadata words.
use vstd::prelude::*;

verus! {

/// Words in the metadata block.
pub const META_WORDS: usize = 32;

/// Words in the fingerprint block.
pub const FINGERPRINT_WORDS: usize = 32;

/// Words in the header: metadata and fingerprint.
pub const HEADER_WORDS: usize = META_WORDS + FINGERPRINT_WORDS;

/// Bytes in the header.
pub const HEADER_BYTES: usize = HEADER_WORDS * 8;

/// Bits in the fingerprint.
pub const FINGERPRINT_BITS: usize = FINGERPRINT_WORDS * 64;

/// Words in one quantum of content.
pub const QUANTUM_WORDS: usize = 128;

/// Bits in one quantum.
pub const QUANTUM_BITS: usize = QUANTUM_WORDS * 64;

/// Bytes in one quantum.
pub const QUANTUM_BYTES: usize = QUANTUM_WORDS * 8;

/// Words of a MONO record: the header and one quantum.
pub const MONO_WORDS: usize = HEADER_WORDS + QUANTUM_WORDS;

/// Words of a DENSE record: the header and two quanta.
pub const DENSE_WORDS: usize = HEADER_WORDS + 2 * QUANTUM_WORDS;

/// Words of a HOLO record: the header and three quanta.
pub const HOLO_WORDS: usize = HEADER_WORDS + 3 * QUANTUM_WORDS;

/// Bytes of a MONO record.
pub const MONO_BYTES: usize = MONO_WORDS * 8;

/// Bytes of a DENSE record.
pub const DENSE_BYTES: usize = DENSE_WORDS * 8;

/// Bytes of a HOLO record.
pub const HOLO_BYTES: usize = HOLO_WORDS * 8;

/// Standard deviation of the distance between two random fingerprints,
/// rounded to an integer.
pub const FP_SIGMA_APPROX: u32 = 23;

/// Word 0: container kind (bits 0-3), width variant (bits 4-7), version
/// (bits 8-15), flags (bits 16-31), reserved (bits 32-63).
pub const M_DISCRIMINANT: usize = 0;

/// Word 1: DN tree node type (bits 0-7), rung (bits 8-15), depth
/// (bits 16-23), sigma (bits 24-31), reserved (bits 32-63).
pub const M_DN_TYPE: usize = 1;

/// Word 2: DN parent address (bits 0-31), label hash (bits 32-63).
pub const M_DN_ADDR: usize = 2;

/// Word 3: created epoch (bits 0-31), last access delta (bits 32-47),
/// access count (bits 48-63).
pub const M_TIMESTAMPS: usize = 3;

/// Word 4: TTL (bits 0-15), priority (bits 16-31), reserved (bits 32-63).
pub const M_LIFECYCLE: usize = 4;

/// Words 5-6: ANI consciousness level, layer mask, activation, L1-L7.
pub const M_ANI_BASE: usize = 5;

/// Words 7-8: NARS truth (frequency, confidence, positive and negative
/// evidence, horizon, expectation).
pub const M_NARS_BASE: usize = 7;

/// Words 9-12: qualia (the top 8 channels at 16 bits each, then 2 words more).
pub const M_QUALIA_BASE: usize = 9;

/// Words 13-20: inline edge slots, 4 packed into each word.
pub const M_EDGE_BASE: usize = 13;

/// Words that hold inline edges.
pub const M_EDGE_WORDS: usize = 8;

/// Inline edges that a header can hold.
pub const M_MAX_INLINE_EDGES: usize = M_EDGE_WORDS * 4;

/// Words 21-24: graph metrics (pagerank, degree, clustering, betweenness).
pub const M_GRAPH_BASE: usize = 21;

/// Words 25-28: RL state (Q-values, rewards, TD error).
pub const M_RL_BASE: usize = 25;

/// Words 29-30: a 128-bit Bloom filter of the neighbours.
pub const M_BLOOM_BASE: usize = 29;

/// Word 31: checksum (bits 0-31), schema version (bits 32-39), reserved
/// (bits 40-63).
pub const M_CHECKSUM: usize = 31;

} // verus!
