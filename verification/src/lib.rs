//! Content-addressable memory (CAM) records.
//!
//! A record is a fixed header of 64 words followed by a whole number of
//! 128-word content quanta:
//!
//! ```text
//!  | 32 words meta | 32 words fingerprint | N x 128 words content |
//!  | byte 0        | byte 256             | byte 512              |
//! ```
//!
//! The fingerprint is the content folded onto 32 words by exclusive or. It
//! serves as a key for deduplication ([`index`]) and as a sketch by which
//! candidates for a similarity search are chosen ([`prefilter`]).
pub mod bitpack;
pub mod bits;
pub mod fingerprint;
pub mod header;
pub mod index;
pub mod kind;
pub mod layout;
pub mod prefilter;
pub mod record;
pub mod width_16k;
