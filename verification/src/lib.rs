//! Shannon-entropy groundwork for byte streams, computed in bounded memory.
//!
//! The crate has two halves: a chunked byte source ([`reader::ChunkReader`])
//! that presents an arbitrarily large stream as a sequence of bytes through a
//! fixed-capacity buffer, and a frequency engine ([`freq::ByteFreq`]) that
//! accumulates an occurrence count per byte value together with a running
//! total. Per-byte statistics come out as exact rationals (count over total);
//! turning those into floating-point probabilities and the entropy figure in
//! bits per byte is left to the caller, since floating point stays outside
//! the verified core.

pub mod freq;
pub mod reader;
