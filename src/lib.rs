//! Random-access lookups of fixed-width little-endian records stored in a flat
//! file, with the block-alignment rules of direct I/O, a completion-ring
//! request tracker and a latency collector.
//!
//! The library decides and computes; the caller performs the reads.

pub mod codec;
pub mod layout;
pub mod store;
pub mod ring;
pub mod latency;
