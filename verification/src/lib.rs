//! A bit-field codec: extracts and inserts named sub-fields of fixed-width
//! unsigned integer words, driven by declarative layout descriptions.
//!
//! Bit positions are 1-indexed and inclusive on both ends, counted from the
//! least-significant bit (bit 1 has value 1). A most-significant-bit-first
//! view of the same word is provided as a pure coordinate reflection over
//! the least-significant-bit-first primitives.

pub mod bits;
pub mod codec;
pub mod range;
pub mod walker;
pub mod wide;

pub use codec::Pack;
pub use codec::Unpack;
pub use range::BitRange;
