//! Bit-level integer compression: a word-backed bit vector with its builder,
//! a buffered cursor for sequential decoding, and a family of variable-length
//! integer codes.

pub mod bits;
pub mod introduction;
pub mod integer_codes;
