//! Bit storage: the bit vector, its builder, and the arithmetic both rest on.

pub mod bit_vector;
pub mod packed_records;
pub mod sort_bench;
pub mod util;
