//! Bit arrays stored in whole 32-byte chunks, tuned for the bitwise operations of MPC protocols.
pub mod bit_spec;
pub mod aligned_array;

pub use aligned_array::AU8Array;
pub mod bit_array;
pub use bit_array::BitArray;
pub mod d2_bit_array;
pub use d2_bit_array::D2BitArray;
