//! Private record certification: SIMD-friendly bit arrays, correlated randomness for
//! multi-party computation, and the building blocks of the PRC protocol.
pub mod rng;
pub mod simd_array;
pub mod cor_rnd;
pub mod prc;
