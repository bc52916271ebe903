//! Correlated randomness for MPC: Beaver triplets and daBits, over boolean and arithmetic
//! secret sharing.
pub mod scalar;


pub use scalar::ModScalar;

pub mod sharing;
pub use sharing::{join_boolean, ArithValue, ArithValueT, BooleanValue};
pub mod beaver;
pub use beaver::BeaverProvider;
pub mod dabit;
pub use dabit::{DaBit, DaBitProvider};
