//! Private record certification: the database, the MPC layers that evaluate AND gates,
//! boolean-to-arithmetic conversion, commitments and the client's queries.
pub mod util;
pub mod config;


pub mod db;
pub use db::PRCDatabase;
pub mod layer;
pub mod mpc;
pub mod b2a_conv;
pub mod commitment;
pub mod connection;
pub mod client;
pub mod server;
