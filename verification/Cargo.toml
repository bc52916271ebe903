[package]
name = "priv_rec_cert"
version = "0.1.0"
edition = "2021"
publish = false

[dependencies]
rand = "0.8"
rand_chacha = "0.3"
rand_core = { version = "0.6", features = ["getrandom"] }
curve25519-dalek = { version = "4", features = ["rand_core", "digest"] }
sha2 = "0.10"
ed25519-dalek = { version = "2", features = ["rand_core"] }
log = "0.4"
env_logger = "0.11"
tokio = { version = "1", features = ["full"] }
futures = "0.3"
async-trait = "0.1"
clap = { version = "4", features = ["derive"] }
libc = "0.2"
once_cell = "1"
