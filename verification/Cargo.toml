[package]
name = "rust_annie"
version = "0.1.0"
edition = "2021"
publish = false

[dependencies]
bit-vec = "0.6"
rayon = "1"
serde = { version = "1", features = ["derive"] }
bincode = "1"
thiserror = "1"

[dev-dependencies]
half = "2"
