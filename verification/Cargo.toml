[package]
name = "cics-tx"
version = "0.1.0"
edition = "2021"
publish = false

[dependencies]
bincode = "1.3"
crc32fast = "1"
parking_lot = "0.12"
serde = { version = "1", features = ["derive"] }
thiserror = "1"
