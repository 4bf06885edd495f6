[package]
name = "rscask"
version = "0.1.0"
edition = "2021"
publish = false

[dependencies]
crc32fast = "1"
thiserror = "2"
serde = { version = "1", features = ["derive"] }
bincode = { version = "2", features = ["serde"] }
clap = { version = "4", features = ["derive"] }
