[package]
name = "chunkdiff"
version = "0.1.0"
edition = "2021"
publish = false

[dependencies]
adler32 = "*"
sha3 = "*"
multimap = "*"
bincode = "1"
serde = { version = "1", features = ["derive"] }
clap = { version = "4", features = ["derive"] }
