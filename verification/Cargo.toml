[package]
name = "mini_obs"
version = "0.1.0"
edition = "2021"
publish = false

[dependencies]
bincode = "1.3"
memmap2 = "0.9"
serde = { version = "1", features = ["derive"] }
serde_json = "1"
zstd = "0.13"
