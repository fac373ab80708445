[package]
name = "luna"
version = "0.1.0"
edition = "2021"
publish = false

[dependencies]
blake3 = "1"
zstd = "0.13"
tar = "0.4"
toml = "0.8"
serde = { version = "1", features = ["derive"] }
libc = "0.2"
