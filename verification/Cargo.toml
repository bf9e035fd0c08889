[package]
name = "tinylfu_cache"
version = "0.1.0"
edition = "2021"
publish = false

[dependencies]
anyhow = "*"
memmap2 = "*"
murmurhash32 = "*"
rand = "0.8"
xxhash-rust = { version = "0.8", features = ["xxh3"] }
