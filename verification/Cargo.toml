[package]
name = "quickwit"
version = "0.1.0"
edition = "2021"
publish = false

[dependencies]
anyhow = "=1.0.104"
async-trait = "=0.1.92"
bytes = "=1.12.1"
bytesize = "1"
clap = { version = "=4.6.7", features = ["derive"] }
crc32fast = "=1.5.4"
futures = "=0.3.34"
rand = "=0.8.8"
rayon = "=1.12.0"
reqwest = { version = "=0.12.28", default-features = false }
tokio = { version = "=1.54.1", features = ["full"] }
zstd = "=0.13.4"
