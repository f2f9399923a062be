[package]
name = "rookiedb"
version = "0.1.0"
edition = "2021"
publish = false

[dependencies]
anyhow = "*"
async-fs = "*"
bytes = "*"
crc32fast = "*"
futures-lite = "*"
parking_lot = "*"
snap = "*"
sqlparser = "*"
thiserror = "*"
zstd = "*"
