[package]
name = "walstore"
version = "0.1.0"
edition = "2021"
publish = false

[dependencies]
crc32fast = "1"
dashmap = "*"
memmap = "0.7"

[dev-dependencies]
bincode = "1"
