[package]
name = "r_wisckey"
version = "0.1.0"
edition = "2021"
publish = false

[dependencies]
crc32fast = "1"
crossbeam-skiplist = "0.1"
chrono = "0.4"
bincode = "1"
serde = "1"
serde_derive = "1"
