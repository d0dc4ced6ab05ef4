[package]
name = "lsm_engine"
version = "0.1.0"
edition = "2021"
publish = false

[dependencies]
bytes = "*"
crc = "*"
crossbeam-skiplist = "*"
thiserror = "*"
clap = { version = "*", features = ["derive"] }
leveldb = "*"
