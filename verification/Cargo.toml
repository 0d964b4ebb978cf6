[package]
name = "carnot_engine"
version = "0.1.0"
edition = "2021"
publish = false

[dependencies]
rand = "0.8"
crc32fast = "1"
serde = { version = "1", features = ["derive"] }
serde_json = "1"
anyhow = "1"
thiserror = "1"
async-trait = "0.1"
futures = "0.3"
bytes = "1"
crossbeam = "0.8"
scopeguard = "1"
fixed-slice-deque = "0.1.0-beta5"
