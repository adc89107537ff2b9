[package]
name = "grafeo"
version = "0.1.0"
edition = "2021"
publish = false

[dependencies]
anyhow = "1"
arcstr = "1"
bytes = "1"
crc32fast = "1"
hashbrown = "*"
hmac = "*"
parking_lot = "0.12"
serde_json = "1"
sha2 = "*"
thiserror = "*"
tokio = { version = "1", features = ["sync", "rt"] }
