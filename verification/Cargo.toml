[package]
name = "ditiear"
version = "0.1.0"
edition = "2021"
publish = false

[dependencies]
twox-hash = { version = "1.6", default-features = false }
similar = "2"
bytes = "1"
serde = { version = "1", features = ["derive"] }
serde_bytes = "0.11"
bincode = "1"
thiserror = "1"
zip = { version = "0.6", default-features = false, features = ["deflate"] }
