[package]
name = "nullmark"
version = "1.0.0"
edition = "2021"
publish = false

[dependencies]
base64 = "=0.22.1"
crc32fast = "=1.5.4"
lopdf = { version = "=0.46.0", default-features = false }
quick-xml = "=0.42.0"
serde = { version = "=1.0.229", features = ["derive"] }
sha2 = "=0.10.9"
zip = { version = "=9.2.2", default-features = false, features = ["deflate"] }
