[package]
name = "json_array_search"
version = "0.1.0"
edition = "2021"
publish = false

[dependencies]
rustc-hash = "2"

[dev-dependencies]
bitpacking = { version = "0.9", default-features = false, features = ["bitpacker4x"] }
serde_json = "1"
