[package]
name = "rustdb"
version = "0.1.0"
edition = "2021"
publish = false

[dependencies]
bytemuck = "1"
regex = "=1.13.1"
serde_json = { version = "=1.0.154", features = ["float_roundtrip"] }

[dev-dependencies]
rand = "=0.10.3"
