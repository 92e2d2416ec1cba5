[package]
name = "rope_benches"
version = "0.1.0"
edition = "2021"
publish = false

[dependencies]
crop = "0.4"
jumprope = "1.1"
ropey = "1.6"
text-buffer = "0.1"
regex = "1"
regex-cursor = "0.1"
rand = { version = "0.8", features = ["small_rng"] }
get-size = "0.1"
flate2 = "1"
serde = { version = "1", features = ["derive"] }
serde_json = "1"
criterion = { version = "0.5", default-features = false }
