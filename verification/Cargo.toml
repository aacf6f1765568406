[package]
name = "reversi"
version = "0.1.0"
edition = "2021"
publish = false

[dependencies]
crc32fast = "1"
once_cell = "1"
serde = { version = "1", features = ["derive"] }
serde-wasm-bindgen = "*"
wasm-bindgen = "0.2"
