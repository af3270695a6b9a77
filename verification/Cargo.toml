[package]
name = "mlkit_ink"
version = "0.1.0"
edition = "2021"
publish = false

[dependencies]
anyhow = "1"
clap = { version = "4", features = ["derive", "env"] }
libm = "0.2"
memmap2 = "0.9"
self_cell = "1"
serde = { version = "1", features = ["derive"] }
serde_json = "1"
serde-wasm-bindgen = "0.6"
sha1 = "0.10"
ureq = "*"
wasm-bindgen = "0.2"
zip = "*"
