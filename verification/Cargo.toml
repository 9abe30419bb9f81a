[package]
name = "trx_engine"
version = "0.1.0"
edition = "2021"
publish = false

[dependencies]
serde = { version = "1", features = ["derive"] }
serde_json = "1"
kurbo = "*"
libm = "0.2"
petgraph = "*"
thiserror = "*"
wasm-bindgen = "0.2"
console_error_panic_hook = "0.1"
