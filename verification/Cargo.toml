[package]
name = "geometry-kernel"
version = "1.0.0"
edition = "2021"
publish = false

[dependencies]
console_error_panic_hook = "0.1"
geos = "*"
robust = "1"
serde = { version = "1", features = ["derive"] }
serde_json = "1"
thiserror = "*"
wasm-bindgen = "0.2"
