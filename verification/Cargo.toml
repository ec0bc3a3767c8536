[package]
name = "wasm_shim"
version = "0.1.0"
edition = "2021"
publish = false

[dependencies]
image = { version = "0.25", default-features = false, features = ["png", "jpeg", "gif", "bmp", "webp"] }
webp = { version = "0.3", default-features = false }
wasm-bindgen = "0.2"
