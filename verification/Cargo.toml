[package]
name = "quadrata"
version = "0.1.0"
edition = "2021"
publish = false

[dependencies]
dlx-rs = "*"
wasm-bindgen = "*"
console_error_panic_hook = "*"
