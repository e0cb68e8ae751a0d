[package]
name = "routinglib"
version = "0.1.0"
edition = "2021"
publish = false

[dependencies]
rustc-hash = "*"
wasm-bindgen = "*"
js-sys = "*"
console_error_panic_hook = "*"
