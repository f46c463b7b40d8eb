[package]
name = "c2pa-structured-text"
version = "0.1.1"
edition = "2021"
publish = false

[dependencies]
sha2 = "=0.10.9"
ureq = "=2.12.1"
wasm-bindgen = "=0.2.130"
c2pa = { version = "=0.89.3", default-features = false, features = ["rust_native_crypto"] }
pyo3 = "=0.30.1"
