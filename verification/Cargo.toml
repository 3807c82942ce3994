[package]
name = "c2pa-http"
version = "0.1.0"
edition = "2021"
publish = false

[dependencies]
http = "1"
tower-layer = "0.3"
tower-service = "0.3"
pin-project-lite = "0.2"
wasm-bindgen = "0.2"
js-sys = "0.3"
pyo3 = "*"

[dev-dependencies]
