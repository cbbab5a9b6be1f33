[package]
name = "crypto_ticker"
version = "0.1.0"
edition = "2021"
publish = false

[dependencies]
gloo-net = "0.6"
log = "0.4"
serde = { version = "1", features = ["derive"] }
wasm-bindgen-futures = "0.4"
web-sys = { version = "0.3", features = ["InputEvent"] }
yew = { version = "0.21", features = ["csr"] }
yew-router = "0.18"
