[package]
name = "synapse_core"
version = "0.1.0"
edition = "2021"
publish = false

[dependencies]
smallvec = "1"
parking_lot = "0.12"
serde = { version = "1", features = ["derive"] }
thiserror = "1"
wasm-bindgen = "0.2"
js-sys = "0.3"
console_error_panic_hook = "0.1"
