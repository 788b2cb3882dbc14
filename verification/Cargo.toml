[package]
name = "tolk-inspect"
version = "0.1.1"
edition = "2021"
publish = false

[dependencies]
anyhow = "1"
js-sys = "0.3"
serde = { version = "1", features = ["derive"] }
serde-wasm-bindgen = "0.6"
tree-sitter = "0.26"
wasm-bindgen = "0.2"
