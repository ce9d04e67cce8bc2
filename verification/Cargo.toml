[package]
name = "typmark"
version = "0.1.0"
edition = "2021"
publish = false

[dependencies]
ammonia = "*"
syntect = "*"
typst = "*"
typst-svg = "*"
typst-assets = { version = "*", features = ["fonts"] }
lru = "*"
once_cell = "*"
serde = { version = "*", features = ["derive"] }
serde-wasm-bindgen = "*"
wasm-bindgen = "*"
