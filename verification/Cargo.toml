[package]
name = "aeon_bdt"
version = "0.1.0"
edition = "2021"
publish = false

[dependencies]
biodivine-lib-param-bn = "0.6"
biodivine-lib-bdd = "=0.6.3"
json = "=0.12.4"
regex = "1"
instant = "=0.1.13"
serde = { version = "1", features = ["derive"] }
serde-wasm-bindgen = "=0.6.5"
wasm-bindgen = "0.2"
js-sys = "0.3"
