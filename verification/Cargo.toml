[package]
name = "topography_engine"
version = "0.1.0"
edition = "2021"
publish = false

[dependencies]
rand = "0.8"
minifb = "0.27"
wasm-bindgen = "0.2"
js-sys = "0.3"
