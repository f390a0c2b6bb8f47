[package]
name = "discriminord"
version = "0.1.0"
edition = "2021"
publish = false

[dependencies]
image = "0.23"
structopt = "0.3"
wasm-bindgen = "0.2"
