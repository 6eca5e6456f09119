[package]
name = "bigcalc"
version = "0.1.0"
edition = "2021"
publish = false

[dependencies]
num-bigint = "*"
num-integer = "*"
num-traits = "*"
wasm-bindgen = "*"
