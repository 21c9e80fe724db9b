[package]
name = "ml_kem_rs"
version = "0.1.0"
edition = "2021"
publish = false

[dependencies]
getrandom = "0.3"
num-traits = "0.2"
sha3 = "0.10"
