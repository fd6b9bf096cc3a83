[package]
name = "algorithms"
version = "0.1.0"
edition = "2021"
publish = false

[dependencies]
num-bigint = "0.4"
num-integer = "0.1"
num-traits = "0.2"

[dev-dependencies]
base64 = "0.13"
quickcheck = "1"
rand = "0.8"
rust-base58 = "*"
