[package]
name = "ruby"
version = "0.1.0"
edition = "2021"
publish = false

[dependencies]
miracl_core = "*"
num-bigint = { version = "0.4", features = ["rand"] }
num-integer = "0.1"
num-traits = "0.2"
rand = "0.8"
rand_chacha = "0.3"
base64 = "0.13"
fawkes-crypto = "*"
