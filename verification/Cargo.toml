[package]
name = "hybrid_session"
version = "0.1.0"
edition = "2021"
publish = false

[dependencies]
aes = "0.6"
num = "0.3"
num-bigint = { version = "0.3", features = ["rand"] }
num-integer = "0.1"
num-iter = "0.1"
num-traits = "0.2"
rand = "0.7"
