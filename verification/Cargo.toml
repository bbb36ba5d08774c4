[package]
name = "engine_io"
version = "0.1.0"
edition = "2021"
publish = false

[dependencies]
url = "2"
rust-crypto = "*"
rand = "*"

[dev-dependencies]
rustc-serialize = "*"
