[package]
name = "decpack"
version = "0.1.0"
edition = "2021"
publish = false

[dependencies]
bitpacking = "*"
rust_decimal = "*"

[dev-dependencies]
rand = "*"
