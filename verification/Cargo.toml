[package]
name = "include-cargo-toml2"
version = "0.3.1"
edition = "2021"
publish = false

[dependencies]
proc-macro2 = "1"
quote = "1"
syn = "2"
toml = "0.8"
