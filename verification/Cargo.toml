[package]
name = "arandu_semantics"
version = "0.1.0"
edition = "2021"
publish = false

[dependencies]
fxhash = "0.2"
rustc-hash = "2"
strsim = "0.11"
