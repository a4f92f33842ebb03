[package]
name = "mzio"
version = "0.1.0"
edition = "2021"
publish = false

[dependencies]
anyhow = "1"
fallible-iterator = "0.3"
