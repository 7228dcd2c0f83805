[package]
name = "httpcore"
version = "0.1.0"
edition = "2021"
publish = false

[dependencies]
libc = "0.2"
serde = "1"
serde_derive = "1"
toml = "0.8"
