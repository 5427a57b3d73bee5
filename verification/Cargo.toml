[package]
name = "migjorn"
version = "0.1.0"
edition = "2021"
publish = false

[dependencies]
memchr = "=2.8.3"
rustc-hash = "2"
