[package]
name = "linpow"
version = "0.1.0"
edition = "2021"
publish = false

[dependencies]
libc = "0.2"
core-foundation-sys = "0.8"
