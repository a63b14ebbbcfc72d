[package]
name = "tinycdb"
version = "0.1.0"
edition = "2021"
publish = false

[dependencies]
libc = "0.2"

[dev-dependencies]
inflate = "0.4"
rustc-serialize = "0.3"
