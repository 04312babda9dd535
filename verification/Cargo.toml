[package]
name = "chooser"
version = "0.1.0"
edition = "2021"
publish = false

[dependencies]
rff = "=0.3.0"
clap = "=2.34.0"
libc = "=0.2.191"
