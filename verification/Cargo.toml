[package]
name = "pikarust-core"
version = "0.1.0"
edition = "2021"
publish = false

[dependencies]
zstd = "0.13"
