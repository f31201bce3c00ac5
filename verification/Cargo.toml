[package]
name = "blockchain"
version = "0.1.0"
edition = "2021"
publish = false

[dependencies]
sled = "*"
rust-crypto = "*"
clap = "*"
