[package]
name = "lzss"
version = "0.1.0"
edition = "2021"
publish = false

[dependencies]
bitbit = "*"
slice-deque = "*"
clap = "2"

[dev-dependencies]
rand = "0.8"
