[package]
name = "squashfs"
version = "0.1.0"
edition = "2021"
publish = false

[dependencies]
bincode = "=1.3.3"
flate2 = "=1.1.10"
rust-lzma = "*"
minilzo-rs = "=0.6.1"
lz4 = "=1.28.1"
zstd = "=0.14.3"
