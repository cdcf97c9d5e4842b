[package]
name = "cowdb"
version = "0.1.0"
edition = "2021"
publish = false

[dependencies]
sha3 = "0.10"
page_size = "0.6"
fs2 = "0.4"
memmap2 = "*"
libc = "0.2"
