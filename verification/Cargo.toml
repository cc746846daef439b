[package]
name = "bigqueue"
version = "0.1.0"
edition = "2021"
publish = false

[dependencies]
byteorder = "1"
failure = "0.1"
failure_derive = "0.1"
lru = "0.1"
memmap = "0.7"
