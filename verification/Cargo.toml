[package]
name = "uring_read"
version = "0.1.0"
edition = "2021"
publish = false

[dependencies]
io-uring = "0.7"
parking_lot = "0.12"
