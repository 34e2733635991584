[package]
name = "mvcc"
version = "0.1.0"
edition = "2021"
publish = false

[dependencies]
parking_lot = "0.12"
proc-macro2 = "1"
quote = "1"
syn = "2"
