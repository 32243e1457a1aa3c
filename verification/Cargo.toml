[package]
name = "small_ord_set"
version = "0.1.0"
edition = "2021"
publish = false

[dependencies]
smallvec = "1"
