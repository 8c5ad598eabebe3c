[package]
name = "fountain_engine"
version = "2.0.1"
edition = "2021"
publish = false

[dependencies]
smallvec = "1"
