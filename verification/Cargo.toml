[package]
name = "layered"
version = "0.1.0"
edition = "2021"
publish = false

[dependencies]
miette = "*"
rocksdb = { version = "*", default-features = false }
