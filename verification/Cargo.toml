[package]
name = "bokai"
version = "0.1.0"
edition = "2021"
publish = false

[dependencies]
zip = { version = "2", default-features = false, features = ["deflate"] }
regex = "1"
encoding_rs = "0.8"
