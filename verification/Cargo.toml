[package]
name = "dod_tools"
version = "0.1.0"
edition = "2021"
publish = false

[dependencies]
bitvec = "=1.1.1"
zip = { version = "=2.6.1", default-features = false, features = ["deflate"] }
