[package]
name = "uniplate"
version = "0.1.0"
edition = "2021"
publish = false

[dependencies]
im = "15"

[dev-dependencies]
proptest = "1"
