[package]
name = "r2"
version = "0.1.0"
edition = "2021"
publish = false

[dependencies]
rand = "0.4"
sha2 = "0.8"
hex = "0.4"
