[package]
name = "base_any"
version = "0.1.0"
edition = "2021"
publish = false

[dev-dependencies]
unicode-ident = "*"
