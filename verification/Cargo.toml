[package]
name = "xbm"
version = "0.1.0"
edition = "2021"
publish = false

[dependencies]
unicode-ident = "1"
image = { version = "0.25", default-features = false }
