[package]
name = "text_normalizer"
version = "0.1.0"
edition = "2021"
publish = false

[dependencies]
regex = "1"
