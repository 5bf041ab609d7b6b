[package]
name = "tokencount"
version = "0.1.0"
edition = "2021"
publish = false

[dependencies]
base64 = "*"
fancy-regex = "*"
rayon = "*"
serde_json = "*"
unicode-normalization = "*"
