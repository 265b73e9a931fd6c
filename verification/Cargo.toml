[package]
name = "rpm"
version = "0.1.0"
edition = "2021"
publish = false

[dependencies]
md-5 = "*"
sha1 = "0.6"
sha2 = "*"
