[package]
name = "nicop"
version = "0.1.0"
edition = "2021"
publish = false

[dependencies]
chrono = "0.4"
rand = "0.8"
unicode-normalization = "0.1"
