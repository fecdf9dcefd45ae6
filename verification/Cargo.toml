[package]
name = "podium"
version = "0.1.0"
edition = "2021"
publish = false

[dependencies]
tinyrand = "*"
