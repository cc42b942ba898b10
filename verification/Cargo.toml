[package]
name = "string_art"
version = "0.1.0"
edition = "2021"
publish = false

[dependencies]
png = "*"
