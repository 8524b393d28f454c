[package]
name = "iso8583"
version = "0.1.0"
edition = "2021"
publish = false

[dependencies]
des = "*"
generic-array = "0.14"

[dev-dependencies]
hex = "*"
