[package]
name = "steamnvke"
version = "0.1.0"
edition = "2021"
publish = false

[dependencies]
aes = "=0.8.4"
cbc = "=0.1.2"
dataview = "=1.1.0"
pelite = "=0.10.0"

[dev-dependencies]
hex = "=0.4.3"
