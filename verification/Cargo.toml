[package]
name = "sarmq"
version = "0.1.0"
edition = "2021"
publish = false

[dependencies]
num = "*"
unzip3 = "*"

[dev-dependencies]
rand = "*"
