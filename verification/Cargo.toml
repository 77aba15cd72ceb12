[package]
name = "precyzja"
version = "0.1.0"
edition = "2021"

[dependencies]
rust_decimal = { version = "*", features = ["maths"] }
log = "*"
env_logger = "*"
