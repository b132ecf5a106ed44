[package]
name = "argon2_rs"
version = "0.1.0"
edition = "2021"
publish = false

[dependencies]
argon2-sys = "*"
zeroize = "1"

[dev-dependencies]
argon2 = "0.5"
