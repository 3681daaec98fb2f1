[package]
name = "hashing"
version = "0.1.0"
edition = "2021"

[dependencies]
log = "0.4"

[dev-dependencies]
rand = "0.7"
