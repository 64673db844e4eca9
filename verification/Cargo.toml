[package]
name = "snowball"
version = "0.1.0"
edition = "2021"
publish = false

[dependencies]
sha3 = "0.10"
rand = "0.8"
futures = "0.1"
tokio-timer = "0.2"
log = "0.4"
