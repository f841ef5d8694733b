[package]
name = "robbot"
version = "0.1.0"
edition = "2021"
publish = false

[dependencies]
rand = "0.4"
glob = "*"
chrono = "*"
rustc-serialize = "*"
