[package]
name = "hunt"
version = "0.1.0"
edition = "2021"
publish = false

[dependencies]
memchr = "*"
clap = { version = "*", features = ["derive"] }
colored = "*"
crossbeam-channel = "*"
inquire = "*"
rayon = "*"
mimalloc = "*"
