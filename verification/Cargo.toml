[package]
name = "rtsched"
version = "0.1.0"
edition = "2021"
publish = false

[dependencies]
dashu = "*"
num-order = "*"
clap = { version = "*", features = ["derive"] }
rand = "*"
itertools = "*"
