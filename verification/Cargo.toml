[package]
name = "colors"
version = "0.1.0"
edition = "2021"
publish = false

[dependencies]
rand = "0.8"
image = "*"
indicatif = "*"
chrono = "*"
structopt = "*"
