[package]
name = "dhacks"
version = "0.1.0"
edition = "2021"
publish = false

[dependencies]
rand = "*"
clap = "*"

[dev-dependencies]
permutohedron = "*"
