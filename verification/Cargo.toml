[package]
name = "romv"
version = "0.1.0"
edition = "2021"
publish = false

[dependencies]
kakasi = "*"
anyhow = "*"
clap = { version = "*", features = ["derive"] }
colored = "*"
