[package]
name = "joeboids"
version = "0.1.0"
edition = "2021"
publish = false

[dependencies]
clap = { version = "3", features = ["derive"] }
indicatif = "0.17"
png = "0.17"
rand = "0.8"
rayon = "1"
