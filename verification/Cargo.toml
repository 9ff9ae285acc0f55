[package]
name = "asphyxia"
version = "0.1.0"
edition = "2021"
publish = false

[dependencies]
ipnetwork = "*"
clap = { version = "*", features = ["derive"] }
indicatif = "*"
owo-colors = "*"
rayon = "*"
