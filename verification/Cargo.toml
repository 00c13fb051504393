[package]
name = "yamldiff"
version = "0.1.0"
edition = "2021"
publish = false

[dependencies]
regex = "1"
clap = { version = "3", features = ["derive"] }
serde = { version = "1", features = ["derive"] }
serde_yaml = "0.8"
yaml-rust = "0.4"
diffy = "0.3"
ansi-colors = "*"
