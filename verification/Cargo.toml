[package]
name = "sbd_gen"
version = "0.1.0"
edition = "2021"
publish = false

[dependencies]
anyhow = "1"
argh = "0.1"
camino = "1"
serde = { version = "1", features = ["derive"] }
serde_with = "3"
serde_yaml = "0.9"
walkdir = "2"
yaml-hash = "*"
