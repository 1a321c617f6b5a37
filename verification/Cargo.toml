[package]
name = "dejadupe"
version = "0.1.0"
edition = "2021"
publish = false

[dependencies]
anyhow = "1"
blake3 = { version = "1", features = ["pure"] }
clap = { version = "4", features = ["derive"] }
indicatif = "0.17"
rayon = "1"
walkdir = "2"
