[package]
name = "dexopt_analyzer"
version = "0.1.0"
edition = "2021"
publish = false

[dependencies]
anyhow = "1"
apk-info = "*"
clap = { version = "4", features = ["derive"] }
colored = "2"
once_cell = "1"
rayon = "1"
regex = "1"
