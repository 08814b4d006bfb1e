[package]
name = "papr"
version = "0.1.0"
edition = "2021"
publish = false

[dependencies]
chrono = "*"
clap = { version = "*", features = ["derive"] }
color-eyre = "*"
dirs = "*"
rayon = "*"
serde = { version = "*", features = ["derive"] }
toml = "*"
