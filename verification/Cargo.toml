[package]
name = "noumisou"
version = "0.1.0"
edition = "2021"

[dependencies]
clap = { version = "4", features = ["derive"] }
thiserror = "1"
