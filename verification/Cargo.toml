[package]
name = "huniq"
version = "0.1.0"
edition = "2021"
publish = false

[dependencies]
ahash = "*"
anyhow = "*"
clap = { version = "*", features = ["derive"] }
