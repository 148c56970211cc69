[package]
name = "dupescan"
version = "0.1.0"
edition = "2021"
publish = false

[dependencies]
clap = { version = "4", features = ["derive"] }
sha256 = { version = "1", default-features = false }
