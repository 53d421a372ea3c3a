[package]
name = "rcli"
version = "0.1.0"
edition = "2021"
publish = false

[dependencies]
anyhow = "*"
clap = "*"

[dev-dependencies]
serde_json = "*"
csv = "*"
