[package]
name = "dao_drop"
version = "0.1.0"
edition = "2021"
publish = false

[dependencies]
serde_json = "*"
csv = "*"
clap = { version = "*", features = ["derive"] }
