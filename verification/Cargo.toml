[package]
name = "veridict"
version = "0.1.0"
edition = "2021"
publish = false

[dependencies]
clap = { version = "4", features = ["derive"] }
csv = "1"
rand = "*"
serde = { version = "1", features = ["derive"] }
serde_json = "1"
statrs = "*"
thiserror = "*"
