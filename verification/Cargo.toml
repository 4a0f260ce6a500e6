[package]
name = "sim"
version = "0.1.0"
edition = "2021"
publish = false

[dependencies]
cpu-time = "*"
serde = { version = "*", features = ["derive"] }
serde_json = "*"
clap = { version = "*", features = ["derive"] }
clap_derive = "*"
