[package]
name = "osr_helper"
version = "0.1.0"
edition = "2021"
publish = false

[dependencies]
rand = "=0.8.8"
itertools = "=0.15.0"
clap = { version = "=4.6.7", features = ["derive"] }
ron = "=0.8.1"
anyhow = "=1.0.104"
serde = { version = "=1.0.229", features = ["derive"] }
