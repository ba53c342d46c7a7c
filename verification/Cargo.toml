[package]
name = "klo"
version = "0.1.0"
edition = "2021"
publish = false

[dependencies]
rand = "*"
serde_json = "*"
clap = { version = "*", features = ["derive"] }
log = "*"
simple_logger = "*"
rayon = "*"
