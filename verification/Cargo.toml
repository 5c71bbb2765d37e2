[package]
name = "advent"
version = "0.1.0"
edition = "2021"
publish = false

[dependencies]
clap = { version = "*", features = ["derive"] }
clio = "*"
env_logger = "*"
log = "*"
rayon = "*"
