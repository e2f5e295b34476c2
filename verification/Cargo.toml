[package]
name = "gamba"
version = "0.1.0"
edition = "2021"
publish = false

[dependencies]
anyhow = "1"
chrono = "0.4"
clap = { version = "4", features = ["derive"] }
env_logger = "0.11"
itertools = "0.14"
log = "0.4"
noodles = { version = "*", features = ["gff", "gtf"] }
