[package]
name = "reference_table"
version = "0.1.0"
edition = "2021"
publish = false

[dependencies]
serde_yaml = "=0.9.34"
mdbook = { version = "=0.4.52", default-features = false }
clap = "=4.6.7"
serde_json = "=1.0.151"
env_logger = "=0.11.11"
log = "=0.4.34"
