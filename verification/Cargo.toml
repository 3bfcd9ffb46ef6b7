[package]
name = "spyglass"
version = "0.1.0"
edition = "2021"
publish = false

[dependencies]
deunicode = "1"
env_logger = "*"
log = "0.4"
serde = { version = "1", features = ["derive"] }
