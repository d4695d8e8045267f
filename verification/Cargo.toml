[package]
name = "json2model"
version = "0.1.0"
edition = "2021"
publish = false

[dependencies]
cnfgen = "*"
env_logger = "*"
log = "*"
regex = "*"
rustlogic = "*"
serde = { version = "1", features = ["derive"] }
serde_json = "1"
