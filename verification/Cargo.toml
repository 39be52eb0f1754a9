[package]
name = "dhcp_core"
version = "0.1.0"
edition = "2021"
publish = false

[dependencies]
anyhow = "*"
env_logger = "*"
ipnetwork = "*"
log = "*"
pnet = "*"
rusqlite = { version = "*", features = ["bundled"] }
