[package]
name = "ember"
version = "0.1.0"
edition = "2021"
publish = false

[dependencies]
anyhow = "1"
bytes = "1"
dashmap = "6"
env_logger = "0.11"
itoa = "1"
log = "0.4"
num_cpus = "1"
rand = "0.9"
socket2 = { version = "0.5", features = ["all"] }
tokio = { version = "1", features = ["full"] }
