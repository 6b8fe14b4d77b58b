[package]
name = "keygen"
version = "0.1.0"
edition = "2021"
publish = false

[dependencies]
rand = "0.8"
blake3 = { version = "1", features = ["pure"] }
getopts = "0.2"
num_cpus = "1"
flume = "0.11"
serde = { version = "1", features = ["derive"] }
serde_json = "1"
