[package]
name = "network_sim"
version = "0.1.0"
edition = "2021"
publish = false

[dependencies]
petgraph = "0.6"
rand = "0.8"
rustc-hash = "2"
serde = { version = "1", features = ["derive"] }
serde_yaml = "0.9"
twox-hash = { version = "2", default-features = false, features = ["std", "xxhash64"] }
