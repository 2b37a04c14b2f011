[package]
name = "time_varying_graph"
version = "0.1.0"
edition = "2021"
publish = false

[dependencies]
crossbeam-channel = "*"
serde = { version = "*", features = ["derive"] }
serde_json = "*"
