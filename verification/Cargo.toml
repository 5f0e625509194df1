[package]
name = "serf_rpc"
version = "0.1.0"
edition = "2021"
publish = false

[dependencies]
rmp = "0.8"
rmp-serde = "1"
serde = { version = "1", features = ["derive"] }
futures = "0.3"
