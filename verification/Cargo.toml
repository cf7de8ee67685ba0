[package]
name = "rust_lio"
version = "0.1.0"
edition = "2021"
publish = false

[dependencies]
byteorder = "1"
anyhow = "1"
async-trait = "0.1"
flume = "*"
nalgebra = "*"
prost = "*"
rosbag = "*"
serde = { version = "1", features = ["derive"] }
serde_json = "1"
tokio = { version = "1", features = ["full"] }
toml = "*"
tracing = "0.1"
