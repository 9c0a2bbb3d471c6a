[package]
name = "obmerge"
version = "0.1.0"
edition = "2021"
publish = false

[dependencies]
url = "2"
serde = { version = "1", features = ["derive"] }
serde_json = "1"
tokio = { version = "1", features = ["full"] }
tokio-stream = "0.1"
tonic = "0.9"
prost = "0.11"
futures = "0.3"
triple_buffer = "6"
tungstenite = "0.20"
