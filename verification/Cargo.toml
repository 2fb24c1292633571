[package]
name = "weetbeats"
version = "0.1.0"
edition = "2021"

[dependencies]
rtrb = "0.3"
serde = { version = "1", features = ["derive"] }
serde_json = "1"
symphonia = { version = "0.6", features = ["all"] }
cpal = "0.18"
