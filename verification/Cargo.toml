[package]
name = "gmod-gabp"
version = "0.1.0"
edition = "2021"
publish = false

[dependencies]
serde = { version = "=1.0.229", features = ["derive"] }
serde_json = "=1.0.154"
crossbeam-channel = "=0.5.17"
once_cell = "=1.21.4"
uuid = { version = "=1.29.0", features = ["v4"] }
gmod = { version = "=16.0.2", default-features = false }
