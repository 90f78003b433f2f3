[package]
name = "coral-driver"
version = "0.1.0"
edition = "2021"
publish = false

[dependencies]
serde = { version = "1", features = ["derive"] }
serde_json = "1"
rustix = { version = "*", features = ["mm", "fs"] }
