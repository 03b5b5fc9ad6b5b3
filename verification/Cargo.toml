[package]
name = "jade_runtime"
version = "0.1.0"
edition = "2021"
publish = false

[dependencies]
allocator-api2 = "0.2"
serde = { version = "1", features = ["derive"] }
serde_json = "1"
toml = "0.8"
