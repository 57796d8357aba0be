[package]
name = "tinykeeper"
version = "0.1.0"
edition = "2021"
publish = false

[dependencies]
base64 = "0.22"
bytes = "1"
cityhash-rs = "*"
postcard = { version = "1", features = ["alloc"] }
serde = { version = "1", features = ["derive"] }
sha1 = "0.10"
tokio = { version = "1", features = ["full"] }
toml = "*"
uuid = { version = "1", features = ["v4"] }
