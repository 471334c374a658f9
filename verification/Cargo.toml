[package]
name = "xirang"
version = "1.0.0"
edition = "2021"
publish = false

[dependencies]
base64 = "0.22"
chrono = "0.4"
libc = "0.2"
quick-xml = "0.36"
serde_json = "1"
serde_yaml = "0.9"
uuid = { version = "1", features = ["v4"] }
