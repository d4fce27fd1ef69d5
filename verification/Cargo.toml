[package]
name = "uniprog"
version = "0.1.0"
edition = "2021"
publish = false

[dependencies]
semver = "1"
toml = "0.8"
serde_json = "1"
base64 = "0.22"
zip = { version = "2", default-features = false, features = ["deflate"] }
serialport = { version = "4", default-features = false }
rusb = "0.9"
chrono = { version = "0.4", default-features = false, features = ["clock"] }
