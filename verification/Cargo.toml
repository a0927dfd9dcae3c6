[package]
name = "ironclad_agent"
version = "0.1.0"
edition = "2021"
publish = false

[dependencies]
hmac = "=0.12.1"
sha2 = "=0.10.9"
hex = "=0.4.3"
regex = "=1.13.1"
unicode-normalization = "=0.1.26"
serde = { version = "=1.0.229", features = ["derive"] }
serde_json = "=1.0.154"
chrono = "0.4"
uuid = { version = "1", features = ["v4"] }
urlencoding = "2"
serde_yaml = "0.9"
toml = "0.8"
sha3 = "0.10"
k256 = { version = "0.13", features = ["ecdsa"] }
rand = "0.8"
tokio = { version = "1", features = ["process", "time", "io-util", "sync", "rt"] }
