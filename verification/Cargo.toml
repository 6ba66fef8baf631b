[package]
name = "fluqsr"
version = "0.1.0"
edition = "2021"
publish = false

[dependencies]
sha2 = "0.10"
rcgen = "0.13"
x509-parser = "0.16"
uuid = { version = "1", features = ["v4"] }
blake3 = "1"
serde = { version = "1", features = ["derive"] }
serde_json = "1"
thiserror = "2"
tokio = { version = "1", features = ["full"] }
rustls = { version = "0.23", default-features = false, features = ["ring", "std", "logging", "tls12"] }
tokio-rustls = { version = "0.26", default-features = false, features = ["ring", "logging", "tls12"] }
socket2 = { version = "0.5", features = ["all"] }
mdns-sd = "*"
