[package]
name = "keedavault_core"
version = "0.1.0"
edition = "2021"
publish = false

[dependencies]
chrono = "=0.4.45"
uuid = { version = "=1.27.0", features = ["v4"] }
totp-lite = "=2.0.1"
zeroize = "=1.9.1"
keepass = { version = "=0.8.21", features = ["save_kdbx4"] }
serde = { version = "=1.0.229", features = ["derive"] }
serde_json = "=1.0.151"
thiserror = "=1.0.69"
