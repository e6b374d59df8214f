[package]
name = "relay"
version = "0.1.0"
edition = "2021"
publish = false

[dependencies]
anyhow = "=1.0.104"
blake3 = { version = "=1.8.7", default-features = false, features = ["std", "pure"] }
clap = { version = "=4.6.7", features = ["derive"] }
ed25519-dalek = { version = "=2.2.0", features = ["pkcs8", "pem"] }
fjall = "*"
governor = "=0.10.4"
hex = "=0.4.3"
parking_lot = "=0.12.5"
postcard = { version = "1", features = ["use-std"] }
quinn = { version = "=0.11.12", default-features = false, features = ["runtime-tokio", "rustls-ring"] }
rand = "=0.9.5"
rcgen = { version = "*", default-features = false, features = ["crypto", "ring", "pem"] }
rustls = { version = "=0.23.46", default-features = false, features = ["std", "ring"] }
serde = { version = "=1.0.229", features = ["derive"] }
thiserror = "=2.0.21"
tokio = { version = "=1.54.1", features = ["full"] }
tokio-util = "=0.7.20"
toml = "*"
x509-parser = "=0.18.1"
