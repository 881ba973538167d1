[package]
name = "minikv"
version = "0.1.0"
edition = "2021"
publish = false

[dependencies]
blake3 = "=1.8.7"
crc32fast = "=1.5.4"
aes-gcm = "=0.10.3"
hkdf = "=0.12.4"
sha2 = "=0.10.9"
base64 = "=0.22.1"
rand = "=0.8.8"
percent-encoding = "=2.3.2"
uuid = { version = "=1.29.0", features = ["v4"] }
hex = "=0.4.3"
argon2 = "=0.5.3"
jsonwebtoken = "=9.3.1"
lz4 = "=1.28.1"
bincode = "=1.3.3"
serde = { version = "=1.0.229", features = ["derive"] }
serde_json = "=1.0.154"
tokio = { version = "=1.54.1", features = ["full"] }
futures-util = "=0.3.34"
tracing = "=0.1.44"
tracing-subscriber = "=0.3.23"
once_cell = "=1.21.4"
chrono = "=0.4.45"
bloomfilter = "=3.0.2"
thiserror = "=1.0.69"
anyhow = "=1.0.104"
clap = { version = "=4.6.7", features = ["derive"] }
