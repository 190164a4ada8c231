[package]
name = "promtuz"
version = "0.1.0"
edition = "2021"
publish = false

[dependencies]
ed25519-dalek = "=2.2.0"
blake3 = "=1.8.7"
chacha20poly1305 = "=0.10.1"
ring = "=0.17.14"
base64 = "=0.22.1"
serde = { version = "=1.0.229", features = ["derive"] }
postcard = { version = "=1.1.3", features = ["alloc"] }
quinn = "=0.11.12"
tokio = { version = "=1.54.1", features = ["rt", "rt-multi-thread", "sync", "time", "macros", "net", "io-util", "fs"] }
fjall = "=3.1.13"
anyhow = "=1.0.104"
clap = { version = "=4.6.7", features = ["derive"] }
toml = "=1.1.8"
hex = "=0.4.3"
log = "=0.4.35"
thiserror = "=2.0.21"
parking_lot = "=0.13.0"
once_cell = "=1.21.4"
tokio-util = "=0.7.20"
governor = "=0.10.4"
rusqlite = { version = "=0.40.2", features = ["bundled"] }
rusqlite_migration = "=2.6.0"
rustls = "=0.23.46"
x509-parser = "=0.18.1"
reqwest = { version = "=0.12.28", default-features = false, features = ["rustls-tls"] }
image = { version = "=0.25.10", default-features = false }
ravif = { version = "=0.13.0", default-features = false }
rgb = "=0.8.53"
turn = "=0.17.2"
webrtc-util = "=0.17.2"
